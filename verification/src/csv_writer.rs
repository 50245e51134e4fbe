//! The text of a course's grade file and where that file goes.

use vstd::prelude::*;
use std::path::PathBuf;
use crate::text::{count_char, lemma_concat_lacks, lemma_count_char_absent, lemma_count_char_concat, lemma_split_on_absent, lemma_split_on_append, split_on};

verus! {

/// Directory that holds the grade files.
pub const SCORES_DIR: &'static str = "scores";
/// Extension of a grade file.
pub const CSV_EXTENSION: &'static str = ".csv";
/// Heading of the first column, the students' names.
pub const NAME_HEADING: &'static str = "ALUMNO";

#[verifier::external_type_specification]
#[verifier::external_body]
pub struct ExPathBuf(PathBuf);

/// The path that `Path::new(base).join(relative)` gives. `Path::join`
/// reads only its two arguments: it appends `relative` to `base` with the
/// separator of the target platform, or takes `relative` alone where it is
/// absolute. How it splits and joins is left to std and not written out here.
pub uninterp spec fn joined_path(base: Seq<char>, relative: Seq<char>) -> PathBuf;

/// `Path::new(base).join(relative)`: its result is `joined_path` of the two
/// texts.
#[verifier::external_body]
fn path_join(base: &str, relative: &str) -> (r: PathBuf)
    ensures
        r == joined_path(base@, relative@),
{
    std::path::Path::new(base).join(relative)
}

/// Each field preceded by a comma, one after the other.
pub open spec fn comma_fields(fields: Seq<Seq<char>>) -> Seq<char>
    decreases fields.len(),
{
    if fields.len() == 0 {
        Seq::empty()
    } else {
        comma_fields(fields.drop_last()) + ","@ + fields.last()
    }
}

/// Where no field holds a comma, the fields put one comma each.
pub proof fn lemma_comma_fields_count(fields: Seq<Seq<char>>)
    requires
        forall|j: int| 0 <= j < fields.len() ==> !(#[trigger] fields[j]).contains(','),
    ensures
        count_char(comma_fields(fields), ',') == fields.len(),
    decreases fields.len(),
{
    if fields.len() > 0 {
        let d = fields.drop_last();
        assert forall|j: int| 0 <= j < d.len() implies !(#[trigger] d[j]).contains(',') by {
            assert(d[j] == fields[j]);
        }
        lemma_comma_fields_count(d);
        assert(fields.last() == fields[fields.len() - 1]);
        lemma_count_char_concat(comma_fields(d) + ","@, fields.last(), ',');
        lemma_count_char_concat(comma_fields(d), ","@, ',');
        lemma_count_char_absent(fields.last(), ',');
        reveal_strlit(",");
        assert(","@.drop_last() =~= Seq::<char>::empty());
        assert(count_char(Seq::<char>::empty(), ',') == 0);
        assert(count_char(","@, ',') == 1);
    }
}

/// The header has one comma per assignment, where no name holds one.
pub proof fn lemma_header_commas(names: Seq<Seq<char>>)
    requires
        forall|j: int| 0 <= j < names.len() ==> !(#[trigger] names[j]).contains(','),
    ensures
        count_char(header_spec(names), ',') == names.len(),
{
    lemma_comma_fields_count(names);
    reveal_strlit("ALUMNO");
    reveal_strlit("\n");
    lemma_count_char_concat(NAME_HEADING@ + comma_fields(names), "\n"@, ',');
    lemma_count_char_concat(NAME_HEADING@, comma_fields(names), ',');
    lemma_count_char_absent(NAME_HEADING@, ',');
    lemma_count_char_absent("\n"@, ',');
}

/// A first field without a comma followed by comma-preceded fields without
/// one splits back, on commas, into that field and those fields.
pub proof fn lemma_comma_fields_split(first: Seq<char>, fields: Seq<Seq<char>>)
    requires
        !first.contains(','),
        forall|j: int| 0 <= j < fields.len() ==> !(#[trigger] fields[j]).contains(','),
    ensures
        split_on(first + comma_fields(fields), ',') == seq![first] + fields,
    decreases fields.len(),
{
    if fields.len() == 0 {
        assert(first + comma_fields(fields) =~= first);
        lemma_split_on_absent(first, ',');
        assert(seq![first] + fields =~= seq![first]);
    } else {
        let d = fields.drop_last();
        assert forall|j: int| 0 <= j < d.len() implies !(#[trigger] d[j]).contains(',') by {
            assert(d[j] == fields[j]);
        }
        lemma_comma_fields_split(first, d);
        assert(fields.last() == fields[fields.len() - 1]);
        reveal_strlit(",");
        assert(","@ =~= seq![',']);
        assert(first + comma_fields(fields) =~= (first + comma_fields(d)) + seq![','] + fields.last());
        lemma_split_on_append(first + comma_fields(d), ',', fields.last());
        assert((seq![first] + d).push(fields.last()) =~= seq![first] + fields);
    }
}

/// Where no name holds a comma or a line break, the header is one line
/// (then its end), and that line splits on commas into `ALUMNO` and the
/// names, in order.
pub proof fn lemma_header_splits(names: Seq<Seq<char>>)
    requires
        forall|j: int| 0 <= j < names.len() ==> !(#[trigger] names[j]).contains(','),
        forall|j: int| 0 <= j < names.len() ==> !(#[trigger] names[j]).contains('\n'),
    ensures
        header_spec(names) == NAME_HEADING@ + comma_fields(names) + "\n"@,
        !(NAME_HEADING@ + comma_fields(names)).contains('\n'),
        split_on(NAME_HEADING@ + comma_fields(names), ',') == seq![NAME_HEADING@] + names,
{
    reveal_strlit("ALUMNO");
    assert(!NAME_HEADING@.contains(',')) by {
        if NAME_HEADING@.contains(',') {
            let i = choose|i: int| 0 <= i < NAME_HEADING@.len() && NAME_HEADING@[i] == ',';
        }
    }
    assert(!NAME_HEADING@.contains('\n')) by {
        if NAME_HEADING@.contains('\n') {
            let i = choose|i: int| 0 <= i < NAME_HEADING@.len() && NAME_HEADING@[i] == '\n';
        }
    }
    lemma_comma_fields_split(NAME_HEADING@, names);
    lemma_comma_fields_lack(names, '\n');
    lemma_concat_lacks(NAME_HEADING@, comma_fields(names), '\n');
}

/// Where no field holds `c`, and `c` is no comma, the fields with their
/// commas hold no `c`.
pub proof fn lemma_comma_fields_lack(fields: Seq<Seq<char>>, c: char)
    requires
        c != ',',
        forall|j: int| 0 <= j < fields.len() ==> !(#[trigger] fields[j]).contains(c),
    ensures
        !comma_fields(fields).contains(c),
    decreases fields.len(),
{
    if fields.len() > 0 {
        let d = fields.drop_last();
        assert forall|j: int| 0 <= j < d.len() implies !(#[trigger] d[j]).contains(c) by {
            assert(d[j] == fields[j]);
        }
        lemma_comma_fields_lack(d, c);
        assert(fields.last() == fields[fields.len() - 1]);
        reveal_strlit(",");
        assert(!","@.contains(c)) by {
            if ","@.contains(c) {
                let i = choose|i: int| 0 <= i < ","@.len() && ","@[i] == c;
            }
        }
        lemma_concat_lacks(comma_fields(d), ","@, c);
        lemma_concat_lacks(comma_fields(d) + ","@, fields.last(), c);
    }
}

/// Different course names give different file names.
pub proof fn lemma_csv_file_names_distinct(a: Seq<char>, b: Seq<char>)
    requires
        a != b,
    ensures
        a + CSV_EXTENSION@ != b + CSV_EXTENSION@,
{
    if a + CSV_EXTENSION@ == b + CSV_EXTENSION@ {
        assert((a + CSV_EXTENSION@).subrange(0, a.len() as int) =~= a);
        assert((b + CSV_EXTENSION@).subrange(0, b.len() as int) =~= b);
        let e = CSV_EXTENSION@;
        assert((a + e).len() == a.len() + e.len());
        assert((b + e).len() == b.len() + e.len());
        assert(a.len() == b.len());
        assert(a =~= b);
    }
}

/// The first line of a grade file: the heading of the names' column, then
/// one column per assignment, and the end of the line.
pub open spec fn header_spec(names: Seq<Seq<char>>) -> Seq<char> {
    NAME_HEADING@ + comma_fields(names) + "\n"@
}

/// The name of a course's grade file.
pub fn csv_file_name(course_name: &str) -> (r: String)
    ensures
        r@ == course_name@ + CSV_EXTENSION@,
{
    let mut name = String::from_str(course_name);
    name.append(CSV_EXTENSION);
    name
}

/// The path of a course's grade file: its name, `<course>.csv`, joined to
/// the directory `scores`.
pub fn filename_path(course_name: &str) -> (r: PathBuf)
    ensures
        r == joined_path(SCORES_DIR@, course_name@ + CSV_EXTENSION@),
{
    let file_name = csv_file_name(course_name);
    path_join(SCORES_DIR, file_name.as_str())
}

/// The first line of a grade file, with the assignments' names as the
/// headings of the columns after the first.
pub fn header_text(assignment_names: &[&str]) -> (r: String)
    ensures
        r@ == header_spec(assignment_names@.map_values(|n: &str| n@)),
{
    let ghost names = assignment_names@.map_values(|n: &str| n@);
    let mut header = String::from_str(NAME_HEADING);
    let mut i: usize = 0;
    while i < assignment_names.len()
        invariant
            i <= assignment_names@.len(),
            names == assignment_names@.map_values(|n: &str| n@),
            header@ == NAME_HEADING@ + comma_fields(names.take(i as int)),
        decreases assignment_names@.len() - i,
    {
        header.append(",");
        header.append(assignment_names[i]);
        proof {
            assert(names.take(i + 1).drop_last() =~= names.take(i as int));
            assert(names.take(i + 1).last() == assignment_names@[i as int]@);
            assert(header@ =~= NAME_HEADING@ + comma_fields(names.take(i + 1)));
        }
        i = i + 1;
    }
    assert(names.take(assignment_names@.len() as int) =~= names);
    header.append("\n");
    header
}

/// A line of a grade file as it is appended: the line, then its end.
pub fn line_record(line: &str) -> (r: String)
    ensures
        r@ == line@ + "\n"@,
{
    let mut record = String::from_str(line);
    record.append("\n");
    record
}

} // verus!

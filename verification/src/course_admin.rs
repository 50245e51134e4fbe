//! A course's data as loaded from the API, and the export of its grades:
//! the order of its students and assignments, the grade table, the lines of
//! its grade file, and the steps that load and write them.

use vstd::prelude::*;
use crate::csv_writer::{comma_fields, header_spec, lemma_comma_fields_count, lemma_comma_fields_split, lemma_header_commas};
use crate::fetcher::{Assignment, Course, Student, StudentSubmission};
use crate::sorting::{is_stable_sort_of, key_is, lemma_stable_sort_unique, stable_sort, with_key, SortKey};
use crate::submissions::{lemma_recorded_idempotent, lemma_recorded_last, lookup, recorded, SubmissionTable};
use crate::text::{lex_le, split_on, lemma_concat_lacks, count_char, decimal, lemma_count_char_absent, lemma_count_char_concat, lemma_decimal_has_no_comma, push_decimal};

verus! {

/// Students are sorted by family name.
impl SortKey for Student {
    open spec fn sort_key(&self) -> Seq<char> {
        self.profile.name.family_name@
    }

    fn key(&self) -> (r: &str)
        ensures
            r@ == self.profile.name.family_name@,
    {
        self.profile.name.family_name.as_str()
    }
}

/// Assignments are sorted by title.
impl SortKey for Assignment {
    open spec fn sort_key(&self) -> Seq<char> {
        self.title@
    }

    fn key(&self) -> (r: &str)
        ensures
            r@ == self.title@,
    {
        self.title.as_str()
    }
}

/// The students whose family name is `f`, in the order of `s`.
pub open spec fn with_family_name(s: Seq<Student>, f: Seq<char>) -> Seq<Student> {
    s.filter(|x: Student| x.profile.name.family_name@ == f)
}

/// The assignments whose title is `t`, in the order of `s`.
pub open spec fn with_title(s: Seq<Assignment>, t: Seq<char>) -> Seq<Assignment> {
    s.filter(|x: Assignment| x.title@ == t)
}

/// Students sorted as `sort_data` sorts them are in order of their whole
/// family names, and students who share a family name keep the order in
/// which they came.
pub proof fn lemma_students_by_family_name(out: Seq<Student>, input: Seq<Student>)
    requires
        is_stable_sort_of(out, input),
    ensures
        forall|i: int, j: int|
            0 <= i < j < out.len() ==> lex_le(
                (#[trigger] out[i]).profile.name.family_name@,
                (#[trigger] out[j]).profile.name.family_name@,
            ),
        forall|f: Seq<char>| #[trigger] with_family_name(out, f) == with_family_name(input, f),
{
    assert forall|i: int, j: int| 0 <= i < j < out.len() implies lex_le(
        (#[trigger] out[i]).profile.name.family_name@,
        (#[trigger] out[j]).profile.name.family_name@,
    ) by {
        assert(lex_le(out[i].sort_key(), out[j].sort_key()));
    }
    assert forall|f: Seq<char>| #[trigger] with_family_name(out, f) == with_family_name(input, f) by {
        assert(key_is::<Student>(f) =~= (|x: Student| x.profile.name.family_name@ == f));
        assert(with_key(out, f) == with_key(input, f));
    }
}

/// Assignments sorted as `sort_data` sorts them are in order of their whole
/// titles, and assignments that share a title keep the order in which they
/// came.
pub proof fn lemma_assignments_by_title(out: Seq<Assignment>, input: Seq<Assignment>)
    requires
        is_stable_sort_of(out, input),
    ensures
        forall|i: int, j: int|
            0 <= i < j < out.len() ==> lex_le((#[trigger] out[i]).title@, (#[trigger] out[j]).title@),
        forall|t: Seq<char>| #[trigger] with_title(out, t) == with_title(input, t),
{
    assert forall|i: int, j: int| 0 <= i < j < out.len() implies lex_le(
        (#[trigger] out[i]).title@,
        (#[trigger] out[j]).title@,
    ) by {
        assert(lex_le(out[i].sort_key(), out[j].sort_key()));
    }
    assert forall|t: Seq<char>| #[trigger] with_title(out, t) == with_title(input, t) by {
        assert(key_is::<Assignment>(t) =~= (|x: Assignment| x.title@ == t));
        assert(with_key(out, t) == with_key(input, t));
    }
}

/// A course with its students, assignments and grades.
pub struct CourseAdmin {
    pub course: Course,
    pub students: Vec<Student>,
    pub assignments: Vec<Assignment>,
    pub submissions: SubmissionTable,
}

/// The score in a student's cell for an assignment: the grade recorded,
/// or 0 where none was.
pub open spec fn score_of(
    grades: Map<(Seq<char>, Seq<char>), i8>,
    student_id: Seq<char>,
    assignment_id: Seq<char>,
) -> int {
    match lookup(grades, (student_id, assignment_id)) {
        Some(g) => g as int,
        None => 0,
    }
}

/// The cells of a student's line, one per assignment in order.
pub open spec fn score_cells(
    grades: Map<(Seq<char>, Seq<char>), i8>,
    student_id: Seq<char>,
    assignments: Seq<Assignment>,
) -> Seq<Seq<char>> {
    Seq::new(assignments.len(), |j: int| decimal(score_of(grades, student_id, assignments[j].id@)))
}

/// A student's line of the grade file: family name, a space, given name,
/// then one score per assignment, each after a comma.
pub open spec fn row_spec(
    grades: Map<(Seq<char>, Seq<char>), i8>,
    student: Student,
    assignments: Seq<Assignment>,
) -> Seq<char> {
    student.profile.name.family_name@ + " "@ + student.profile.name.given_name@ + comma_fields(
        score_cells(grades, student.user_id@, assignments),
    )
}

/// The assignments' titles, in order.
pub open spec fn titles_of(assignments: Seq<Assignment>) -> Seq<Seq<char>> {
    assignments.map_values(|a: Assignment| a.title@)
}

/// Where no title and neither of the student's names holds a comma, the
/// student's line has exactly as many commas as the header: one per
/// assignment, so that each score stands under its assignment's heading.
pub proof fn lemma_row_lines_up_with_header(
    grades: Map<(Seq<char>, Seq<char>), i8>,
    student: Student,
    assignments: Seq<Assignment>,
)
    requires
        forall|j: int| 0 <= j < assignments.len() ==> !(#[trigger] assignments[j]).title@.contains(','),
        !student.profile.name.family_name@.contains(','),
        !student.profile.name.given_name@.contains(','),
    ensures
        count_char(row_spec(grades, student, assignments), ',') == assignments.len(),
        count_char(header_spec(titles_of(assignments)), ',') == assignments.len(),
{
    let titles = titles_of(assignments);
    assert forall|j: int| 0 <= j < titles.len() implies !(#[trigger] titles[j]).contains(',') by {
        assert(titles[j] == assignments[j].title@);
    }
    lemma_header_commas(titles);
    let cells = score_cells(grades, student.user_id@, assignments);
    assert forall|j: int| 0 <= j < cells.len() implies !(#[trigger] cells[j]).contains(',') by {
        lemma_decimal_has_no_comma(score_of(grades, student.user_id@, assignments[j].id@));
    }
    lemma_comma_fields_count(cells);
    let family = student.profile.name.family_name@;
    let given = student.profile.name.given_name@;
    reveal_strlit(" ");
    lemma_count_char_absent(family, ',');
    lemma_count_char_absent(given, ',');
    lemma_count_char_absent(" "@, ',');
    lemma_count_char_concat(family, " "@, ',');
    lemma_count_char_concat(family + " "@, given, ',');
    lemma_count_char_concat(family + " "@ + given, comma_fields(cells), ',');
}

/// Where neither of the student's names holds a comma, the student's line
/// splits on commas into the name, then one score per assignment in order.
pub proof fn lemma_row_splits(
    grades: Map<(Seq<char>, Seq<char>), i8>,
    student: Student,
    assignments: Seq<Assignment>,
)
    requires
        !student.profile.name.family_name@.contains(','),
        !student.profile.name.given_name@.contains(','),
    ensures
        split_on(row_spec(grades, student, assignments), ',') == seq![
            student.profile.name.family_name@ + " "@ + student.profile.name.given_name@,
        ] + score_cells(grades, student.user_id@, assignments),
{
    let cells = score_cells(grades, student.user_id@, assignments);
    assert forall|j: int| 0 <= j < cells.len() implies !(#[trigger] cells[j]).contains(',') by {
        lemma_decimal_has_no_comma(score_of(grades, student.user_id@, assignments[j].id@));
    }
    let family = student.profile.name.family_name@;
    let given = student.profile.name.given_name@;
    reveal_strlit(" ");
    assert(!" "@.contains(',')) by {
        if " "@.contains(',') {
            let i = choose|i: int| 0 <= i < " "@.len() && " "@[i] == ',';
        }
    }
    lemma_concat_lacks(family, " "@, ',');
    lemma_concat_lacks(family + " "@, given, ',');
    lemma_comma_fields_split(family + " "@ + given, cells);
}

/// A cell shows the grade that the table holds for its student and
/// assignment, and 0 where the table holds none.
pub proof fn lemma_score_is_recorded_grade(
    grades: Map<(Seq<char>, Seq<char>), i8>,
    student_id: Seq<char>,
    assignment_id: Seq<char>,
)
    ensures
        grades.dom().contains((student_id, assignment_id)) ==> score_of(grades, student_id, assignment_id)
            == grades[(student_id, assignment_id)] as int,
        !grades.dom().contains((student_id, assignment_id)) ==> score_of(grades, student_id, assignment_id)
            == 0,
{
}

/// After recording submissions, the cell of a submission's student and
/// assignment, where no later submission names the same pair, shows that
/// submission's assigned grade exactly (whatever its value, 0 included),
/// and -1 where it has none.
pub proof fn lemma_score_after_recording(
    grades: Map<(Seq<char>, Seq<char>), i8>,
    subs: Seq<StudentSubmission>,
    i: int,
)
    requires
        0 <= i < subs.len(),
        forall|j: int|
            i < j < subs.len() ==> ((#[trigger] subs[j]).student_id@, subs[j].assignment_id@) != (
            subs[i].student_id@,
            subs[i].assignment_id@,
        ),
    ensures
        score_of(recorded(grades, subs), subs[i].student_id@, subs[i].assignment_id@) == (match subs[i].assigned_grade {
            Some(g) => g as int,
            None => -1,
        }),
{
    lemma_recorded_last(grades, subs, i);
}

/// Where neither of the student's names holds a comma, the field after the
/// name that comes `j`-th on the student's line is the decimal rendering of
/// the grade that the table holds for the student and the `j`-th
/// assignment, and of 0 where it holds none.
pub proof fn lemma_row_cell_shows_grade(
    grades: Map<(Seq<char>, Seq<char>), i8>,
    student: Student,
    assignments: Seq<Assignment>,
    j: int,
)
    requires
        !student.profile.name.family_name@.contains(','),
        !student.profile.name.given_name@.contains(','),
        0 <= j < assignments.len(),
    ensures
        split_on(row_spec(grades, student, assignments), ',').len() == assignments.len() + 1,
        split_on(row_spec(grades, student, assignments), ',')[j + 1] == decimal(
            if grades.dom().contains((student.user_id@, assignments[j].id@)) {
                grades[(student.user_id@, assignments[j].id@)] as int
            } else {
                0
            },
        ),
{
    lemma_row_splits(grades, student, assignments);
    lemma_score_is_recorded_grade(grades, student.user_id@, assignments[j].id@);
}

/// The lines of the students, each with its end, one after the other.
pub open spec fn rows_text(
    grades: Map<(Seq<char>, Seq<char>), i8>,
    students: Seq<Student>,
    assignments: Seq<Assignment>,
) -> Seq<char>
    decreases students.len(),
{
    if students.len() == 0 {
        Seq::empty()
    } else {
        rows_text(grades, students.drop_last(), assignments) + row_spec(
            grades,
            students.last(),
            assignments,
        ) + "\n"@
    }
}

/// The text of a course's grade file: the header, then each student's line.
pub open spec fn grade_file(admin: CourseAdmin) -> Seq<char> {
    header_spec(titles_of(admin.assignments@)) + rows_text(
        admin.submissions@,
        admin.students@,
        admin.assignments@,
    )
}

/// Exporting the same answers twice gives the same file. A first export
/// leaves the roster and the assignments stably sorted and the answers'
/// grades recorded over the grades it started with; a second export fed the
/// same answers sorts them again and records them again over what the first
/// left (`lemma_recorded_batches` joins the batches of one export into
/// `answers`). Both leave the same course data, hence the same grade file.
pub proof fn lemma_repeat_export_same_file(
    first: CourseAdmin,
    second: CourseAdmin,
    roster: Seq<Student>,
    work: Seq<Assignment>,
    answers: Seq<StudentSubmission>,
    start: Map<(Seq<char>, Seq<char>), i8>,
)
    requires
        is_stable_sort_of(first.students@, roster),
        is_stable_sort_of(first.assignments@, work),
        first.submissions@ == recorded(start, answers),
        is_stable_sort_of(second.students@, roster),
        is_stable_sort_of(second.assignments@, work),
        second.submissions@ == recorded(first.submissions@, answers),
    ensures
        second.students@ == first.students@,
        second.assignments@ == first.assignments@,
        second.submissions@ == first.submissions@,
        grade_file(second) == grade_file(first),
{
    lemma_stable_sort_unique(second.students@, first.students@, roster);
    lemma_stable_sort_unique(second.assignments@, first.assignments@, work);
    lemma_recorded_idempotent(start, answers);
}

impl CourseAdmin {
    /// A course with no student, no assignment and no grade yet.
    pub fn new(course: Course) -> (r: Self)
        ensures
            r.course == course,
            r.students@ == Seq::<Student>::empty(),
            r.assignments@ == Seq::<Assignment>::empty(),
            r.submissions@ == Map::<(Seq<char>, Seq<char>), i8>::empty(),
    {
        CourseAdmin {
            course,
            students: Vec::new(),
            assignments: Vec::new(),
            submissions: SubmissionTable::new(),
        }
    }

    /// Sorts the students by family name and the assignments by title, both
    /// stably.
    pub fn sort_data(&mut self)
        ensures
            is_stable_sort_of(final(self).students@, old(self).students@),
            is_stable_sort_of(final(self).assignments@, old(self).assignments@),
            final(self).course == old(self).course,
            final(self).submissions == old(self).submissions,
            forall|i: int, j: int|
                0 <= i < j < final(self).students@.len() ==> lex_le(
                    (#[trigger] final(self).students@[i]).profile.name.family_name@,
                    (#[trigger] final(self).students@[j]).profile.name.family_name@,
                ),
            forall|i: int, j: int|
                0 <= i < j < final(self).assignments@.len() ==> lex_le(
                    (#[trigger] final(self).assignments@[i]).title@,
                    (#[trigger] final(self).assignments@[j]).title@,
                ),
    {
        stable_sort(&mut self.students);
        stable_sort(&mut self.assignments);
        proof {
            lemma_students_by_family_name(self.students@, old(self).students@);
            lemma_assignments_by_title(self.assignments@, old(self).assignments@);
        }
    }

    /// The score of a student for an assignment, as the grade file shows it.
    pub fn score(&self, student_id: &String, assignment_id: &String) -> (r: i8)
        ensures
            r as int == score_of(self.submissions@, student_id@, assignment_id@),
            self.submissions@.dom().contains((student_id@, assignment_id@)) ==> r == self.submissions@[(
            student_id@,
            assignment_id@,
            )],
            !self.submissions@.dom().contains((student_id@, assignment_id@)) ==> r == 0,
    {
        match self.submissions.get(student_id, assignment_id) {
            Some(g) => g,
            None => 0,
        }
    }

    /// The line of the grade file for the `i`-th student.
    pub fn student_row(&self, i: usize) -> (r: String)
        requires
            i < self.students@.len(),
        ensures
            r@ == row_spec(self.submissions@, self.students@[i as int], self.assignments@),
    {
        let student = &self.students[i];
        let name = &student.profile.name;
        let ghost cells = score_cells(self.submissions@, student.user_id@, self.assignments@);
        let mut line = name.family_name.clone();
        line.append(" ");
        line.append(name.given_name.as_str());
        let ghost prefix = line@;
        let mut j: usize = 0;
        while j < self.assignments.len()
            invariant
                j <= self.assignments@.len(),
                cells == score_cells(self.submissions@, student.user_id@, self.assignments@),
                line@ == prefix + comma_fields(cells.take(j as int)),
            decreases self.assignments@.len() - j,
        {
            let score = self.score(&student.user_id, &self.assignments[j].id);
            line.append(",");
            push_decimal(&mut line, score);
            proof {
                assert(cells.take(j + 1).drop_last() =~= cells.take(j as int));
                assert(cells.take(j + 1).last() == cells[j as int]);
                assert(line@ =~= prefix + comma_fields(cells.take(j + 1)));
            }
            j = j + 1;
        }
        assert(cells.take(self.assignments@.len() as int) =~= cells);
        line
    }

    /// The assignments' titles, in order.
    pub fn assignment_titles(&self) -> (r: Vec<String>)
        ensures
            r@.map_values(|t: String| t@) == titles_of(self.assignments@),
    {
        let mut titles: Vec<String> = Vec::new();
        let mut j: usize = 0;
        while j < self.assignments.len()
            invariant
                j <= self.assignments@.len(),
                titles@.len() == j,
                forall|k: int| 0 <= k < j ==> #[trigger] titles@[k]@ == self.assignments@[k].title@,
            decreases self.assignments@.len() - j,
        {
            titles.push(self.assignments[j].title.clone());
            j = j + 1;
        }
        assert(titles@.map_values(|t: String| t@) =~= titles_of(self.assignments@));
        titles
    }
}

} // verus!

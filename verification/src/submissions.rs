//! The grades of a course, keyed by student and assignment.

use vstd::prelude::*;
use crate::fetcher::StudentSubmission;

verus! {

/// The key of a grade: the student's id, then the assignment's id.
pub type GradeKey = (Seq<char>, Seq<char>);

struct GradeEntry {
    student_id: String,
    assignment_id: String,
    grade: i8,
}

spec fn entry_key(e: GradeEntry) -> GradeKey {
    (e.student_id@, e.assignment_id@)
}

spec fn keys_distinct(s: Seq<GradeEntry>) -> bool {
    forall|i: int, j: int|
        0 <= i < j < s.len() ==> entry_key(#[trigger] s[i]) != entry_key(#[trigger] s[j])
}

spec fn map_of(s: Seq<GradeEntry>) -> Map<GradeKey, i8>
    decreases s.len(),
{
    if s.len() == 0 {
        Map::empty()
    } else {
        map_of(s.drop_last()).insert(entry_key(s.last()), s.last().grade)
    }
}

proof fn lemma_map_of_finite(s: Seq<GradeEntry>)
    ensures
        map_of(s).dom().finite(),
    decreases s.len(),
{
    if s.len() > 0 {
        lemma_map_of_finite(s.drop_last());
    }
}

proof fn lemma_map_of_lookup(s: Seq<GradeEntry>, k: GradeKey)
    requires
        keys_distinct(s),
    ensures
        map_of(s).dom().contains(k) <==> exists|i: int| 0 <= i < s.len() && entry_key(#[trigger] s[i]) == k,
        forall|i: int| 0 <= i < s.len() && entry_key(#[trigger] s[i]) == k ==> map_of(s)[k] == s[i].grade,
    decreases s.len(),
{
    if s.len() > 0 {
        let d = s.drop_last();
        assert(keys_distinct(d)) by {
            assert forall|i: int, j: int| 0 <= i < j < d.len() implies entry_key(#[trigger] d[i]) != entry_key(#[trigger] d[j]) by {
                assert(d[i] == s[i] && d[j] == s[j]);
            }
        }
        lemma_map_of_lookup(d, k);
        if map_of(s).dom().contains(k) {
            if entry_key(s.last()) == k {
                assert(entry_key(s[s.len() - 1]) == k);
            } else {
                let i = choose|i: int| 0 <= i < d.len() && entry_key(#[trigger] d[i]) == k;
                assert(entry_key(s[i]) == k);
            }
        }
        assert forall|i: int| 0 <= i < s.len() && entry_key(#[trigger] s[i]) == k implies map_of(s)[k] == s[i].grade by {
            if i < s.len() - 1 {
                assert(d[i] == s[i]);
                assert(entry_key(s[i]) != entry_key(s[s.len() - 1]));
            }
        }
        if exists|i: int| 0 <= i < s.len() && entry_key(#[trigger] s[i]) == k {
            let i = choose|i: int| 0 <= i < s.len() && entry_key(#[trigger] s[i]) == k;
            if i < s.len() - 1 {
                assert(d[i] == s[i]);
            }
        }
    }
}

proof fn lemma_map_of_update(s: Seq<GradeEntry>, i: int, e: GradeEntry)
    requires
        keys_distinct(s),
        0 <= i < s.len(),
        entry_key(e) == entry_key(s[i]),
    ensures
        map_of(s.update(i, e)) == map_of(s).insert(entry_key(e), e.grade),
    decreases s.len(),
{
    let u = s.update(i, e);
    if i == s.len() - 1 {
        assert(u.drop_last() =~= s.drop_last());
        assert(map_of(u) =~= map_of(s).insert(entry_key(e), e.grade));
    } else {
        let d = s.drop_last();
        assert(keys_distinct(d)) by {
            assert forall|a: int, b: int| 0 <= a < b < d.len() implies entry_key(#[trigger] d[a]) != entry_key(#[trigger] d[b]) by {
                assert(d[a] == s[a] && d[b] == s[b]);
            }
        }
        assert(u.drop_last() =~= d.update(i, e));
        lemma_map_of_update(d, i, e);
        assert(entry_key(s[i]) != entry_key(s[s.len() - 1]));
        assert(map_of(u) =~= map_of(s).insert(entry_key(e), e.grade));
    }
}

proof fn lemma_map_of_len(s: Seq<GradeEntry>)
    requires
        keys_distinct(s),
    ensures
        map_of(s).len() == s.len(),
    decreases s.len(),
{
    if s.len() > 0 {
        let d = s.drop_last();
        assert(keys_distinct(d)) by {
            assert forall|a: int, b: int| 0 <= a < b < d.len() implies entry_key(#[trigger] d[a]) != entry_key(#[trigger] d[b]) by {
                assert(d[a] == s[a] && d[b] == s[b]);
            }
        }
        lemma_map_of_len(d);
        lemma_map_of_finite(d);
        lemma_map_of_lookup(d, entry_key(s.last()));
        if map_of(d).dom().contains(entry_key(s.last())) {
            let i = choose|i: int| 0 <= i < d.len() && entry_key(#[trigger] d[i]) == entry_key(s.last());
            assert(entry_key(s[i]) == entry_key(s[s.len() - 1]));
        }
        assert(map_of(s).dom() =~= map_of(d).dom().insert(entry_key(s.last())));
    }
}

/// Where a submission's grade goes: its student's id, then its assignment's id.
pub open spec fn submission_key(s: StudentSubmission) -> GradeKey {
    (s.student_id@, s.assignment_id@)
}

/// The grade that a submission records: its assigned grade, or -1 where it
/// has none.
pub open spec fn submission_grade(s: StudentSubmission) -> i8 {
    match s.assigned_grade {
        Some(g) => g,
        None => -1i8,
    }
}

/// The grades `m` after recording each of `subs` in turn, a later one in
/// place of an earlier one with the same key.
pub open spec fn recorded(m: Map<GradeKey, i8>, subs: Seq<StudentSubmission>) -> Map<GradeKey, i8>
    decreases subs.len(),
{
    if subs.len() == 0 {
        m
    } else {
        recorded(m, subs.drop_last()).insert(submission_key(subs.last()), submission_grade(subs.last()))
    }
}

/// The grade that the last of `subs` with key `k` records, if one has it.
pub open spec fn latest_grade(subs: Seq<StudentSubmission>, k: GradeKey) -> Option<i8>
    decreases subs.len(),
{
    if subs.len() == 0 {
        None
    } else if submission_key(subs.last()) == k {
        Some(submission_grade(subs.last()))
    } else {
        latest_grade(subs.drop_last(), k)
    }
}

/// The grade that `m` holds under `k`, if any.
pub open spec fn lookup(m: Map<GradeKey, i8>, k: GradeKey) -> Option<i8> {
    if m.dom().contains(k) {
        Some(m[k])
    } else {
        None
    }
}

/// A read after recording gives back the grade of the last submission
/// recorded under that key, and where none was, what was there before.
pub proof fn lemma_recorded_reads(m: Map<GradeKey, i8>, subs: Seq<StudentSubmission>, k: GradeKey)
    ensures
        lookup(recorded(m, subs), k) == (match latest_grade(subs, k) {
            Some(g) => Some(g),
            None => lookup(m, k),
        }),
    decreases subs.len(),
{
    if subs.len() > 0 {
        lemma_recorded_reads(m, subs.drop_last(), k);
    }
}

/// After recording, the grade under a submission's student and assignment,
/// where no later submission has the same pair, is that submission's
/// assigned grade, and -1 where it has none.
pub proof fn lemma_recorded_last(m: Map<GradeKey, i8>, subs: Seq<StudentSubmission>, i: int)
    requires
        0 <= i < subs.len(),
        forall|j: int|
            i < j < subs.len() ==> ((#[trigger] subs[j]).student_id@, subs[j].assignment_id@) != (
            subs[i].student_id@,
            subs[i].assignment_id@,
        ),
    ensures
        recorded(m, subs).dom().contains((subs[i].student_id@, subs[i].assignment_id@)),
        recorded(m, subs)[(subs[i].student_id@, subs[i].assignment_id@)] == (match subs[i].assigned_grade {
            Some(g) => g,
            None => -1i8,
        }),
    decreases subs.len(),
{
    let n = subs.len() - 1;
    if i < n {
        let d = subs.drop_last();
        assert forall|j: int| i < j < d.len() implies ((#[trigger] d[j]).student_id@, d[j].assignment_id@) != (
            d[i].student_id@,
            d[i].assignment_id@,
        ) by {
            assert(d[j] == subs[j]);
        }
        lemma_recorded_last(m, d, i);
        assert(subs.last() == subs[n]);
        assert(d[i] == subs[i]);
    } else {
        assert(subs.last() == subs[i]);
    }
}

/// After recording, the grade under a student and an assignment that no
/// submission names is the one there was before, or still none.
pub proof fn lemma_recorded_untouched(m: Map<GradeKey, i8>, subs: Seq<StudentSubmission>, k: GradeKey)
    requires
        forall|j: int|
            0 <= j < subs.len() ==> ((#[trigger] subs[j]).student_id@, subs[j].assignment_id@) != k,
    ensures
        recorded(m, subs).dom().contains(k) == m.dom().contains(k),
        m.dom().contains(k) ==> recorded(m, subs)[k] == m[k],
    decreases subs.len(),
{
    if subs.len() > 0 {
        let d = subs.drop_last();
        assert forall|j: int| 0 <= j < d.len() implies ((#[trigger] d[j]).student_id@, d[j].assignment_id@) != k by {
            assert(d[j] == subs[j]);
        }
        lemma_recorded_untouched(m, d, k);
        assert(subs.last() == subs[subs.len() - 1]);
    }
}

/// Recording one batch and then another records their concatenation.
pub proof fn lemma_recorded_concat(m: Map<GradeKey, i8>, a: Seq<StudentSubmission>, b: Seq<StudentSubmission>)
    ensures
        recorded(recorded(m, a), b) == recorded(m, a + b),
    decreases b.len(),
{
    if b.len() == 0 {
        assert(a + b =~= a);
    } else {
        lemma_recorded_concat(m, a, b.drop_last());
        assert((a + b).drop_last() =~= a + b.drop_last());
        assert((a + b).last() == b.last());
    }
}

/// The batches one after another, as one sequence.
pub open spec fn all_batches(batches: Seq<Seq<StudentSubmission>>) -> Seq<StudentSubmission>
    decreases batches.len(),
{
    if batches.len() == 0 {
        Seq::empty()
    } else {
        all_batches(batches.drop_last()) + batches.last()
    }
}

/// Grade maps that follow one another, each recording the next batch over
/// the one before (as the export's submissions steps do, one batch per
/// assignment), end with all the batches recorded over the first.
pub proof fn lemma_recorded_batches(
    maps: Seq<Map<GradeKey, i8>>,
    batches: Seq<Seq<StudentSubmission>>,
)
    requires
        maps.len() == batches.len() + 1,
        forall|i: int| 0 <= i < batches.len() ==> #[trigger] maps[i + 1] == recorded(maps[i], batches[i]),
    ensures
        maps.last() == recorded(maps[0], all_batches(batches)),
    decreases batches.len(),
{
    if batches.len() == 0 {
        assert(all_batches(batches) =~= Seq::<StudentSubmission>::empty());
    } else {
        let n = batches.len() as int;
        let pm = maps.drop_last();
        let pb = batches.drop_last();
        assert forall|i: int| 0 <= i < pb.len() implies #[trigger] pm[i + 1] == recorded(pm[i], pb[i]) by {
            assert(maps[i + 1] == recorded(maps[i], batches[i]));
        }
        lemma_recorded_batches(pm, pb);
        assert(maps[n] == recorded(maps[n - 1], batches[n - 1]));
        lemma_recorded_concat(maps[0], all_batches(pb), batches.last());
    }
}

/// Two grade maps that read the same under every key are equal.
pub proof fn lemma_lookup_extensional(m1: Map<GradeKey, i8>, m2: Map<GradeKey, i8>)
    requires
        forall|k: GradeKey| #[trigger] lookup(m1, k) == lookup(m2, k),
    ensures
        m1 == m2,
{
    assert forall|k: GradeKey| m1.dom().contains(k) == m2.dom().contains(k) by {
        assert(lookup(m1, k) == lookup(m2, k));
    }
    assert forall|k: GradeKey| m1.dom().contains(k) implies m1[k] == m2[k] by {
        assert(lookup(m1, k) == lookup(m2, k));
    }
    assert(m1 =~= m2);
}

/// Recording the same submissions a second time changes nothing.
pub proof fn lemma_recorded_idempotent(m: Map<GradeKey, i8>, subs: Seq<StudentSubmission>)
    ensures
        recorded(recorded(m, subs), subs) == recorded(m, subs),
{
    assert forall|k: GradeKey| #[trigger] lookup(recorded(recorded(m, subs), subs), k) == lookup(
        recorded(m, subs),
        k,
    ) by {
        lemma_recorded_reads(recorded(m, subs), subs, k);
        lemma_recorded_reads(m, subs, k);
    }
    lemma_lookup_extensional(recorded(recorded(m, subs), subs), recorded(m, subs));
}

/// The grades recorded so far: at most one per student and assignment.
pub struct SubmissionTable {
    entries: Vec<GradeEntry>,
}

impl SubmissionTable {
    #[verifier::type_invariant]
    spec fn well_formed(self) -> bool {
        keys_distinct(self.entries@)
    }
}

impl View for SubmissionTable {
    type V = Map<GradeKey, i8>;

    closed spec fn view(&self) -> Map<GradeKey, i8> {
        map_of(self.entries@)
    }
}

impl SubmissionTable {
    /// A table with no grade.
    pub fn new() -> (r: Self)
        ensures
            r@ == Map::<GradeKey, i8>::empty(),
    {
        SubmissionTable { entries: Vec::new() }
    }

    fn position(&self, student_id: &String, assignment_id: &String) -> (r: Option<usize>)
        ensures
            r matches Some(i) ==> i < self.entries@.len() && entry_key(self.entries@[i as int]) == (
            student_id@, assignment_id@),
            r is None ==> forall|i: int|
                0 <= i < self.entries@.len() ==> entry_key(#[trigger] self.entries@[i]) != (
                student_id@,
                assignment_id@,
            ),
    {
        let mut i: usize = 0;
        while i < self.entries.len()
            invariant
                i <= self.entries@.len(),
                forall|j: int|
                    0 <= j < i ==> entry_key(#[trigger] self.entries@[j]) != (
                    student_id@,
                    assignment_id@,
                ),
            decreases self.entries@.len() - i,
        {
            let e = &self.entries[i];
            if e.student_id == *student_id && e.assignment_id == *assignment_id {
                return Some(i);
            }
            i = i + 1;
        }
        None
    }

    /// Records `grade` for the student and the assignment, in place of the
    /// grade recorded before for them, if any.
    pub fn insert(&mut self, student_id: String, assignment_id: String, grade: i8)
        ensures
            final(self)@ == old(self)@.insert((student_id@, assignment_id@), grade),
    {
        proof {
            use_type_invariant(&*self);
        }
        let ghost before = self.entries@;
        let found = self.position(&student_id, &assignment_id);
        let e = GradeEntry { student_id, assignment_id, grade };
        let mut entries: Vec<GradeEntry> = Vec::new();
        core::mem::swap(&mut entries, &mut self.entries);
        match found {
            Some(i) => {
                proof {
                    lemma_map_of_update(before, i as int, e);
                    assert(keys_distinct(before.update(i as int, e))) by {
                        assert forall|a: int, b: int| 0 <= a < b < before.len() implies entry_key(
                            #[trigger] before.update(i as int, e)[a],
                        ) != entry_key(#[trigger] before.update(i as int, e)[b]) by {
                            assert(entry_key(before[a]) != entry_key(before[b]));
                        }
                    }
                }
                entries.set(i, e);
            },
            None => {
                proof {
                    assert(before.push(e).drop_last() =~= before);
                    assert(keys_distinct(before.push(e))) by {
                        assert forall|a: int, b: int| 0 <= a < b < before.len() + 1 implies entry_key(
                            #[trigger] before.push(e)[a],
                        ) != entry_key(#[trigger] before.push(e)[b]) by {
                            if b == before.len() {
                                assert(before.push(e)[a] == before[a]);
                            } else {
                                assert(entry_key(before[a]) != entry_key(before[b]));
                            }
                        }
                    }
                }
                entries.push(e);
            },
        }
        self.entries = entries;
    }

    /// Records the grade of each submission in turn.
    pub fn record_all(&mut self, subs: &Vec<StudentSubmission>)
        ensures
            final(self)@ == recorded(old(self)@, subs@),
    {
        let mut i: usize = 0;
        while i < subs.len()
            invariant
                i <= subs@.len(),
                self@ == recorded(old(self)@, subs@.take(i as int)),
            decreases subs@.len() - i,
        {
            let sub = &subs[i];
            let grade: i8 = match sub.assigned_grade {
                Some(g) => g,
                None => -1,
            };
            self.insert(sub.student_id.clone(), sub.assignment_id.clone(), grade);
            proof {
                assert(subs@.take(i + 1).drop_last() =~= subs@.take(i as int));
                assert(subs@.take(i + 1).last() == subs@[i as int]);
            }
            i = i + 1;
        }
        assert(subs@.take(subs@.len() as int) =~= subs@);
    }

    /// The grade recorded for the student and the assignment.
    pub fn get(&self, student_id: &String, assignment_id: &String) -> (r: Option<i8>)
        ensures
            r == (if self@.dom().contains((student_id@, assignment_id@)) {
                Some(self@[(student_id@, assignment_id@)])
            } else {
                None
            }),
    {
        proof {
            use_type_invariant(self);
            lemma_map_of_lookup(self.entries@, (student_id@, assignment_id@));
        }
        match self.position(student_id, assignment_id) {
            Some(i) => Some(self.entries[i].grade),
            None => None,
        }
    }

    /// The number of grades recorded.
    pub fn len(&self) -> (r: usize)
        ensures
            r == self@.len(),
    {
        proof {
            use_type_invariant(self);
            lemma_map_of_len(self.entries@);
        }
        self.entries.len()
    }
}

} // verus!

//! The records that the Classroom API hands back, the addresses of its
//! endpoints, and the decisions taken on what it answers.

use vstd::prelude::*;

verus! {

/// Base address of the courses collection.
pub const COURSES: &'static str = "https://classroom.googleapis.com/v1/courses";
/// Path segment of a course's assignments.
pub const COURSE_WORK: &'static str = "courseWork";
/// Path segment of an assignment's submissions.
pub const STUDENT_SUBMISSIONS: &'static str = "studentSubmissions";
/// Path segment of a course's roster.
pub const STUDENTS: &'static str = "students";

/// State of a course.
#[allow(non_camel_case_types)]
pub enum Status {
    ACTIVE,
    ARCHIVED,
    PUBLISHED,
}

/// Basic information on a course.
pub struct Course {
    pub id: String,
    pub name: String,
    pub course_state: Status,
}

/// An assignment of a course.
pub struct Assignment {
    pub id: String,
    pub title: String,
}

/// A student's submission to an assignment, with its grade when it has one.
pub struct StudentSubmission {
    pub assignment_id: String,
    pub student_id: String,
    pub assigned_grade: Option<i8>,
}

/// One page of a course's roster.
pub struct StudentsContainer {
    pub students: Vec<Student>,
    pub next_page: Option<String>,
}

/// A student enrolled in a course.
pub struct Student {
    pub user_id: String,
    pub profile: Profile,
}

/// A student's profile.
pub struct Profile {
    pub name: Name,
}

/// A student's name.
pub struct Name {
    pub given_name: String,
    pub family_name: String,
}

/// Whether a course is in the `ACTIVE` state.
pub open spec fn is_active(c: Course) -> bool {
    c.course_state is ACTIVE
}

/// What is kept of a list of courses, as `active_only` keeps it, is the
/// sublist of the courses whose state is `ACTIVE`, in their order: every
/// active course stays, whatever its id or name, and no other course does.
pub proof fn lemma_active_only_keeps_exactly_active(courses: Seq<Course>, kept: Seq<Course>)
    requires
        kept == courses.filter(|c: Course| is_active(c)),
    ensures
        kept == courses.filter(|c: Course| c.course_state is ACTIVE),
        forall|i: int| 0 <= i < kept.len() ==> (#[trigger] kept[i]).course_state is ACTIVE,
        forall|i: int|
            0 <= i < courses.len() && (#[trigger] courses[i]).course_state is ACTIVE ==> kept.contains(
                courses[i],
            ),
{
    let p = |c: Course| c.course_state is ACTIVE;
    assert((|c: Course| is_active(c)) =~= p);
    assert forall|i: int| 0 <= i < kept.len() implies (#[trigger] kept[i]).course_state is ACTIVE by {
        courses.lemma_filter_pred(p, i);
    }
    assert forall|i: int| 0 <= i < courses.len() && (#[trigger] courses[i]).course_state is ACTIVE implies kept.contains(
        courses[i],
    ) by {
        courses.lemma_filter_contains(p, i);
    }
}

/// Keeps the active courses, in the order given.
pub fn active_only(courses: Vec<Course>) -> (r: Vec<Course>)
    ensures
        r@ == courses@.filter(|c: Course| is_active(c)),
        r@ == courses@.filter(|c: Course| c.course_state is ACTIVE),
{
    let ghost all = courses@;
    let mut rest = courses;
    let mut kept: Vec<Course> = Vec::new();
    let ghost mut taken: nat = 0;
    assert(all.take(0).filter(|c: Course| is_active(c)) =~= Seq::<Course>::empty());
    while rest.len() > 0
        invariant
            taken + rest@.len() == all.len(),
            rest@ == all.skip(taken as int),
            kept@ == all.take(taken as int).filter(|c: Course| is_active(c)),
        decreases rest@.len(),
    {
        let c = rest.remove(0);
        proof {
            assert(all.take((taken + 1) as int).drop_last() =~= all.take(taken as int));
            assert(all.take((taken + 1) as int).last() == c);
            reveal_with_fuel(Seq::<_>::filter, 1);
        }
        let active = match c.course_state {
            Status::ACTIVE => true,
            _ => false,
        };
        if active {
            kept.push(c);
        }
        proof {
            taken = taken + 1;
            assert(rest@ =~= all.skip(taken as int));
        }
    }
    assert(all.take(all.len() as int) =~= all);
    proof {
        lemma_active_only_keeps_exactly_active(all, kept@);
    }
    kept
}

/// The address of a course's assignments.
pub fn course_work_url(course_id: &str) -> (r: String)
    ensures
        r@ == COURSES@ + "/"@ + course_id@ + "/"@ + COURSE_WORK@,
{
    let mut url = String::from_str(COURSES);
    url.append("/");
    url.append(course_id);
    url.append("/");
    url.append(COURSE_WORK);
    url
}

/// The address of the submissions to an assignment of a course.
pub fn student_submissions_url(course_id: &str, assignment_id: &str) -> (r: String)
    ensures
        r@ == COURSES@ + "/"@ + course_id@ + "/"@ + COURSE_WORK@ + "/"@ + assignment_id@ + "/"@
            + STUDENT_SUBMISSIONS@,
{
    let mut url = course_work_url(course_id);
    url.append("/");
    url.append(assignment_id);
    url.append("/");
    url.append(STUDENT_SUBMISSIONS);
    url
}

/// The address of a course's roster.
pub fn students_url(course_id: &str) -> (r: String)
    ensures
        r@ == COURSES@ + "/"@ + course_id@ + "/"@ + STUDENTS@,
{
    let mut url = String::from_str(COURSES);
    url.append("/");
    url.append(course_id);
    url.append("/");
    url.append(STUDENTS);
    url
}

/// Name of the query parameter that asks for a page of a listing.
pub const PAGE_TOKEN: &'static str = "pageToken";

/// Walks the pages of a course's roster: which page to ask for next, and
/// the students gathered from the pages received so far.
pub struct RosterPages {
    students: Vec<Student>,
    page_token: Option<String>,
    finished: bool,
}

impl RosterPages {
    /// The students gathered so far, in the order of the pages and within them.
    pub closed spec fn gathered(&self) -> Seq<Student> {
        self.students@
    }

    /// The token of the next page, as the last page received gave it.
    pub closed spec fn token(&self) -> Option<String> {
        self.page_token
    }

    /// Whether the last page received named no further page.
    pub closed spec fn is_finished(&self) -> bool {
        self.finished
    }

    /// Before the first page: nothing gathered, no token.
    pub fn new() -> (r: Self)
        ensures
            r.gathered() == Seq::<Student>::empty(),
            r.token() is None,
            !r.is_finished(),
    {
        RosterPages { students: Vec::new(), page_token: None, finished: false }
    }

    /// Whether the roster has been read to its end.
    pub fn finished(&self) -> (r: bool)
        ensures
            r == self.is_finished(),
    {
        self.finished
    }

    /// The query parameters of the next request: none for the first page,
    /// then the page token that the previous page gave.
    pub fn next_query(&self) -> (r: Vec<(String, String)>)
        ensures
            self.token() is None ==> r@.len() == 0,
            self.token() matches Some(t) ==> r@.len() == 1 && r@[0].0@ == PAGE_TOKEN@ && r@[0].1@
                == t@,
    {
        let mut params: Vec<(String, String)> = Vec::new();
        match &self.page_token {
            Some(token) => {
                params.push((String::from_str(PAGE_TOKEN), token.clone()));
            },
            None => {},
        }
        params
    }

    /// Takes in one page: its students follow those gathered so far, and its
    /// next-page token decides whether another page is asked for.
    pub fn receive_page(&mut self, page: StudentsContainer)
        requires
            !old(self).is_finished(),
        ensures
            final(self).gathered() == old(self).gathered() + page.students@,
            final(self).token() == page.next_page,
            final(self).is_finished() == (page.next_page is None),
    {
        let StudentsContainer { students, next_page } = page;
        let mut students = students;
        self.students.append(&mut students);
        self.finished = next_page.is_none();
        self.page_token = next_page;
    }

    /// The students of all pages received.
    pub fn into_students(self) -> (r: Vec<Student>)
        ensures
            r@ == self.gathered(),
    {
        self.students
    }
}

} // verus!

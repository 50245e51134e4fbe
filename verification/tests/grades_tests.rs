use classroom_grades::course_admin::CourseAdmin;
use classroom_grades::csv_writer::{csv_file_name, filename_path, header_text, line_record};
use classroom_grades::export::{ExportAction, ExportEvent, ExportFailure, ExportPhase};
use classroom_grades::fetcher::{
    active_only, course_work_url, student_submissions_url, students_url, Assignment, Course, Name,
    Profile, RosterPages, Status, Student, StudentSubmission, StudentsContainer,
};
use classroom_grades::sorting::stable_sort;
use classroom_grades::submissions::SubmissionTable;
use classroom_grades::text::{push_decimal, str_le};
use std::path::PathBuf;

fn student(id: &str, given: &str, family: &str) -> Student {
    Student {
        user_id: id.to_string(),
        profile: Profile {
            name: Name { given_name: given.to_string(), family_name: family.to_string() },
        },
    }
}

fn assignment(id: &str, title: &str) -> Assignment {
    Assignment { id: id.to_string(), title: title.to_string() }
}

fn submission(student_id: &str, assignment_id: &str, grade: Option<i8>) -> StudentSubmission {
    StudentSubmission {
        assignment_id: assignment_id.to_string(),
        student_id: student_id.to_string(),
        assigned_grade: grade,
    }
}

fn course(id: &str, name: &str, state: Status) -> Course {
    Course { id: id.to_string(), name: name.to_string(), course_state: state }
}

fn decimal_of(n: i8) -> String {
    let mut s = String::new();
    push_decimal(&mut s, n);
    s
}

#[test]
fn decimal_renders_like_display() {
    for n in i8::MIN..=i8::MAX {
        assert_eq!(decimal_of(n), n.to_string());
    }
    assert_eq!(decimal_of(-128), "-128");
    assert_eq!(decimal_of(0), "0");
    assert_eq!(decimal_of(-1), "-1");
    assert_eq!(decimal_of(100), "100");
}

#[test]
fn str_le_follows_str_order() {
    let words = ["", "a", "ab", "b", "Zeta", "zeta", "Ñandú", "Nandu", "álvarez", "alvarez", "b\u{10000}", "b\u{ffff}"];
    for a in words.iter() {
        for b in words.iter() {
            assert_eq!(str_le(a, b), a <= b, "{:?} {:?}", a, b);
        }
    }
}

#[test]
fn file_name_and_path() {
    assert_eq!(csv_file_name("Algebra 1"), "Algebra 1.csv");
    assert_eq!(filename_path("Algebra 1"), PathBuf::from("scores").join("Algebra 1.csv"));
}

#[test]
fn header_names_assignments() {
    assert_eq!(header_text(&["Tarea 1", "Tarea 2"]), "ALUMNO,Tarea 1,Tarea 2\n");
    assert_eq!(header_text(&[]), "ALUMNO\n");
}

#[test]
fn line_record_ends_line() {
    assert_eq!(line_record("Perez Ana,10"), "Perez Ana,10\n");
    assert_eq!(line_record(""), "\n");
}

#[test]
fn urls_of_endpoints() {
    assert_eq!(
        course_work_url("42"),
        "https://classroom.googleapis.com/v1/courses/42/courseWork"
    );
    assert_eq!(
        student_submissions_url("42", "7"),
        "https://classroom.googleapis.com/v1/courses/42/courseWork/7/studentSubmissions"
    );
    assert_eq!(students_url("42"), "https://classroom.googleapis.com/v1/courses/42/students");
}

#[test]
fn only_active_courses_remain_in_order() {
    let courses = vec![
        course("1", "A", Status::ACTIVE),
        course("2", "B", Status::ARCHIVED),
        course("3", "C", Status::ACTIVE),
        course("4", "D", Status::PUBLISHED),
    ];
    let kept: Vec<String> = active_only(courses).into_iter().map(|c| c.id).collect();
    assert_eq!(kept, vec!["1".to_string(), "3".to_string()]);
    assert!(active_only(Vec::new()).is_empty());
}

#[test]
fn roster_pages_are_gathered_in_order() {
    let mut pages = RosterPages::new();
    assert!(!pages.finished());
    assert!(pages.next_query().is_empty());
    pages.receive_page(StudentsContainer {
        students: vec![student("1", "Ana", "Perez"), student("2", "Luis", "Diaz")],
        next_page: Some("tok".to_string()),
    });
    assert!(!pages.finished());
    assert_eq!(pages.next_query(), vec![("pageToken".to_string(), "tok".to_string())]);
    pages.receive_page(StudentsContainer { students: vec![student("3", "Eva", "Ruiz")], next_page: None });
    assert!(pages.finished());
    let ids: Vec<String> = pages.into_students().into_iter().map(|s| s.user_id).collect();
    assert_eq!(ids, vec!["1".to_string(), "2".to_string(), "3".to_string()]);
}

#[test]
fn sort_is_stable_by_family_name() {
    let mut students = vec![
        student("1", "Ana", "Perez"),
        student("2", "Luis", "Diaz"),
        student("3", "Eva", "Perez"),
        student("4", "Juan", "Alba"),
        student("5", "Sol", "Diaz"),
    ];
    stable_sort(&mut students);
    let ids: Vec<&str> = students.iter().map(|s| s.user_id.as_str()).collect();
    assert_eq!(ids, vec!["4", "2", "5", "1", "3"]);
}

#[test]
fn sort_matches_std_sort_by() {
    let titles = ["b", "a", "B", "a", "", "ab", "b", "é", "e", "a"];
    let mut ours: Vec<Assignment> =
        titles.iter().enumerate().map(|(i, t)| assignment(&i.to_string(), t)).collect();
    let mut theirs: Vec<Assignment> =
        titles.iter().enumerate().map(|(i, t)| assignment(&i.to_string(), t)).collect();
    stable_sort(&mut ours);
    theirs.sort_by(|a, b| a.title.cmp(&b.title));
    let a: Vec<&str> = ours.iter().map(|x| x.id.as_str()).collect();
    let b: Vec<&str> = theirs.iter().map(|x| x.id.as_str()).collect();
    assert_eq!(a, b);
}

#[test]
fn sorting_twice_changes_nothing() {
    let mut once = vec![assignment("1", "b"), assignment("2", "a"), assignment("3", "b")];
    stable_sort(&mut once);
    let first: Vec<String> = once.iter().map(|a| a.id.clone()).collect();
    stable_sort(&mut once);
    let second: Vec<String> = once.iter().map(|a| a.id.clone()).collect();
    assert_eq!(first, second);
}

#[test]
fn table_reads_back_the_latest_grade() {
    let mut table = SubmissionTable::new();
    assert_eq!(table.len(), 0);
    table.insert("s1".to_string(), "a1".to_string(), 7);
    table.insert("s1".to_string(), "a2".to_string(), 9);
    table.insert("s1".to_string(), "a1".to_string(), 10);
    assert_eq!(table.len(), 2);
    assert_eq!(table.get(&"s1".to_string(), &"a1".to_string()), Some(10));
    assert_eq!(table.get(&"s1".to_string(), &"a2".to_string()), Some(9));
    assert_eq!(table.get(&"s2".to_string(), &"a1".to_string()), None);
}

#[test]
fn recording_submissions_without_grade_gives_minus_one() {
    let mut table = SubmissionTable::new();
    table.record_all(&vec![
        submission("s1", "a1", Some(5)),
        submission("s2", "a1", None),
        submission("s1", "a1", Some(8)),
    ]);
    assert_eq!(table.len(), 2);
    assert_eq!(table.get(&"s1".to_string(), &"a1".to_string()), Some(8));
    assert_eq!(table.get(&"s2".to_string(), &"a1".to_string()), Some(-1));
}

fn sample_admin() -> CourseAdmin {
    let mut admin = CourseAdmin::new(course("c1", "Historia", Status::ACTIVE));
    admin.students = vec![student("s1", "Ana", "Perez"), student("s2", "Luis", "Diaz")];
    admin.assignments = vec![assignment("a2", "Tarea 2"), assignment("a1", "Tarea 1")];
    admin
}

#[test]
fn new_course_admin_is_empty() {
    let admin = CourseAdmin::new(course("c1", "Historia", Status::ACTIVE));
    assert_eq!(admin.course.name, "Historia");
    assert!(admin.students.is_empty());
    assert!(admin.assignments.is_empty());
    assert_eq!(admin.submissions.len(), 0);
}

#[test]
fn rows_hold_scores_in_assignment_order() {
    let mut admin = sample_admin();
    admin.submissions.record_all(&vec![
        submission("s1", "a1", Some(10)),
        submission("s1", "a2", None),
        submission("s2", "a2", Some(-128)),
    ]);
    assert_eq!(admin.student_row(0), "Perez Ana,-1,10");
    assert_eq!(admin.student_row(1), "Diaz Luis,-128,0");
    assert_eq!(admin.score(&"s2".to_string(), &"a1".to_string()), 0);
    assert_eq!(admin.assignment_titles(), vec!["Tarea 2".to_string(), "Tarea 1".to_string()]);
}

#[test]
fn rows_line_up_with_header() {
    let mut admin = sample_admin();
    admin.submissions.record_all(&vec![submission("s1", "a1", Some(3))]);
    let titles = admin.assignment_titles();
    let refs: Vec<&str> = titles.iter().map(|t| t.as_str()).collect();
    let header = header_text(&refs);
    let commas = header.matches(',').count();
    for i in 0..admin.students.len() {
        assert_eq!(admin.student_row(i).matches(',').count(), commas);
    }
}

#[test]
fn sort_data_orders_students_and_assignments() {
    let mut admin = sample_admin();
    admin.sort_data();
    assert_eq!(admin.students[0].user_id, "s2");
    assert_eq!(admin.assignments[0].id, "a1");
}

fn step(admin: &mut CourseAdmin, phase: ExportPhase, event: ExportEvent) -> (ExportPhase, ExportAction) {
    assert!(admin.can_advance(&phase, &event));
    admin.advance_export(phase, event)
}

#[test]
fn export_runs_roster_assignments_submissions_then_file() {
    let mut admin = CourseAdmin::new(course("c1", "Historia", Status::ACTIVE));
    let (phase, action) = step(&mut admin, ExportPhase::Ready, ExportEvent::Start);
    assert!(matches!(action, ExportAction::FetchStudents));
    let (phase, action) = step(
        &mut admin,
        phase,
        ExportEvent::Students(Some(vec![student("s1", "Ana", "Perez"), student("s2", "Luis", "Diaz")])),
    );
    assert!(matches!(action, ExportAction::FetchAssignments));
    let (phase, action) = step(
        &mut admin,
        phase,
        ExportEvent::Assignments(Some(vec![assignment("a2", "Tarea 2"), assignment("a1", "Tarea 1")])),
    );
    match &action {
        ExportAction::FetchSubmissions { assignment_id } => assert_eq!(assignment_id, "a1"),
        _ => panic!("expected a fetch of submissions"),
    }
    let (phase, action) = step(&mut admin, phase, ExportEvent::Submissions(Some(vec![submission("s1", "a1", Some(9))])));
    match &action {
        ExportAction::FetchSubmissions { assignment_id } => assert_eq!(assignment_id, "a2"),
        _ => panic!("expected a fetch of submissions"),
    }
    let (phase, action) = step(&mut admin, phase, ExportEvent::Submissions(Some(vec![submission("s2", "a2", None)])));
    match &action {
        ExportAction::CreateFile { assignment_titles } => {
            assert_eq!(assignment_titles, &vec!["Tarea 1".to_string(), "Tarea 2".to_string()])
        },
        _ => panic!("expected the grade file"),
    }
    let (phase, action) = step(&mut admin, phase, ExportEvent::Written(true));
    match &action {
        ExportAction::AppendLine { line } => assert_eq!(line, "Diaz Luis,0,-1"),
        _ => panic!("expected a line"),
    }
    let (phase, action) = step(&mut admin, phase, ExportEvent::Written(true));
    match &action {
        ExportAction::AppendLine { line } => assert_eq!(line, "Perez Ana,9,0"),
        _ => panic!("expected a line"),
    }
    let (phase, action) = step(&mut admin, phase, ExportEvent::Written(true));
    assert!(matches!(action, ExportAction::Finish { outcome: Ok(()) }));
    assert!(matches!(phase, ExportPhase::Finished));
    assert!(!admin.can_advance(&phase, &ExportEvent::Written(true)));
}

#[test]
fn export_without_roster_writes_unsorted_header_only() {
    let mut admin = CourseAdmin::new(course("c1", "Historia", Status::ACTIVE));
    let (phase, _) = step(&mut admin, ExportPhase::Ready, ExportEvent::Start);
    let (phase, _) = step(&mut admin, phase, ExportEvent::Students(None));
    let (phase, action) = step(
        &mut admin,
        phase,
        ExportEvent::Assignments(Some(vec![assignment("a2", "Tarea 2"), assignment("a1", "Tarea 1")])),
    );
    match &action {
        ExportAction::CreateFile { assignment_titles } => {
            assert_eq!(assignment_titles, &vec!["Tarea 2".to_string(), "Tarea 1".to_string()])
        },
        _ => panic!("expected the grade file"),
    }
    let (_, action) = step(&mut admin, phase, ExportEvent::Written(true));
    assert!(matches!(action, ExportAction::Finish { outcome: Ok(()) }));
}

#[test]
fn export_without_assignments_writes_names_unsorted() {
    let mut admin = CourseAdmin::new(course("c1", "Historia", Status::ACTIVE));
    let (phase, _) = step(&mut admin, ExportPhase::Ready, ExportEvent::Start);
    let (phase, _) = step(
        &mut admin,
        phase,
        ExportEvent::Students(Some(vec![student("s1", "Ana", "Perez"), student("s2", "Luis", "Diaz")])),
    );
    let (phase, action) = step(&mut admin, phase, ExportEvent::Assignments(None));
    match &action {
        ExportAction::CreateFile { assignment_titles } => assert!(assignment_titles.is_empty()),
        _ => panic!("expected the grade file"),
    }
    let (_, action) = step(&mut admin, phase, ExportEvent::Written(true));
    match &action {
        ExportAction::AppendLine { line } => assert_eq!(line, "Perez Ana"),
        _ => panic!("expected a line"),
    }
}

#[test]
fn export_with_no_assignment_skips_submissions() {
    let mut admin = CourseAdmin::new(course("c1", "Historia", Status::ACTIVE));
    let (phase, _) = step(&mut admin, ExportPhase::Ready, ExportEvent::Start);
    let (phase, _) = step(&mut admin, phase, ExportEvent::Students(Some(vec![student("s1", "Ana", "Perez")])));
    let (_, action) = step(&mut admin, phase, ExportEvent::Assignments(Some(Vec::new())));
    assert!(matches!(action, ExportAction::CreateFile { .. }));
}

#[test]
fn export_fails_when_submissions_fail() {
    let mut admin = CourseAdmin::new(course("c1", "Historia", Status::ACTIVE));
    let (phase, _) = step(&mut admin, ExportPhase::Ready, ExportEvent::Start);
    let (phase, _) = step(&mut admin, phase, ExportEvent::Students(Some(vec![student("s1", "Ana", "Perez")])));
    let (phase, _) = step(&mut admin, phase, ExportEvent::Assignments(Some(vec![assignment("a1", "T")])));
    let (phase, action) = step(&mut admin, phase, ExportEvent::Submissions(None));
    assert!(matches!(
        action,
        ExportAction::Finish { outcome: Err(ExportFailure::SubmissionsUnavailable) }
    ));
    assert!(matches!(phase, ExportPhase::Finished));
}

#[test]
fn export_fails_when_a_write_fails() {
    let mut admin = CourseAdmin::new(course("c1", "Historia", Status::ACTIVE));
    let (phase, _) = step(&mut admin, ExportPhase::Ready, ExportEvent::Start);
    let (phase, _) = step(&mut admin, phase, ExportEvent::Students(None));
    let (phase, _) = step(&mut admin, phase, ExportEvent::Assignments(None));
    let (_, action) = step(&mut admin, phase, ExportEvent::Written(false));
    assert!(matches!(action, ExportAction::Finish { outcome: Err(ExportFailure::WriteFailed) }));
}

#[test]
fn events_out_of_turn_are_refused() {
    let admin = CourseAdmin::new(course("c1", "Historia", Status::ACTIVE));
    assert!(!admin.can_advance(&ExportPhase::Ready, &ExportEvent::Written(true)));
    assert!(!admin.can_advance(&ExportPhase::AwaitingLine { index: 0 }, &ExportEvent::Written(true)));
    assert!(!admin.can_advance(&ExportPhase::AwaitingSubmissions { index: 0 }, &ExportEvent::Submissions(None)));
}

#[test]
fn paths_of_different_courses_differ_in_the_same_directory() {
    let a = filename_path("Historia");
    let b = filename_path("Geografía");
    assert_ne!(a, b);
    assert_eq!(a.file_name().unwrap(), "Historia.csv");
    assert_eq!(b.file_name().unwrap(), "Geografía.csv");
    assert_eq!(a.parent().unwrap(), std::path::Path::new("scores"));
    assert_eq!(a.parent(), b.parent());
}

#[test]
fn header_splits_back_into_names() {
    let header = header_text(&["Tarea 1", "Examen", ""]);
    let line = header.strip_suffix('\n').unwrap();
    assert!(!line.contains('\n'));
    let fields: Vec<&str> = line.split(',').collect();
    assert_eq!(fields, vec!["ALUMNO", "Tarea 1", "Examen", ""]);
}

#[test]
fn row_splits_into_name_and_scores() {
    let mut admin = sample_admin();
    admin.submissions.record_all(&vec![submission("s2", "a1", Some(7))]);
    let row = admin.student_row(1);
    let fields: Vec<&str> = row.split(',').collect();
    assert_eq!(fields, vec!["Diaz Luis", "0", "7"]);
}

fn full_export(admin: &mut CourseAdmin) -> Vec<String> {
    let mut written = Vec::new();
    let mut phase = ExportPhase::Ready;
    let mut event = ExportEvent::Start;
    loop {
        let (next, action) = step(admin, phase, event);
        phase = next;
        event = match action {
            ExportAction::FetchStudents => ExportEvent::Students(Some(vec![
                student("s1", "Ana", "Perez"),
                student("s2", "Luis", "Diaz"),
            ])),
            ExportAction::FetchAssignments => ExportEvent::Assignments(Some(vec![
                assignment("a2", "Tarea 2"),
                assignment("a1", "Tarea 1"),
            ])),
            ExportAction::FetchSubmissions { assignment_id } => {
                ExportEvent::Submissions(Some(vec![submission("s1", &assignment_id, Some(4))]))
            }
            ExportAction::CreateFile { assignment_titles } => {
                let refs: Vec<&str> = assignment_titles.iter().map(|t| t.as_str()).collect();
                written.clear();
                written.push(header_text(&refs));
                ExportEvent::Written(true)
            }
            ExportAction::AppendLine { line } => {
                written.push(line_record(&line));
                ExportEvent::Written(true)
            }
            ExportAction::Finish { outcome } => {
                assert!(outcome.is_ok());
                return written;
            }
        };
    }
}

#[test]
fn exporting_twice_writes_the_same_file() {
    let mut admin = CourseAdmin::new(course("c1", "Historia", Status::ACTIVE));
    let first = full_export(&mut admin);
    let second = full_export(&mut admin);
    assert_eq!(first, second);
    assert_eq!(
        first.concat(),
        "ALUMNO,Tarea 1,Tarea 2\nDiaz Luis,0,0\nPerez Ana,4,4\n"
    );
}

//! The export of a course's grades as a sequence of steps. Each step takes
//! what the last outside operation gave (an API answer, the outcome of a
//! write) and says which operation comes next; the caller performs it.
//!
//! The order is: fetch the roster, fetch the assignments; where both came,
//! sort them and fetch each assignment's submissions in turn; then create
//! the grade file with its header and append one line per student.

use vstd::prelude::*;
use crate::course_admin::{row_spec, titles_of, CourseAdmin};
use crate::fetcher::{Assignment, Student, StudentSubmission};
use crate::sorting::is_stable_sort_of;
use crate::submissions::recorded;

verus! {

/// Where an export stands.
#[derive(Clone, Copy, Debug)]
pub enum ExportPhase {
    /// Nothing done yet.
    Ready,
    /// The roster was asked for.
    AwaitingStudents,
    /// The assignments were asked for; whether the roster came.
    AwaitingAssignments { students_loaded: bool },
    /// The submissions to the assignment at `index` were asked for.
    AwaitingSubmissions { index: usize },
    /// The grade file was asked to be created with its header.
    AwaitingHeader,
    /// The line of the student at `index` was asked to be appended.
    AwaitingLine { index: usize },
    /// The export has ended.
    Finished,
}

/// What the last outside operation gave. `None` stands for a request that
/// failed.
pub enum ExportEvent {
    Start,
    Students(Option<Vec<Student>>),
    Assignments(Option<Vec<Assignment>>),
    Submissions(Option<Vec<StudentSubmission>>),
    Written(bool),
}

/// Why an export failed.
#[derive(Clone, Copy, Debug)]
pub enum ExportFailure {
    /// The submissions to an assignment could not be fetched.
    SubmissionsUnavailable,
    /// The grade file could not be written.
    WriteFailed,
}

/// The outside operation to perform next.
pub enum ExportAction {
    /// Fetch the course's roster.
    FetchStudents,
    /// Fetch the course's assignments.
    FetchAssignments,
    /// Fetch the submissions to an assignment.
    FetchSubmissions { assignment_id: String },
    /// Create the grade file, its header naming these assignments.
    CreateFile { assignment_titles: Vec<String> },
    /// Append this line to the grade file.
    AppendLine { line: String },
    /// Stop, with this outcome.
    Finish { outcome: Result<(), ExportFailure> },
}

/// The events that a phase waits for.
pub open spec fn accepts(phase: ExportPhase, event: ExportEvent) -> bool {
    match phase {
        ExportPhase::Ready => event is Start,
        ExportPhase::AwaitingStudents => event is Students,
        ExportPhase::AwaitingAssignments { .. } => event is Assignments,
        ExportPhase::AwaitingSubmissions { .. } => event is Submissions,
        ExportPhase::AwaitingHeader => event is Written,
        ExportPhase::AwaitingLine { .. } => event is Written,
        ExportPhase::Finished => false,
    }
}

/// The indices that a phase holds point into the course's data.
pub open spec fn phase_fits(admin: CourseAdmin, phase: ExportPhase) -> bool {
    match phase {
        ExportPhase::AwaitingSubmissions { index } => index < admin.assignments@.len(),
        ExportPhase::AwaitingLine { index } => index < admin.students@.len(),
        _ => true,
    }
}

/// The action fetches the submissions to `a`.
pub open spec fn fetches_submissions_of(action: ExportAction, a: Assignment) -> bool {
    action matches ExportAction::FetchSubmissions { assignment_id } && assignment_id@ == a.id@
}

/// The action creates the grade file with a header for these assignments.
pub open spec fn creates_file_for(action: ExportAction, assignments: Seq<Assignment>) -> bool {
    action matches ExportAction::CreateFile { assignment_titles } && assignment_titles@.map_values(
        |t: String| t@,
    ) == titles_of(assignments)
}

/// The action appends the line of the `i`-th student of `admin`.
pub open spec fn appends_row(action: ExportAction, admin: CourseAdmin, i: int) -> bool {
    action matches ExportAction::AppendLine { line } && line@ == row_spec(
        admin.submissions@,
        admin.students@[i],
        admin.assignments@,
    )
}

/// The action ends the export with this outcome.
pub open spec fn finishes_with(action: ExportAction, outcome: Result<(), ExportFailure>) -> bool {
    action matches ExportAction::Finish { outcome: o } && o == outcome
}

/// What follows the loading of the data: the submissions to the first
/// assignment where they are to be fetched and there is one, the grade file
/// otherwise.
pub open spec fn after_loading(
    admin: CourseAdmin,
    with_submissions: bool,
    next: ExportPhase,
    action: ExportAction,
) -> bool {
    if with_submissions && admin.assignments@.len() > 0 {
        next == (ExportPhase::AwaitingSubmissions { index: 0 }) && fetches_submissions_of(
            action,
            admin.assignments@[0],
        )
    } else {
        next == ExportPhase::AwaitingHeader && creates_file_for(action, admin.assignments@)
    }
}

/// What follows a successful write: the line of the student at `index`
/// where there is one, the end of the export otherwise.
pub open spec fn after_write(admin: CourseAdmin, index: int, next: ExportPhase, action: ExportAction) -> bool {
    if index < admin.students@.len() {
        next == (ExportPhase::AwaitingLine { index: index as usize }) && appends_row(action, admin, index)
    } else {
        next == ExportPhase::Finished && finishes_with(action, Ok(()))
    }
}

/// One step of an export: from the course `before` in `phase` and the
/// event, to the course `after`, the next phase and the action.
pub open spec fn export_step(
    before: CourseAdmin,
    phase: ExportPhase,
    event: ExportEvent,
    after: CourseAdmin,
    next: ExportPhase,
    action: ExportAction,
) -> bool {
    match phase {
        ExportPhase::Ready => {
            &&& after == before
            &&& next == ExportPhase::AwaitingStudents
            &&& action is FetchStudents
        },
        ExportPhase::AwaitingStudents => {
            &&& after.course == before.course
            &&& after.assignments == before.assignments
            &&& after.submissions == before.submissions
            &&& match event {
                ExportEvent::Students(Some(v)) => after.students == v,
                _ => after.students == before.students,
            }
            &&& next == (ExportPhase::AwaitingAssignments {
                students_loaded: event matches ExportEvent::Students(Some(_)),
            })
            &&& action is FetchAssignments
        },
        ExportPhase::AwaitingAssignments { students_loaded } => {
            &&& after.course == before.course
            &&& after.submissions == before.submissions
            &&& match event {
                ExportEvent::Assignments(Some(v)) => {
                    if students_loaded {
                        &&& is_stable_sort_of(after.students@, before.students@)
                        &&& is_stable_sort_of(after.assignments@, v@)
                    } else {
                        &&& after.students == before.students
                        &&& after.assignments == v
                    }
                },
                _ => {
                    &&& after.students == before.students
                    &&& after.assignments == before.assignments
                },
            }
            &&& after_loading(
                after,
                students_loaded && event matches ExportEvent::Assignments(Some(_)),
                next,
                action,
            )
        },
        ExportPhase::AwaitingSubmissions { index } => {
            &&& after.course == before.course
            &&& after.students == before.students
            &&& after.assignments == before.assignments
            &&& match event {
                ExportEvent::Submissions(Some(subs)) => {
                    &&& after.submissions@ == recorded(before.submissions@, subs@)
                    &&& if index + 1 < before.assignments@.len() {
                        &&& next == (ExportPhase::AwaitingSubmissions { index: (index + 1) as usize })
                        &&& fetches_submissions_of(action, before.assignments@[index + 1])
                    } else {
                        &&& next == ExportPhase::AwaitingHeader
                        &&& creates_file_for(action, before.assignments@)
                    }
                },
                _ => {
                    &&& after.submissions == before.submissions
                    &&& next == ExportPhase::Finished
                    &&& finishes_with(action, Err(ExportFailure::SubmissionsUnavailable))
                },
            }
        },
        ExportPhase::AwaitingHeader => {
            &&& after == before
            &&& if event matches ExportEvent::Written(true) {
                after_write(before, 0, next, action)
            } else {
                next == ExportPhase::Finished && finishes_with(action, Err(ExportFailure::WriteFailed))
            }
        },
        ExportPhase::AwaitingLine { index } => {
            &&& after == before
            &&& if event matches ExportEvent::Written(true) {
                after_write(before, index + 1, next, action)
            } else {
                next == ExportPhase::Finished && finishes_with(action, Err(ExportFailure::WriteFailed))
            }
        },
        ExportPhase::Finished => false,
    }
}

impl CourseAdmin {
    /// Whether `event` is one that `phase` waits for, with the indices of
    /// `phase` inside the course's data.
    pub fn can_advance(&self, phase: &ExportPhase, event: &ExportEvent) -> (r: bool)
        ensures
            r == (accepts(*phase, *event) && phase_fits(*self, *phase)),
    {
        match phase {
            ExportPhase::Ready => matches!(event, ExportEvent::Start),
            ExportPhase::AwaitingStudents => matches!(event, ExportEvent::Students(_)),
            ExportPhase::AwaitingAssignments { .. } => matches!(event, ExportEvent::Assignments(_)),
            ExportPhase::AwaitingSubmissions { index } => matches!(event, ExportEvent::Submissions(_))
                && *index < self.assignments.len(),
            ExportPhase::AwaitingHeader => matches!(event, ExportEvent::Written(_)),
            ExportPhase::AwaitingLine { index } => matches!(event, ExportEvent::Written(_))
                && *index < self.students.len(),
            ExportPhase::Finished => false,
        }
    }

    fn first_step_after_loading(&self, with_submissions: bool) -> (r: (ExportPhase, ExportAction))
        ensures
            after_loading(*self, with_submissions, r.0, r.1),
    {
        if with_submissions && self.assignments.len() > 0 {
            (
                ExportPhase::AwaitingSubmissions { index: 0 },
                ExportAction::FetchSubmissions { assignment_id: self.assignments[0].id.clone() },
            )
        } else {
            (
                ExportPhase::AwaitingHeader,
                ExportAction::CreateFile { assignment_titles: self.assignment_titles() },
            )
        }
    }

    fn step_after_write(&self, index: usize) -> (r: (ExportPhase, ExportAction))
        ensures
            after_write(*self, index as int, r.0, r.1),
    {
        if index < self.students.len() {
            (ExportPhase::AwaitingLine { index }, ExportAction::AppendLine { line: self.student_row(index) })
        } else {
            (ExportPhase::Finished, ExportAction::Finish { outcome: Ok(()) })
        }
    }

    /// Takes one step of the export of this course's grades.
    pub fn advance_export(&mut self, phase: ExportPhase, event: ExportEvent) -> (r: (ExportPhase, ExportAction))
        requires
            accepts(phase, event),
            phase_fits(*old(self), phase),
        ensures
            export_step(*old(self), phase, event, *final(self), r.0, r.1),
            phase_fits(*final(self), r.0),
    {
        match phase {
            ExportPhase::Ready => (ExportPhase::AwaitingStudents, ExportAction::FetchStudents),
            ExportPhase::AwaitingStudents => {
                let loaded = match event {
                    ExportEvent::Students(Some(v)) => {
                        self.students = v;
                        true
                    },
                    _ => false,
                };
                (ExportPhase::AwaitingAssignments { students_loaded: loaded }, ExportAction::FetchAssignments)
            },
            ExportPhase::AwaitingAssignments { students_loaded } => {
                let loaded = match event {
                    ExportEvent::Assignments(Some(v)) => {
                        self.assignments = v;
                        true
                    },
                    _ => false,
                };
                if students_loaded && loaded {
                    self.sort_data();
                }
                self.first_step_after_loading(students_loaded && loaded)
            },
            ExportPhase::AwaitingSubmissions { index } => {
                let count = self.assignments.len();
                assert(index < count);
                match event {
                    ExportEvent::Submissions(Some(subs)) => {
                        self.submissions.record_all(&subs);
                        if index + 1 < self.assignments.len() {
                            (
                                ExportPhase::AwaitingSubmissions { index: index + 1 },
                                ExportAction::FetchSubmissions {
                                    assignment_id: self.assignments[index + 1].id.clone(),
                                },
                            )
                        } else {
                            (
                                ExportPhase::AwaitingHeader,
                                ExportAction::CreateFile { assignment_titles: self.assignment_titles() },
                            )
                        }
                    },
                    _ => (
                        ExportPhase::Finished,
                        ExportAction::Finish { outcome: Err(ExportFailure::SubmissionsUnavailable) },
                    ),
                }
            },
            ExportPhase::AwaitingHeader => {
                match event {
                    ExportEvent::Written(true) => self.step_after_write(0),
                    _ => (ExportPhase::Finished, ExportAction::Finish { outcome: Err(ExportFailure::WriteFailed) }),
                }
            },
            ExportPhase::AwaitingLine { index } => {
                let count = self.students.len();
                assert(index < count);
                match event {
                    ExportEvent::Written(true) => self.step_after_write(index + 1),
                    _ => (ExportPhase::Finished, ExportAction::Finish { outcome: Err(ExportFailure::WriteFailed) }),
                }
            },
            ExportPhase::Finished => (ExportPhase::Finished, ExportAction::Finish { outcome: Ok(()) }),
        }
    }
}

} // verus!

//! Reading the assignments out of the remote service's answers.
use vstd::prelude::*;
use crate::types::assignment::{Assignment, AssignmentView};
use crate::types::error::Error;
use crate::types::order::{sort_by_rank, stable_sort, SortOrder};
use crate::types::timestamp::{parse_rfc3339, rfc3339_reading, Timestamp};

verus! {

/// How far ahead, in seconds, an assignment may be due to be taken in:
/// twenty-one days.
pub const WINDOW_SECS: i64 = 1_814_400;

/// One assignment as the remote service reports it. Any particular may
/// be missing. `submissions` is the number of submissions the user has
/// made.
#[derive(Debug)]
pub struct RemoteAssignment {
    pub name: Option<String>,
    pub description: Option<String>,
    pub html_url: Option<String>,
    pub due_at: Option<String>,
    pub submissions: Option<usize>,
    pub locked: Option<bool>,
}

/// The mathematical value of a `RemoteAssignment`.
pub struct RemoteAssignmentView {
    pub name: Option<Seq<char>>,
    pub description: Option<Seq<char>>,
    pub html_url: Option<Seq<char>>,
    pub due_at: Option<Seq<char>>,
    pub submissions: Option<usize>,
    pub locked: Option<bool>,
}

impl View for RemoteAssignment {
    type V = RemoteAssignmentView;

    open spec fn view(&self) -> RemoteAssignmentView {
        RemoteAssignmentView {
            name: self.name.deep_view(),
            description: self.description.deep_view(),
            html_url: self.html_url.deep_view(),
            due_at: self.due_at.deep_view(),
            submissions: self.submissions,
            locked: self.locked,
        }
    }
}

impl DeepView for RemoteAssignment {
    type V = RemoteAssignmentView;

    open spec fn deep_view(&self) -> RemoteAssignmentView {
        self@
    }
}

/// One course as the remote service reports it, with its assignments.
#[derive(Debug)]
pub struct RemoteCourse {
    pub name: String,
    pub course_nickname: Option<String>,
    pub assignments: Vec<RemoteAssignment>,
}

/// The mathematical value of a `RemoteCourse`.
pub struct RemoteCourseView {
    pub name: Seq<char>,
    pub course_nickname: Option<Seq<char>>,
    pub assignments: Seq<RemoteAssignmentView>,
}

impl View for RemoteCourse {
    type V = RemoteCourseView;

    open spec fn view(&self) -> RemoteCourseView {
        RemoteCourseView {
            name: self.name@,
            course_nickname: self.course_nickname.deep_view(),
            assignments: self.assignments.deep_view(),
        }
    }
}

impl DeepView for RemoteCourse {
    type V = RemoteCourseView;

    open spec fn deep_view(&self) -> RemoteCourseView {
        self@
    }
}

/// Whether `due` lies after `now` and less than twenty-one days ahead.
pub open spec fn upcoming(due: Timestamp, now: Timestamp) -> bool {
    &&& now.before(due)
    &&& (due.secs < now.secs + WINDOW_SECS || (due.secs == now.secs + WINDOW_SECS && due.nanos
        < now.nanos))
}

/// The due date a reported assignment is taken in with: what its text
/// reads as, if that is upcoming.
pub open spec fn accepted_date(due_at: Option<Seq<char>>, now: Timestamp) -> Option<Timestamp> {
    match due_at {
        Some(text) => match rfc3339_reading(text) {
            Some(reading) => {
                let due = Timestamp { secs: reading.0, nanos: reading.1, offset: reading.2 };
                if upcoming(due, now) {
                    Some(due)
                } else {
                    None
                }
            },
            None => None,
        },
        None => None,
    }
}

/// The assignment a reported one is taken in as, for a course with the
/// given name and nickname: `None` where a name, an address, the
/// submissions or the lock is missing, or the due date is missing, cannot
/// be read or is not upcoming. It is completed if anything was submitted.
pub open spec fn parsed(
    record: RemoteAssignmentView,
    course: Seq<char>,
    nickname: Option<Seq<char>>,
    now: Timestamp,
) -> Option<AssignmentView> {
    if record.name is Some && record.html_url is Some && record.submissions is Some && record.locked is Some
        && accepted_date(record.due_at, now) is Some {
        Some(
            AssignmentView::remote(
                record.name->0,
                nickname,
                record.description,
                record.html_url->0,
                accepted_date(record.due_at, now),
                course,
                record.submissions->0 != 0,
                record.locked->0,
            ),
        )
    } else {
        None
    }
}

/// The assignments taken in from the reported ones of one course, in the
/// order they were reported.
pub open spec fn parsed_records(
    records: Seq<RemoteAssignmentView>,
    course: Seq<char>,
    nickname: Option<Seq<char>>,
    now: Timestamp,
) -> Seq<AssignmentView>
    decreases records.len(),
{
    if records.len() == 0 {
        Seq::empty()
    } else {
        let front = parsed_records(records.drop_last(), course, nickname, now);
        match parsed(records.last(), course, nickname, now) {
            Some(assignment) => front.push(assignment),
            None => front,
        }
    }
}

/// The assignments taken in from a run of answers, course after course.
/// An answer without a course contributes nothing.
pub open spec fn parsed_courses(responses: Seq<Option<RemoteCourseView>>, now: Timestamp) -> Seq<
    AssignmentView,
>
    decreases responses.len(),
{
    if responses.len() == 0 {
        Seq::empty()
    } else {
        let front = parsed_courses(responses.drop_last(), now);
        match responses.last() {
            Some(course) => front + parsed_records(
                course.assignments,
                course.name,
                course.course_nickname,
                now,
            ),
            None => front,
        }
    }
}

/// Whether `due` lies after `now` and less than twenty-one days ahead.
pub fn is_upcoming(due: &Timestamp, now: &Timestamp) -> (yes: bool)
    ensures
        yes == upcoming(*due, *now),
{
    let limit: i128 = now.secs as i128 + WINDOW_SECS as i128;
    let secs: i128 = due.secs as i128;
    now.is_before(due) && (secs < limit || (secs == limit && due.nanos < now.nanos))
}

/// Reads the due date of a reported assignment and accepts it if it is
/// upcoming.
pub fn accept_date(due_at: &Option<String>, now: &Timestamp) -> (date: Option<Timestamp>)
    ensures
        date == accepted_date(due_at.deep_view(), *now),
        date matches Some(due) ==> due.in_range(),
{
    match due_at {
        Some(text) => match parse_rfc3339(text.as_str()) {
            Ok(due) => if is_upcoming(&due, now) {
                Some(due)
            } else {
                None
            },
            Err(_) => None,
        },
        None => None,
    }
}

/// Takes one reported assignment in, or rejects it.
pub fn parse_assignment(
    record: RemoteAssignment,
    course: &String,
    nickname: &Option<String>,
    now: &Timestamp,
) -> (r: Option<Assignment>)
    ensures
        r.deep_view() == parsed(record@, course@, nickname.deep_view(), *now),
{
    let date = accept_date(&record.due_at, now);
    if date.is_none() {
        return None;
    }
    match (record.name, record.html_url, record.submissions, record.locked) {
        (Some(name), Some(html_url), Some(submissions), Some(locked)) => Some(
            Assignment::remote(
                name,
                nickname.clone(),
                record.description,
                html_url,
                date,
                course.clone(),
                submissions != 0,
                locked,
            ),
        ),
        _ => None,
    }
}

/// Takes the assignments of a run of answers in. A reported assignment
/// that lacks a particular, or whose due date cannot be read or is not
/// upcoming, is left out without disturbing the others. An answer
/// without a course fails the whole run.
pub fn parse_assignments(responses: Vec<Option<RemoteCourse>>, now: &Timestamp) -> (r: Result<
    Vec<Assignment>,
    Error,
>)
    ensures
        match r {
            Ok(assignments) => (forall|i: int| 0 <= i < responses.len() ==> responses[i] is Some)
                && assignments.deep_view() == parsed_courses(responses.deep_view(), *now),
            Err(e) => e == Error::MissingCourse && exists|i: int|
                0 <= i < responses.len() && responses[i] is None,
        },
{
    let ghost all = responses.deep_view();
    let mut assignments: Vec<Assignment> = Vec::new();
    proof {
        assert(all.take(0) =~= Seq::<Option<RemoteCourseView>>::empty());
        assert(assignments.deep_view() =~= parsed_courses(all.take(0), *now));
    }
    for response in it: responses.into_iter()
        invariant
            all.len() == it.seq().len(),
            responses@ == it.seq(),
            forall|i: int| 0 <= i < all.len() ==> all[i] == (#[trigger] it.seq()[i]).deep_view(),
            forall|i: int| 0 <= i < it.index() ==> (#[trigger] it.seq()[i]) is Some,
            assignments.deep_view() == parsed_courses(all.take(it.index() as int), *now),
    {
        let ghost done = it.index() as int;
        let ghost before = assignments.deep_view();
        proof {
            assert(all.take(done + 1).drop_last() =~= all.take(done));
            assert(all.take(done + 1).last() == response.deep_view());
        }
        match response {
            None => {
                assert(responses[done] is None);
                return Err(Error::MissingCourse);
            },
            Some(course) => {
                let RemoteCourse { name, course_nickname, assignments: records } = course;
                let ghost reported = records.deep_view();
                proof {
                    assert(reported.take(0) =~= Seq::<RemoteAssignmentView>::empty());
                    assert(assignments.deep_view() =~= before + parsed_records(
                        reported.take(0),
                        name@,
                        course_nickname.deep_view(),
                        *now,
                    ));
                }
                for record in inner: records.into_iter()
                    invariant
                        reported.len() == inner.seq().len(),
                        forall|i: int|
                            0 <= i < reported.len() ==> reported[i] == (#[trigger] inner.seq()[i])@,
                        assignments.deep_view() == before + parsed_records(
                            reported.take(inner.index() as int),
                            name@,
                            course_nickname.deep_view(),
                            *now,
                        ),
                {
                    let ghost k = inner.index() as int;
                    let ghost so_far = assignments.deep_view();
                    proof {
                        assert(reported.take(k + 1).drop_last() =~= reported.take(k));
                        assert(reported.take(k + 1).last() == record@);
                    }
                    match parse_assignment(record, &name, &course_nickname, now) {
                        Some(assignment) => {
                            assignments.push(assignment);
                            assert(assignments.deep_view() =~= so_far.push(assignment@));
                            assert(assignments.deep_view() =~= before + parsed_records(
                                reported.take(k + 1),
                                name@,
                                course_nickname.deep_view(),
                                *now,
                            ));
                        },
                        None => {},
                    }
                }
                proof {
                    assert(reported.take(reported.len() as int) =~= reported);
                }
            },
        }
    }
    proof {
        assert(all.take(all.len() as int) =~= all);
    }
    Ok(assignments)
}

/// Puts fetched assignments in the order they are due, undated ones
/// last. Assignments due at the same instant keep the order they had.
pub fn sort_assignments(assignments: &mut Vec<Assignment>)
    ensures
        final(assignments).deep_view() == stable_sort(old(assignments).deep_view(), SortOrder::Instant),
{
    sort_by_rank(assignments, SortOrder::Instant);
}

} // verus!

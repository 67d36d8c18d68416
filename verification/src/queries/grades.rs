//! Reading the grade out of the remote service's answers.
use vstd::prelude::*;
use crate::types::grade::{Grade, GradeView};

verus! {

/// The grade in a course, given the scores of the user's enrollments in
/// it: the first enrollment counts.
pub open spec fn grade_of(course: Seq<char>, scores: Seq<Option<u64>>, course_id: u32) -> Option<
    GradeView,
> {
    if scores.len() > 0 && scores[0] is Some {
        Some(GradeView { course, grade_bits: scores[0]->0, course_id })
    } else {
        None
    }
}

/// The grade in a course, from the scores of the user's enrollments in
/// it. There is none where the user is not enrolled or the first
/// enrollment has no score yet.
pub fn grade_from_enrollments(course: String, scores: &Vec<Option<u64>>, course_id: u32) -> (grade:
    Option<Grade>)
    ensures
        grade.deep_view() == grade_of(course@, scores@, course_id),
{
    if scores.len() == 0 {
        return None;
    }
    match scores[0] {
        Some(bits) => Some(Grade::new(course, None, bits, course_id)),
        None => None,
    }
}

} // verus!

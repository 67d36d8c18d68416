//! The current score in one course.
use vstd::prelude::*;

verus! {

/// A course and the score the remote service reports for it.
///
/// The score is kept as the bit pattern of the double-precision number the
/// service sent; the library stores and hands it on and never computes
/// with it.
#[derive(Debug)]
pub struct Grade {
    pub course: String,
    pub grade_bits: u64,
    pub course_id: u32,
}

/// The mathematical value of a `Grade`.
pub struct GradeView {
    pub course: Seq<char>,
    pub grade_bits: u64,
    pub course_id: u32,
}

impl View for Grade {
    type V = GradeView;

    open spec fn view(&self) -> GradeView {
        GradeView { course: self.course@, grade_bits: self.grade_bits, course_id: self.course_id }
    }
}

impl DeepView for Grade {
    type V = GradeView;

    open spec fn deep_view(&self) -> GradeView {
        self@
    }
}

impl Clone for Grade {
    fn clone(&self) -> (copy: Grade)
        ensures
            copy@ == self@,
    {
        Grade { course: self.course.clone(), grade_bits: self.grade_bits, course_id: self.course_id }
    }
}

impl PartialEq for Grade {
    fn eq(&self, other: &Grade) -> (same: bool) {
        self.course == other.course && self.grade_bits == other.grade_bits && self.course_id
            == other.course_id
    }
}

impl vstd::std_specs::cmp::PartialEqSpecImpl for Grade {
    open spec fn obeys_eq_spec() -> bool {
        true
    }

    open spec fn eq_spec(&self, other: &Grade) -> bool {
        self@ == other@
    }
}

impl Eq for Grade {

}

impl Grade {
    /// A grade for the course `course_id`. A nickname, where given,
    /// stands for the course's name.
    pub fn new(course: String, nickname: Option<String>, grade_bits: u64, course_id: u32) -> (grade:
        Grade)
        ensures
            grade@ == (GradeView {
                course: match nickname {
                    Some(short) => short@,
                    None => course@,
                },
                grade_bits,
                course_id,
            }),
    {
        let course = match nickname {
            Some(short) => short,
            None => course,
        };
        Grade { course, grade_bits, course_id }
    }
}

} // verus!

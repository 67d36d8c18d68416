//! What can go wrong inside the library.
use vstd::prelude::*;

verus! {

/// A rejected operation. None of these ends the session: the operation
/// simply did not happen.
#[derive(Clone, Copy, Debug, PartialEq, Eq, Structural)]
pub enum Error {
    /// A due date was given that is not an RFC 3339 date-time.
    InvalidDate,
    /// A fetched response carried no course.
    MissingCourse,
    /// The action is not available in the current mode.
    InvalidState,
}

impl Error {
    /// A sentence for the user.
    pub fn message(&self) -> (text: String)
        ensures
            text@ == match *self {
                Error::InvalidDate => "Due date is not an RFC 3339 date-time"@,
                Error::MissingCourse => "Assignment parsing failed"@,
                Error::InvalidState => "Cannot create new assignment while editing."@,
            },
    {
        match self {
            Error::InvalidDate => "Due date is not an RFC 3339 date-time".to_owned(),
            Error::MissingCourse => "Assignment parsing failed".to_owned(),
            Error::InvalidState => "Cannot create new assignment while editing.".to_owned(),
        }
    }
}

} // verus!

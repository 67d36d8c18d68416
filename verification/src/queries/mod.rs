//! Turning what the remote service answered into records of the library.
pub mod assignments;
pub mod grades;

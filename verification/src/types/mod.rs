//! Value types of the tracker and the dataset that owns them.
pub mod assignment;
pub mod data;
pub mod error;
pub mod grade;
pub mod link;
pub mod merge;
pub mod order;
pub mod timestamp;

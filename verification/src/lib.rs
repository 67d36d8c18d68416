//! Coursework tracker core: the assignment dataset, the rules that reconcile
//! it with freshly fetched records, and the interaction state machine that
//! edits it.
pub mod queries;
pub mod types;
pub mod ui;

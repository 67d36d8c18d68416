//! The interactive side: session state and key handling.
pub mod app;
pub mod input;

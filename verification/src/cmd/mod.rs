//! The decisions of the three commands that do not need the terminal.
pub mod analyze;

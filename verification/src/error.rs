//! The failure that outside work (a git process, the terminal) reports.
use vstd::prelude::*;

verus! {

/// A failure of work done outside the library, with its message.
#[derive(Debug, PartialEq, Eq)]
pub struct ToolError {
    pub message: String,
}

impl ToolError {
    pub fn new(message: String) -> (e: ToolError)
        ensures
            e.message == message,
    {
        ToolError { message }
    }
}

} // verus!

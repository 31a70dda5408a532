//! How a program ends.

use vstd::prelude::*;

verus! {

/// The outcome that a program reports when it ends.
#[derive(Debug, Clone, Copy, PartialEq, Eq, Structural)]
pub enum Status {
    Success,
    Failure,
}

/// The exit code of each outcome: 0 for success, 1 for failure.
pub open spec fn exit_code(status: Status) -> int {
    match status {
        Status::Success => 0,
        Status::Failure => 1,
    }
}

impl Status {
    /// The code with which the process is to end.
    pub fn code(&self) -> (c: i32)
        ensures
            c == exit_code(*self),
    {
        match self {
            Status::Success => 0,
            Status::Failure => 1,
        }
    }
}

} // verus!

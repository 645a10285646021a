//! Why a call was refused.

use vstd::prelude::*;

verus! {

#[derive(Debug, Clone, Copy, PartialEq, Eq, Structural)]
pub enum Code {
    InvalidArgument,
    DeadlineExceeded,
    NotFound,
    FailedPrecondition,
    Unimplemented,
    Internal,
    Unavailable,
}

/// A refused call.
#[derive(Debug, Clone, PartialEq, Eq)]
pub struct Status {
    pub code: Code,
    pub message: String,
}

impl Status {
    /// The refusal has this code and message.
    pub open spec fn is(&self, code: Code, message: Seq<char>) -> bool {
        self.code == code && self.message@ == message
    }

    /// A refusal.
    pub fn new(code: Code, message: &str) -> (r: Status)
        ensures
            r.is(code, message@),
    {
        Status { code, message: message.to_owned() }
    }
}

} // verus!

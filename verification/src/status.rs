//! The status that a refused or failed request is answered with.

use vstd::prelude::*;

verus! {

/// The class of a status.
#[derive(Debug, Clone, Copy, PartialEq, Eq, Structural)]
pub enum Code {
    InvalidArgument,
    FailedPrecondition,
    ResourceExhausted,
    Internal,
    Unavailable,
}

/// A refused or failed request.
#[derive(Debug, Clone, PartialEq, Eq)]
pub struct Status {
    pub code: Code,
    pub message: String,
}

/// A refused or failed request.
pub struct StatusView {
    pub code: Code,
    pub message: Seq<char>,
}

/// The view of a refused argument.
pub open spec fn invalid(message: Seq<char>) -> StatusView {
    StatusView { code: Code::InvalidArgument, message }
}

impl Status {
    pub open spec fn view(&self) -> StatusView {
        StatusView { code: self.code, message: self.message@ }
    }

    /// The class of the status.
    pub fn code(&self) -> (r: Code)
        ensures
            r == self.code,
    {
        self.code
    }

    /// A refused argument.
    pub fn invalid_argument(message: String) -> (r: Status)
        ensures
            r@ == invalid(message@),
    {
        Status { code: Code::InvalidArgument, message }
    }

    /// A fault of the service.
    pub fn internal(message: String) -> (r: Status)
        ensures
            r@ == (StatusView { code: Code::Internal, message: message@ }),
    {
        Status { code: Code::Internal, message }
    }

    /// A fault that goes away by itself.
    pub fn unavailable(message: String) -> (r: Status)
        ensures
            r@ == (StatusView { code: Code::Unavailable, message: message@ }),
    {
        Status { code: Code::Unavailable, message }
    }

    /// A request that would take too much.
    pub fn resource_exhausted(message: String) -> (r: Status)
        ensures
            r@ == (StatusView { code: Code::ResourceExhausted, message: message@ }),
    {
        Status { code: Code::ResourceExhausted, message }
    }

    /// A request that the state of the service forbids.
    pub fn failed_precondition(message: String) -> (r: Status)
        ensures
            r@ == (StatusView { code: Code::FailedPrecondition, message: message@ }),
    {
        Status { code: Code::FailedPrecondition, message }
    }
}

/// Whether the result of a check is the given one: `None` passes.
pub open spec fn is_check(r: Result<(), Status>, fault: Option<StatusView>) -> bool {
    match (r, fault) {
        (Ok(_), None) => true,
        (Err(s), Some(f)) => s@ == f,
        _ => false,
    }
}

/// The first fault of two checks.
pub open spec fn either(a: Option<StatusView>, b: Option<StatusView>) -> Option<StatusView> {
    if a is Some {
        a
    } else {
        b
    }
}

} // verus!

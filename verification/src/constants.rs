//! The size of a read, and the statuses that the server reports.

use vstd::prelude::*;

verus! {

/// How many bytes one read from a connection asks for.
pub const BUF_SIZE: usize = 512;

/// The outcomes that the server reports when it cannot serve a request.
#[derive(Copy, Clone, Debug, PartialEq, Eq, Structural)]
pub enum StatusCode {
    /// The request is malformed, or the connection closed before it was
    /// complete.
    BadRequest,
    /// No handler gave the response a body, and no file was found.
    NotFound,
    /// The request's method is none that the server knows.
    NotImplemented,
}

/// The number of a status.
pub open spec fn code_of(status: StatusCode) -> u16 {
    match status {
        StatusCode::BadRequest => 400u16,
        StatusCode::NotFound => 404u16,
        StatusCode::NotImplemented => 501u16,
    }
}

impl StatusCode {
    /// The number of the status.
    pub fn code(self) -> (n: u16)
        ensures
            n == code_of(self),
    {
        match self {
            StatusCode::BadRequest => 400,
            StatusCode::NotFound => 404,
            StatusCode::NotImplemented => 501,
        }
    }
}

} // verus!

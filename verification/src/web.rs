//! Request methods and the status codes that the proxy itself answers with.

use vstd::prelude::*;
use vstd::string::*;

verus! {

/// A request method; those that no route distinguishes are one.
#[derive(Clone, Copy, PartialEq, Eq, Structural, Debug)]
pub enum Method {
    Get,
    Post,
    Put,
    Other,
}

/// A status code that the proxy answers with on its own account.
#[derive(Clone, Copy, PartialEq, Eq, Structural, Debug)]
pub enum StatusCode {
    BadRequest,
    Unauthorized,
    Forbidden,
    NotFound,
    PayloadTooLarge,
    TooManyRequests,
    BadGateway,
    ServiceUnavailable,
}

impl StatusCode {
    /// The number of the status code.
    pub open spec fn number(self) -> u16 {
        match self {
            StatusCode::BadRequest => 400,
            StatusCode::Unauthorized => 401,
            StatusCode::Forbidden => 403,
            StatusCode::NotFound => 404,
            StatusCode::PayloadTooLarge => 413,
            StatusCode::TooManyRequests => 429,
            StatusCode::BadGateway => 502,
            StatusCode::ServiceUnavailable => 503,
        }
    }

    /// The number of the status code.
    pub fn as_u16(&self) -> (r: u16)
        ensures
            r == self.number(),
    {
        match self {
            StatusCode::BadRequest => 400,
            StatusCode::Unauthorized => 401,
            StatusCode::Forbidden => 403,
            StatusCode::NotFound => 404,
            StatusCode::PayloadTooLarge => 413,
            StatusCode::TooManyRequests => 429,
            StatusCode::BadGateway => 502,
            StatusCode::ServiceUnavailable => 503,
        }
    }
}

/// A status code of the class of successes.
pub open spec fn is_success(status: u16) -> bool {
    200 <= status < 300
}

/// An answer that the proxy gives on its own account.
pub struct Reply {
    pub status: StatusCode,
    /// After how many seconds the client may try again, where that is said.
    pub retry_after: Option<u64>,
    pub message: String,
}

impl Reply {
    /// The answer has this status, no time to try again, and this message.
    pub open spec fn says(&self, status: StatusCode, message: Seq<char>) -> bool {
        self.status == status && self.retry_after is None && self.message@ == message
    }

    /// An answer without a time to try again.
    pub fn new(status: StatusCode, message: &str) -> (r: Self)
        ensures
            r.says(status, message@),
    {
        Reply { status, retry_after: None, message: message.to_owned() }
    }
}

} // verus!

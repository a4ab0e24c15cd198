//! Response envelopes used by the service layer around the analysis core.

use vstd::prelude::*;
use vstd::string::StringExecFns;

verus! {

/// A plain status response: a numeric code and an optional message.
#[derive(Debug)]
pub struct DefaultResponse {
    pub code: u32,
    pub message: Option<String>,
}

impl DefaultResponse {
    /// The success response: code zero, no message.
    pub fn success() -> (r: Self)
        ensures
            r.code == 0,
            r.message is None,
    {
        DefaultResponse { code: 0, message: None }
    }

    /// The failure response: code 500 with the canned failure message
    /// ("operation failed").
    pub fn error() -> (r: Self)
        ensures
            r.code == 500,
            r.message is Some,
            r.message.unwrap()@ == "\u{64cd}\u{4f5c}\u{5931}\u{8d25}"@,
    {
        DefaultResponse {
            code: 500,
            message: Some(String::from_str("\u{64cd}\u{4f5c}\u{5931}\u{8d25}")),
        }
    }

    /// This response with its message replaced.
    pub fn msg(self, msg: String) -> (r: Self)
        ensures
            r.code == self.code,
            r.message == Some(msg),
    {
        DefaultResponse { code: self.code, message: Some(msg) }
    }

    /// This response with its code replaced.
    pub fn code(self, code: u32) -> (r: Self)
        ensures
            r.code == code,
            r.message == self.message,
    {
        DefaultResponse { code, message: self.message }
    }
}

/// Pagination counters of a list response.
#[derive(Debug, Clone, Copy, PartialEq, Eq, Structural)]
pub struct PaginateInfo {
    pub total: u64,
    pub pages: u64,
}

impl Default for PaginateInfo {
    /// The empty pagination: no items, no pages.
    fn default() -> (r: Self)
        ensures
            r.total == 0,
            r.pages == 0,
    {
        PaginateInfo { total: 0, pages: 0 }
    }
}

} // verus!

//! What a failed parse reports.

use vstd::prelude::*;

verus! {

/// Why a pattern was rejected.
#[derive(Debug)]
pub enum ReErrorKind {
    NonAsciiChar,
    BadSplit,
    OutOfRange,
    InvalidChar,
    InvalidInt,
    InvalidRange,
}

/// Where a pattern was rejected, and a sentence for the reader.
#[derive(Debug)]
pub struct ReErrorInfo {
    /// Byte offset into the pattern.
    pub at: usize,
    pub msg: String,
}

pub type ReError = (ReErrorKind, ReErrorInfo);

/// A failure in the model: its kind, its offset and its message.
pub type Failure = (ReErrorKind, int, Seq<char>);

/// The executable error `e` is the failure `f`.
pub open spec fn is_failure(e: ReError, f: Failure) -> bool {
    e.0 == f.0 && e.1.at as int == f.1 && e.1.msg@ == f.2
}

/// Builds an error of the given kind at the given offset.
pub fn fail(kind: ReErrorKind, at: usize, msg: &str) -> (e: ReError)
    ensures
        is_failure(e, (kind, at as int, msg@)),
{
    (kind, ReErrorInfo { at, msg: msg.to_owned() })
}

} // verus!

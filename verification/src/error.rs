//! What an operation can fail with.

use vstd::prelude::*;

verus! {

/// Why the engine refused a request or an input.
#[derive(Debug)]
pub enum Error {
    /// Bytes on disk that do not follow the format; says which rule they break.
    Corruption(String),
    /// A request that makes no sense.
    InvalidArgument(String),
    /// The database has been closed.
    Closed,
}

/// Result of an engine operation.
pub type Result<T> = std::result::Result<T, Error>;

/// `e` reports a corruption described by `msg`.
pub open spec fn is_corruption(e: Error, msg: Seq<char>) -> bool {
    e matches Error::Corruption(m) && m@ == msg
}

/// A corruption error with the given description.
pub fn corruption(msg: &str) -> (e: Error)
    ensures
        is_corruption(e, msg@),
{
    Error::Corruption(msg.to_owned())
}

} // verus!

//! The errors that repository operations report.

use vstd::prelude::*;

verus! {

/// Why an operation on a repository or a store failed.
#[derive(Debug, Clone, Copy, PartialEq, Eq, Structural)]
pub enum Error {
    /// The key or the chunk asked for is absent.
    NotFound,
    /// A repository was to be created where one already exists.
    AlreadyExists,
    /// Stored bytes do not decode to what the header promises.
    Corrupt,
    /// The store carries another format version than this library writes.
    UnsupportedFormat,
    /// An argument was out of range.
    InvalidInput,
    /// The backing store reported a failure; the code is the store's own.
    Io(i32),
    /// The header does not fit the limits of its encoding.
    Serialize,
    /// The stored header is not a well-formed encoding.
    Deserialize,
}

} // verus!

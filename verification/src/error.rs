//! The error taxonomy of the store: I/O failures, corrupt files, argument or
//! schema mismatches, and lookups of unknown tables.

use vstd::prelude::*;

verus! {

/// A typed error from any fallible operation of the store.
#[derive(Debug)]
pub enum ZolaError {
    /// A filesystem operation failed; carries the path and the system's text.
    Io { path: String, message: String },
    /// A stored file is corrupt: bad magic, wrong size, or malformed contents.
    InvalidFile { path: String, reason: String },
    /// Argument lengths disagree, a column's type or count disagrees with the
    /// table's schema, or a timestamp lies outside the supported calendar
    /// range.
    SchemaMismatch(String),
    /// A query named a table that the catalog does not hold.
    TableNotFound(String),
}

impl ZolaError {
    /// Build an `Io` error from a path and the system's message.
    pub fn io(path: String, message: String) -> (r: ZolaError)
        ensures
            r == (ZolaError::Io { path, message }),
    {
        ZolaError::Io { path, message }
    }

    /// Build an `InvalidFile` error from a path and a reason.
    pub fn invalid(path: String, reason: String) -> (r: ZolaError)
        ensures
            r == (ZolaError::InvalidFile { path, reason }),
    {
        ZolaError::InvalidFile { path, reason }
    }
}

} // verus!

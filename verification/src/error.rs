//! Errors.
use vstd::prelude::*;

verus! {

/// Why an operation on the database failed.
#[derive(Debug, PartialEq, Eq)]
pub enum Error {
    // Input data errors
    /// Cyclic reference path.
    CyclicReference,
    /// Reference hops limit exceeded.
    ReferenceLimit,
    /// Internal error.
    InternalError(&'static str),
    /// Invalid proof.
    InvalidProof(&'static str),

    // Path errors
    /// The path key not found could represent a valid query, just where the
    /// path key isn't there.
    PathKeyNotFound(String),
    /// The path not found could represent a valid query, just where the path
    /// isn't there.
    PathNotFound(&'static str),
    /// The invalid path represents a logical error from the client library.
    InvalidPath(&'static str),
    /// The corrupted path represents a consistency error in internal groveDB
    /// logic.
    CorruptedPath(&'static str),

    // Query errors
    /// Invalid query.
    InvalidQuery(&'static str),
    /// Missing parameter.
    MissingParameter(&'static str),

    // Irrecoverable errors
    /// What the storage reported.
    StorageError(String),
    /// Data corruption error.
    CorruptedData(String),

    // Support errors
    /// Not supported.
    NotSupported(&'static str),
}

} // verus!

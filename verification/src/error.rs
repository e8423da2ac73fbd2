//! Error kinds surfaced to callers, and their transport classification.

use vstd::prelude::*;

verus! {

/// What went wrong with an operation or query.
#[derive(Clone, Copy, PartialEq, Eq, Structural, Debug)]
pub enum Error {
    /// The named database is absent from the store.
    DatabaseNotFound,
    /// The named chunk key is absent from the database.
    ChunkNotFound,
    /// A chunk or database was added under a key that is already taken.
    DuplicateKey,
    /// A predicate, projection, group or aggregate column does not exist
    /// in the target table, its literal's type does not match the
    /// column's, a range comparison was asked of a non-integer column, or
    /// a group column is not a tag (string) column.
    SchemaMismatch,
    /// A malformed argument, such as a non-positive window.
    InvalidArgument,
    /// A chunk's input batches are unusable: a missing or non-integer
    /// time column, mismatched row counts, an empty batch, or a repeated
    /// table name.
    ConstructionError,
    /// Size accounting would overflow; the structure is rejected rather
    /// than admitted with a wrong total.
    SizeOverflow,
}

/// How an error maps to a transport-level response class.
#[derive(Clone, Copy, PartialEq, Eq, Structural, Debug)]
pub enum ResponseClass {
    BadRequest,
    NotFound,
    Internal,
}

impl Error {
    /// The response class a transport boundary should report: absent
    /// names are "not found", malformed queries are "bad request", and
    /// ingestion-side violations are internal faults.
    pub fn response_class(&self) -> (r: ResponseClass)
        ensures
            r == match *self {
                Error::DatabaseNotFound | Error::ChunkNotFound => ResponseClass::NotFound,
                Error::DuplicateKey | Error::SchemaMismatch | Error::InvalidArgument
                    => ResponseClass::BadRequest,
                Error::ConstructionError | Error::SizeOverflow => ResponseClass::Internal,
            },
    {
        match self {
            Error::DatabaseNotFound => ResponseClass::NotFound,
            Error::ChunkNotFound => ResponseClass::NotFound,
            Error::DuplicateKey => ResponseClass::BadRequest,
            Error::SchemaMismatch => ResponseClass::BadRequest,
            Error::InvalidArgument => ResponseClass::BadRequest,
            Error::ConstructionError => ResponseClass::Internal,
            Error::SizeOverflow => ResponseClass::Internal,
        }
    }
}

} // verus!

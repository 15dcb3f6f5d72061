//! The storage error: what the SQLite layer reports.
use vstd::prelude::*;

verus! {

/// `rusqlite::Error`, carried as it is.
#[verifier::external_type_specification]
#[verifier::external_body]
pub struct ExSqliteError(rusqlite::Error);

#[derive(Debug)]
pub enum StorageError {
    Sqlite(rusqlite::Error),
    /// A schema migration could not be applied.
    Migration(String),
}

impl From<rusqlite::Error> for StorageError {
    fn from(e: rusqlite::Error) -> (r: Self) {
        StorageError::Sqlite(e)
    }
}

impl vstd::std_specs::convert::FromSpecImpl<rusqlite::Error> for StorageError {
    open spec fn obeys_from_spec() -> bool {
        true
    }

    open spec fn from_spec(e: rusqlite::Error) -> StorageError {
        StorageError::Sqlite(e)
    }
}

} // verus!

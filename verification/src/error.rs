//! The errors the library reports.

use vstd::prelude::*;

verus! {

#[verifier::external_type_specification]
#[verifier::external_body]
pub struct ExRegexError(regex::Error);

#[verifier::external_type_specification]
#[verifier::external_body]
pub struct ExSqliteError(rusqlite::Error);

/// The kind of value that a column of a row holds.
#[derive(Debug, Clone, Copy, PartialEq, Eq)]
pub enum ColumnKind {
    Null,
    Integer,
    Real,
    Text,
    Blob,
}

/// What the snapshot store failed at.
#[derive(Debug)]
pub enum DatabaseError {
    /// SQLite refused to open the store, or refused a statement. The error
    /// is the one that rusqlite gave.
    Sqlite(rusqlite::Error),
    /// A row that a query gave has no column `index`.
    MissingColumn { index: usize },
    /// Column `index` of a row, the column called `name`, holds a value of
    /// kind `found`, which is not the kind that is read from it.
    WrongType { index: usize, name: String, found: ColumnKind },
}

/// Why an operation of the library failed.
#[derive(Debug)]
pub enum TodoTrackError {
    /// The snapshot store refused to open, refused a statement, or gave a
    /// row that cannot be read.
    Database(DatabaseError),
    /// A built-in pattern did not compile.
    Regex(regex::Error),
    /// The store holds no snapshot yet: scan first.
    NoSnapshots,
    /// No authorship could be had for `file`.
    GitBlame { file: String, reason: String },
}

/// Whether `e` is an error that rusqlite gave.
pub open spec fn is_sqlite_error(e: TodoTrackError) -> bool {
    e matches TodoTrackError::Database(DatabaseError::Sqlite(_))
}

/// Whether `e` tells of a row that cannot be read: a column is missing, or
/// holds a value of another kind.
pub open spec fn is_row_error(e: TodoTrackError) -> bool {
    e matches TodoTrackError::Database(fault) && !(fault is Sqlite)
}

} // verus!

//! Error types of the library.
//!
//! Failures that originate in the host (store faults, image decoding) are
//! carried as plain message strings; the host converts its own error values
//! into these before calling the library.

use vstd::prelude::*;

verus! {

/// Failure to parse a sort-type name.
#[derive(Debug)]
pub enum SortTypeError {
    FromStr(String),
}

/// Failures of the record-level operations.
#[derive(Debug)]
pub enum DatabaseError {
    /// A fault reported by the embedded store, as a message.
    NativeDbError(String),
    /// The queried user does not exist.
    UserNotFound(String),
    /// A folder query matched nothing.
    OsFoldersNotFound(String),
    /// A panel query matched nothing.
    PanelsNotFound(String),
    /// An input/output fault, as a message.
    IoError(String),
    /// Removing a folder's derived cover artifacts failed: path and reason.
    DeleteCoverFolder(String, String),
    /// An invalid sort-type name was supplied.
    SortType(SortTypeError),
}

/// Failures of a directory scan.
#[derive(Debug)]
pub enum ReadDirError {
    /// An input/output fault, or a directory with no supported content.
    IoError(String),
    /// The directory holds exactly what the stored records describe.
    FullyHydrated(String),
    /// A path from which no file name or stem could be derived.
    Path(String),
}

/// Failures of a whole synchronization request.
#[derive(Debug)]
pub enum MangaShelfError {
    Database(DatabaseError),
    ReadDir(ReadDirError),
    IoError(String),
}

} // verus!

//! The error kinds that the store can report.

use vstd::prelude::*;

verus! {

/// Everything that can go wrong in the store, as one flat taxonomy.
#[derive(Clone, Copy, Debug, PartialEq, Eq, Structural)]
pub enum Error {
    /// `db.lock` already exists when opening a directory.
    Locked,
    /// An underlying file system operation failed.
    Io,
    /// A decoded record's integrity hash does not match its contents.
    CorruptRecord,
    /// The byte slice ends before the declared record length.
    TruncatedRecord,
    /// The record declares a zero-length key.
    InvalidRecord,
    /// A record failed to decode while rebuilding the index from disk.
    RecoveryCorrupt,
    /// A pre-existing file collides with the id the writer wants to open.
    RecoveryInconsistent,
    /// The requested key is not in the index.
    NotFound,
}

} // verus!

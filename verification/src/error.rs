//! What can go wrong, and with which detail it is reported.

use vstd::prelude::*;
use crate::digest::Reference;

verus! {

/// The thing that a lookup did not find.
#[derive(Debug, PartialEq, Eq)]
pub enum Missing {
    /// No bank of this name exists.
    Bank(String),
    /// No stored entity has this reference.
    Entity(Reference),
    /// No save file could be read at this path.
    SavePath(String),
    /// The bank has no slot at this address.
    Slot { box_idx: usize, position: usize },
    /// No transaction is open.
    Transaction,
}

/// The data that could not be parsed.
#[derive(Debug, PartialEq, Eq)]
pub enum Damaged {
    /// The manifest of the bank of this name.
    Manifest(String),
    /// The version record.
    VersionRecord,
}

/// How a file operation failed, as the caller who performed it reports it.
#[derive(Debug, Clone, Copy, PartialEq, Eq, Structural)]
pub enum IoFailure {
    DiskFull,
    PermissionDenied,
    Other,
}

/// Why a bank was left out of a commit.
#[derive(Debug, Clone, Copy, PartialEq, Eq, Structural)]
pub enum Cause {
    /// This entity, put in the transaction, could not be stored.
    EntityWrite { reference: Reference, failure: IoFailure },
    /// The staged manifest names an entity that the store does not hold.
    Dangling(Reference),
    /// The temporary manifest could not be written.
    TempWrite(IoFailure),
    /// The rename over the live manifest failed.
    Rename(IoFailure),
    /// The caller asked to stop before this bank was reached.
    Aborted,
}

/// What an operation can fail with, with what the caller needs to act on
/// it.
#[derive(Debug, PartialEq, Eq)]
pub enum Error {
    /// A bank, entity, save path, slot or transaction does not exist.
    NotFound(Missing),
    /// Persisted data does not parse.
    Corrupt(Damaged),
    /// A transaction is already open.
    AlreadyOpen,
    /// The bank's manifest was not replaced; banks renamed before it stand.
    CommitFailed { bank: String, cause: Cause },
    /// The persisted data has a newer format than the program reads.
    OutdatedVersion { found: u32, newest_supported: u32 },
}

impl Error {
    /// Whether the error ends the program instead of going back to the
    /// caller: only data too new to be read does.
    pub open spec fn fatal(self) -> bool {
        self is OutdatedVersion
    }

    /// Whether the error ends the program instead of going back to the
    /// caller.
    pub fn is_fatal(&self) -> (fatal: bool)
        ensures
            fatal == self.fatal(),
    {
        match self {
            Error::OutdatedVersion { .. } => true,
            _ => false,
        }
    }
}

/// Whether `e` reports that no bank of this name exists.
pub open spec fn is_missing_bank(e: Error, name: Seq<char>) -> bool {
    e matches Error::NotFound(Missing::Bank(n)) && n@ == name
}

/// Whether `e` reports that no save file could be read at this path.
pub open spec fn is_missing_save(e: Error, path: Seq<char>) -> bool {
    e matches Error::NotFound(Missing::SavePath(p)) && p@ == path
}

/// Whether `e` reports that the manifest of the bank of this name does not
/// parse.
pub open spec fn is_corrupt_manifest(e: Error, name: Seq<char>) -> bool {
    e matches Error::Corrupt(Damaged::Manifest(n)) && n@ == name
}

/// Whether `e` reports that the bank of this name was left out of a commit
/// for this cause.
pub open spec fn is_commit_failure(e: Error, name: Seq<char>, why: Cause) -> bool {
    e matches Error::CommitFailed { bank, cause } && bank@ == name && cause == why
}

} // verus!

//! A storage-engine checkpoint and column-family export/import core.
//!
//! The library models a log-structured store (column families holding
//! byte-keyed entries), durable storage (named directories of sorted files),
//! and the operations over them: materializing a consistent point-in-time
//! checkpoint, exporting one column family as a self-describing bundle of
//! sorted files, serializing that bundle to a portable textual form, and
//! importing a bundle into another store as a brand-new column family.

use vstd::prelude::*;

pub mod bytes;
pub mod checkpoint;
pub mod codec;
pub mod event;
pub mod fs;
pub mod import;
pub mod meta;
pub mod store;

verus! {

/// Everything that can go wrong in the library, one variant per failure class.
#[derive(Clone, Copy, Debug, PartialEq, Eq, Structural)]
pub enum Error {
    /// The engine could not allocate a checkpoint operation object.
    CreationError,
    /// A target path is invalid or already occupied where a fresh directory is required.
    PathError,
    /// Creating the sidecar metadata file failed.
    CreateFailed,
    /// Writing the sidecar metadata file failed.
    WriteFailed,
    /// Reading the sidecar metadata file failed.
    ReadFailed,
    /// The textual metadata does not follow the schema.
    Malformed,
    /// The underlying engine reported a failure.
    EngineError,
    /// The destination store already has a column family of that name.
    AlreadyExists,
    /// The bundle's comparator does not match the destination store's.
    ComparatorMismatch,
    /// A file referenced by the bundle is no longer present.
    MissingFile,
}

impl Error {
    /// A human-readable description of the failure.
    pub fn message(&self) -> &'static str {
        match self {
            Error::CreationError => "could not create checkpoint object",
            Error::PathError => "target path is invalid or already exists",
            Error::CreateFailed => "create metadata file failed",
            Error::WriteFailed => "write metadata file failed",
            Error::ReadFailed => "read metadata file failed",
            Error::Malformed => "metadata text does not follow the schema",
            Error::EngineError => "the storage engine reported a failure",
            Error::AlreadyExists => "column family already exists",
            Error::ComparatorMismatch => "comparator of the bundle differs from the store's",
            Error::MissingFile => "a file referenced by the bundle is missing",
        }
    }
}

} // verus!

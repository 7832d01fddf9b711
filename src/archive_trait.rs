//! The capabilities that the archives offer.
use vstd::prelude::*;
use crate::error::ArchiveError;

verus! {

/// An archive that can be created empty and reset to empty.
pub trait IArchive: Sized {
    /// An archive in the empty state.
    fn new() -> Self;

    /// Puts the archive into the empty state.
    fn close(&mut self);
}

/// Read access to an archive.
pub trait IReadableArchive {
    /// Replaces the contents with the archive parsed from `input`.
    fn open_from_bytes(&mut self, input: &[u8]) -> Result<(), ArchiveError>;

    /// The contents of the file named `in_archive_path` (any case).
    fn get(&self, in_archive_path: &str) -> Result<Vec<u8>, ArchiveError>;

    /// Whether a file named `in_archive_path` (any case) is present.
    fn contains(&self, in_archive_path: &str) -> Result<bool, ArchiveError>;

    /// The names that match the regular expression `search_regex`.
    fn search(&self, search_regex: &str) -> Result<Vec<String>, ArchiveError>;
}

/// Write access to an archive.
pub trait IWritableArchive {
    /// The archive laid out as bytes.
    fn save_to_bytes(&self) -> Result<Vec<u8>, ArchiveError>;

    /// Stores `input` under `in_archive_path`.
    fn set(&mut self, in_archive_path: &str, input: &[u8]) -> Result<(), ArchiveError>;

    /// Removes the file named `in_archive_path`.
    fn remove(&mut self, in_archive_path: &str) -> Result<(), ArchiveError>;

    /// Gives the file `in_archive_path` the name `new_in_archive_path`.
    fn rename(&mut self, in_archive_path: &str, new_in_archive_path: &str) -> Result<(), ArchiveError>;

    /// Stores a copy of the file `in_archive_path` under `new_in_archive_path`.
    fn copy(&mut self, in_archive_path: &str, new_in_archive_path: &str) -> Result<(), ArchiveError>;
}

} // verus!

//! The archive types and the traits that give them their operations.
pub use crate::archive_trait::{IArchive, IReadableArchive, IWritableArchive};
pub use crate::error::ArchiveError;
pub use crate::readable::ReadableArchive;
pub use crate::readwrite::ReadWriteArchive;
pub use crate::writable::WritableArchive;

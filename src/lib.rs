//! Reading and writing PFS archives: a header, zlib-compressed block streams
//! and a footer directory keyed by a CRC of each lowercased file name.

pub mod error;
pub mod wire;
pub mod checksum;
pub mod compression;
pub mod text;
pub mod names;
pub mod directory;
pub mod table;
pub mod emit;
pub mod archive_trait;
pub mod readwrite;
pub mod writable;
pub mod readable;
pub mod prelude;
pub mod laws;
pub mod roundtrip;
pub mod paths;

use vstd::prelude::*;
use vstd::string::StringExecFns;

verus! {

#[verifier::external_type_specification]
#[verifier::external_body]
pub struct ExIoError(std::io::Error);

#[verifier::external_type_specification]
#[verifier::external_body]
pub struct ExRegexError(regex::Error);

#[verifier::external_type_specification]
#[verifier::external_body]
pub struct ExUtf8Error(std::str::Utf8Error);

/// Everything that can go wrong while reading, editing or writing an archive.
#[derive(Debug)]
pub enum ArchiveError {
    /// Reading from or writing to an I/O source failed.
    Io(std::io::Error),
    /// The header carries a version other than the supported one.
    WrongVersion { version: u32 },
    /// The header, directory or a block stream is malformed or truncated.
    Parse(String),
    /// The zlib encoder failed.
    Compression,
    /// The zlib decoder failed.
    Decompression,
    /// Reserved: a source file is already present.
    SrcFileAlreadyExists,
    /// The file named as the source of an operation is not in the archive.
    SrcFileNotFound,
    /// The file named as the destination of an operation is already in the archive.
    DestFileAlreadyExists,
    /// The search pattern is not a valid regular expression.
    BadRegex(regex::Error),
    /// The filename table holds a name that is not valid UTF-8.
    Utf8(std::str::Utf8Error),
    /// Any other failure.
    Unknown,
}

impl ArchiveError {
    /// A short human-readable message for the error.
    pub fn message(&self) -> (r: String)
        ensures
            match self {
            ArchiveError::Io(_) => r@ == "I/O error"@,
            ArchiveError::WrongVersion { .. } => r@ == "Wrong version found"@,
            ArchiveError::Parse(_) => r@ == "Parse Error"@,
            ArchiveError::Compression => r@ == "Compression failed"@,
            ArchiveError::Decompression => r@ == "Decompression failed"@,
            ArchiveError::SrcFileAlreadyExists => r@ == "Source file already exists in archive"@,
            ArchiveError::SrcFileNotFound => r@ == "Source file doesn't exist in archive"@,
            ArchiveError::DestFileAlreadyExists => r@ == "Destination file already exists in archive"@,
            ArchiveError::BadRegex(_) => r@ == "Bad Regular Expression"@,
            ArchiveError::Utf8(_) => r@ == "Bad UTF-8"@,
            ArchiveError::Unknown => r@ == "Unknown Error"@,
            },
    {
        match self {
            ArchiveError::Io(_) => String::from_str("I/O error"),
            ArchiveError::WrongVersion { .. } => String::from_str("Wrong version found"),
            ArchiveError::Parse(_) => String::from_str("Parse Error"),
            ArchiveError::Compression => String::from_str("Compression failed"),
            ArchiveError::Decompression => String::from_str("Decompression failed"),
            ArchiveError::SrcFileAlreadyExists => String::from_str("Source file already exists in archive"),
            ArchiveError::SrcFileNotFound => String::from_str("Source file doesn't exist in archive"),
            ArchiveError::DestFileAlreadyExists => String::from_str("Destination file already exists in archive"),
            ArchiveError::BadRegex(_) => String::from_str("Bad Regular Expression"),
            ArchiveError::Utf8(_) => String::from_str("Bad UTF-8"),
            ArchiveError::Unknown => String::from_str("Unknown Error"),
        }
    }
}

} // verus!

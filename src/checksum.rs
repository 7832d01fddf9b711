//! The format's CRC-32 of a file name.
use vstd::prelude::*;
use vstd::slice::slice_to_vec;
use vstd::string::StringSliceAdditionalSpecFns;

verus! {

/// What the crc crate computes over `bytes` with the format's CRC-32 parameters.
pub uninterp spec fn pfs_crc_of(bytes: Seq<u8>) -> u32;

/// Relies on `crc::Crc::<u32>::checksum`, set up with the format's CRC-32
/// parameters (polynomial 0x04C11DB7, initial value 0, no reflection in or out,
/// no final XOR): the checksum depends on the bytes alone.
#[verifier::external_body]
fn crc32_checksum(bytes: &[u8]) -> (r: u32)
    ensures
        r == pfs_crc_of(bytes@),
{
    let engine = crc::Crc::<u32>::new(&crc::Algorithm {
        width: 32, poly: 0x04c11db7, init: 0, refin: false, refout: false, xorout: 0, check: 0, residue: 0,
    });
    engine.checksum(bytes)
}

/// The CRC stored in a directory entry for `name`: the checksum of the UTF-8
/// bytes of the name followed by one NUL byte.
pub open spec fn name_crc(name: Seq<char>) -> u32 {
    pfs_crc_of(vstd::utf8::encode_utf8(name).push(0u8))
}

/// Computes the directory CRC of `name` (taken as it is: callers lowercase it).
pub fn file_crc(name: &str) -> (r: u32)
    ensures
        r == name_crc(name@),
{
    let mut bytes = slice_to_vec(name.as_bytes());
    bytes.push(0u8);
    crc32_checksum(bytes.as_slice())
}

} // verus!

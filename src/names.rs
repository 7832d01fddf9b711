//! The filename table: the synthetic blob that maps directory CRCs back to names.
use vstd::prelude::*;
use vstd::utf8::{encode_utf8, valid_utf8, decode_utf8};
use vstd::string::StringSliceAdditionalSpecFns;
use crate::error::ArchiveError;
use crate::text::utf8_decode;
use crate::wire::{le32, read_le32, put_u32_le, put_bytes, get_u32_le};

verus! {

/// The directory CRC that marks the filename table's entry.
pub const FILENAMES_CRC_VALUE: u32 = 0x61580ac9;

/// The record of one name: `u32(len + 1)`, the UTF-8 bytes, one NUL.
pub open spec fn name_record(name: Seq<char>) -> Seq<u8> {
    le32((encode_utf8(name).len() + 1) as u32) + encode_utf8(name) + seq![0u8]
}

/// The records of `names`, one after another.
pub open spec fn name_records(names: Seq<Seq<char>>) -> Seq<u8>
    decreases names.len(),
{
    if names.len() == 0 {
        Seq::empty()
    } else {
        name_records(names.drop_last()) + name_record(names.last())
    }
}

/// The encoded table: `u32` count, then the records.
pub open spec fn filename_table(names: Seq<Seq<char>>) -> Seq<u8> {
    le32(names.len() as u32) + name_records(names)
}

/// A name fits in a table record.
pub open spec fn name_fits(name: Seq<char>) -> bool {
    encode_utf8(name).len() + 1 <= u32::MAX
}

/// Writes the filename table for `filenames`.
pub fn write_filenames(filenames: &[String]) -> (r: Vec<u8>)
    requires
        filenames@.len() <= u32::MAX,
        forall|i: int| 0 <= i < filenames@.len() ==> name_fits((#[trigger] filenames@[i])@),
    ensures
        r@ == filename_table(filenames@.map_values(|s: String| s@)),
{
    let ghost names = filenames@.map_values(|s: String| s@);
    let mut buffer: Vec<u8> = Vec::new();
    put_u32_le(&mut buffer, filenames.len() as u32);
    let mut i: usize = 0;
    while i < filenames.len()
        invariant
            names == filenames@.map_values(|s: String| s@),
            filenames@.len() <= u32::MAX,
            forall|j: int| 0 <= j < filenames@.len() ==> name_fits((#[trigger] filenames@[j])@),
            0 <= i <= filenames@.len(),
            buffer@ == le32(filenames@.len() as u32) + name_records(names.subrange(0, i as int)),
        decreases filenames@.len() - i,
    {
        let bytes = filenames[i].as_str().as_bytes();
        assert(name_fits(filenames@[i as int]@));
        put_u32_le(&mut buffer, bytes.len() as u32 + 1);
        put_bytes(&mut buffer, bytes);
        buffer.push(0u8);
        proof {
            let ns = names.subrange(0, i + 1);
            assert(ns.drop_last() =~= names.subrange(0, i as int));
            assert(buffer@ =~= le32(filenames@.len() as u32) + name_records(ns));
        }
        i = i + 1;
    }
    assert(names.subrange(0, names.len() as int) =~= names);
    buffer
}

/// Why decoding a filename table stopped.
#[derive(Debug)]
pub enum TableFault {
    /// The input ends inside a record, or a record's length is zero.
    Truncated,
    /// A name's bytes are not valid UTF-8.
    BadUtf8,
}

/// Decodes `count` records that start at `pos`.
pub open spec fn decode_records(input: Seq<u8>, pos: int, count: nat) -> Result<Seq<Seq<char>>, TableFault>
    decreases count,
{
    if count == 0 {
        Ok(Seq::empty())
    } else if pos + 4 > input.len() {
        Err(TableFault::Truncated)
    } else {
        let len = read_le32(input, pos) as int;
        if len == 0 || pos + 4 + len > input.len() {
            Err(TableFault::Truncated)
        } else {
            let bytes = input.subrange(pos + 4, pos + 4 + len - 1);
            if !valid_utf8(bytes) {
                Err(TableFault::BadUtf8)
            } else {
                match decode_records(input, pos + 4 + len, (count - 1) as nat) {
                    Ok(rest) => Ok(seq![decode_utf8(bytes)] + rest),
                    Err(f) => Err(f),
                }
            }
        }
    }
}

/// Decodes a whole filename table.
pub open spec fn decode_table(input: Seq<u8>) -> Result<Seq<Seq<char>>, TableFault> {
    if input.len() < 4 {
        Err(TableFault::Truncated)
    } else {
        decode_records(input, 4, read_le32(input, 0) as nat)
    }
}

spec fn prepend(p: Seq<Seq<char>>, r: Result<Seq<Seq<char>>, TableFault>) -> Result<Seq<Seq<char>>, TableFault> {
    match r {
        Ok(rest) => Ok(p + rest),
        Err(f) => Err(f),
    }
}

/// Decodes the filename table in `input`: the count, then each record's name
/// without its trailing NUL. Bytes after the last record are ignored.
pub fn parse_filenames(input: &[u8]) -> (r: Result<Vec<String>, ArchiveError>)
    ensures
        match decode_table(input@) {
            Ok(names) => r matches Ok(v) && v@.map_values(|s: String| s@) == names,
            Err(TableFault::Truncated) => r matches Err(ArchiveError::Parse(_)),
            Err(TableFault::BadUtf8) => r matches Err(ArchiveError::Utf8(_)),
        },
{
    let count = match get_u32_le(input, 0) {
        Some(c) => c,
        None => return Err(ArchiveError::Parse("filename table is truncated".to_string())),
    };
    let mut ret: Vec<String> = Vec::new();
    let mut pos: usize = 4;
    let mut i: u32 = 0;
    while i < count
        invariant
            input@.len() >= 4,
            count == read_le32(input@, 0),
            4 <= pos <= input@.len(),
            i <= count,
            decode_table(input@) == prepend(ret@.map_values(|s: String| s@), decode_records(input@, pos as int, (count - i) as nat)),
        decreases count - i,
    {
        let ghost before = ret@.map_values(|s: String| s@);
        let len = match get_u32_le(input, pos) {
            Some(l) => l,
            None => return Err(ArchiveError::Parse("filename table is truncated".to_string())),
        };
        if len == 0 || len as usize > input.len() - pos - 4 {
            return Err(ArchiveError::Parse("filename table is truncated".to_string()));
        }
        let name_bytes = vstd::slice::slice_subrange(input, pos + 4, pos + 4 + (len as usize - 1));
        let name = match utf8_decode(name_bytes) {
            Ok(s) => s,
            Err(e) => return Err(ArchiveError::Utf8(e)),
        };
        ret.push(name);
        proof {
            let rest = decode_records(input@, pos + 4 + len, (count - i - 1) as nat);
            assert(ret@.map_values(|s: String| s@) =~= before.push(decode_utf8(name_bytes@)));
            match rest {
                Ok(rs) => {
                    assert(before + (seq![decode_utf8(name_bytes@)] + rs) =~= before.push(decode_utf8(name_bytes@)) + rs);
                },
                Err(_) => {},
            }
        }
        pos = pos + 4 + len as usize;
        i = i + 1;
    }
    proof {
        assert(ret@.map_values(|s: String| s@) + Seq::<Seq<char>>::empty() =~= ret@.map_values(|s: String| s@));
    }
    Ok(ret)
}

} // verus!

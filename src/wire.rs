//! Little-endian `u32` fields as the archive format lays them out.
use vstd::prelude::*;
use vstd::bytes::{spec_u32_to_le_bytes, spec_u32_from_le_bytes, u32_from_le_bytes, u32_to_le_bytes, lemma_auto_spec_u32_to_from_le_bytes};
use vstd::slice::slice_subrange;

verus! {

/// The four bytes that encode `v`, least significant first.
pub open spec fn le32(v: u32) -> Seq<u8> {
    spec_u32_to_le_bytes(v)
}

/// The value of the four bytes of `s` that start at `pos`.
pub open spec fn read_le32(s: Seq<u8>, pos: int) -> u32 {
    spec_u32_from_le_bytes(s.subrange(pos, pos + 4))
}

/// Encoding a value and reading it back gives the value; an encoding is four bytes long.
pub proof fn lemma_le32(v: u32)
    ensures
        le32(v).len() == 4,
        forall|pre: Seq<u8>, post: Seq<u8>|
            #![trigger read_le32(pre + le32(v) + post, pre.len() as int)]
            read_le32(pre + le32(v) + post, pre.len() as int) == v,
{
    lemma_auto_spec_u32_to_from_le_bytes();
    assert forall|pre: Seq<u8>, post: Seq<u8>|
        #![trigger read_le32(pre + le32(v) + post, pre.len() as int)]
        read_le32(pre + le32(v) + post, pre.len() as int) == v by {
        let s = pre + le32(v) + post;
        assert(s.subrange(pre.len() as int, pre.len() + 4int) =~= le32(v));
    }
}

/// Where the four bytes at `pos` encode `v`, reading them gives `v`.
pub proof fn lemma_read_at(s: Seq<u8>, pos: int, v: u32)
    requires
        0 <= pos,
        pos + 4 <= s.len(),
        s.subrange(pos, pos + 4) == le32(v),
    ensures
        read_le32(s, pos) == v,
{
    lemma_auto_spec_u32_to_from_le_bytes();
    assert(spec_u32_to_le_bytes(v).len() == 4);
}

/// Appends the little-endian encoding of `v` to `buf`.
pub fn put_u32_le(buf: &mut Vec<u8>, v: u32)
    ensures
        final(buf)@ == old(buf)@ + le32(v),
{
    let bytes = u32_to_le_bytes(v);
    let mut i: usize = 0;
    while i < 4
        invariant
            bytes@ == le32(v),
            bytes@.len() == 4,
            0 <= i <= 4,
            buf@ == old(buf)@ + bytes@.subrange(0, i as int),
        decreases 4 - i,
    {
        buf.push(bytes[i]);
        i = i + 1;
        assert(bytes@.subrange(0, i as int) =~= bytes@.subrange(0, i - 1) .push(bytes@[i - 1]));
    }
    assert(bytes@.subrange(0, 4) =~= bytes@);
}

/// Appends all of `src` to `buf`.
pub fn put_bytes(buf: &mut Vec<u8>, src: &[u8])
    ensures
        final(buf)@ == old(buf)@ + src@,
{
    let mut i: usize = 0;
    while i < src.len()
        invariant
            0 <= i <= src@.len(),
            buf@ == old(buf)@ + src@.subrange(0, i as int),
        decreases src@.len() - i,
    {
        buf.push(src[i]);
        i = i + 1;
        assert(src@.subrange(0, i as int) =~= src@.subrange(0, i - 1).push(src@[i - 1]));
    }
    assert(src@.subrange(0, src@.len() as int) =~= src@);
}

/// Reads the little-endian `u32` at `pos`, or `None` where fewer than four bytes remain.
pub fn get_u32_le(input: &[u8], pos: usize) -> (r: Option<u32>)
    ensures
        pos + 4 <= input@.len() ==> r == Some(read_le32(input@, pos as int)),
        pos + 4 > input@.len() ==> r is None,
{
    if pos > input.len() || input.len() - pos < 4 {
        return None;
    }
    let field = slice_subrange(input, pos, pos + 4);
    Some(u32_from_le_bytes(field))
}

} // verus!

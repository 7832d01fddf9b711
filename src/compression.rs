//! Blobs as sequences of independently zlib-compressed blocks.
use vstd::prelude::*;
use std::io::Read;
use std::io::Write;
use crate::error::ArchiveError;

verus! {

/// The largest number of uncompressed bytes that one block holds.
pub const MAX_BLOCK_SIZE: usize = 8192;

/// What flate2's zlib encoder, at the default level, produces for `data`, or
/// `None` where it fails.
pub uninterp spec fn zlib_compress_of(data: Seq<u8>) -> Option<Seq<u8>>;

/// What flate2's zlib decoder produces for `data`, or `None` where it fails.
pub uninterp spec fn zlib_decompress_of(data: Seq<u8>) -> Option<Seq<u8>>;

/// Relies on `flate2::write::ZlibEncoder` (default level) writing into a `Vec`:
/// whether it succeeds and what it outputs depend on the input alone, and zlib
/// is lossless, so `flate2::read::ZlibDecoder` gives the input back.
#[verifier::external_body]
fn zlib_compress(data: &[u8]) -> (r: Option<Vec<u8>>)
    ensures
        r is Some <==> zlib_compress_of(data@) is Some,
        r matches Some(v) ==> zlib_compress_of(data@) == Some(v@) && zlib_decompress_of(v@) == Some(data@),
{
    let mut encoder = flate2::write::ZlibEncoder::new(Vec::new(), flate2::Compression::default());
    match encoder.write_all(data) {
        Ok(()) => encoder.finish().ok(),
        Err(_) => None,
    }
}

/// Relies on `flate2::read::ZlibDecoder` read to the end: the outcome depends
/// on the compressed bytes alone.
#[verifier::external_body]
pub(crate) fn zlib_decompress(data: &[u8]) -> (r: Option<Vec<u8>>)
    ensures
        match r {
            Some(v) => zlib_decompress_of(data@) == Some(v@),
            None => zlib_decompress_of(data@) is None,
        },
{
    let mut out = Vec::new();
    match flate2::read::ZlibDecoder::new(data).read_to_end(&mut out) {
        Ok(_) => Some(out),
        Err(_) => None,
    }
}

/// One compressed block of a blob.
#[derive(Debug)]
pub struct Block {
    /// Number of compressed bytes.
    pub deflate_length: usize,
    /// Number of bytes the block decompresses to.
    pub inflate_length: usize,
    /// The compressed bytes.
    pub data: Vec<u8>,
}

impl Block {
    pub open spec fn wf(&self) -> bool {
        self.deflate_length == self.data@.len() && self.inflate_length <= u32::MAX
    }

    /// A copy of the block.
    pub fn duplicate(&self) -> (r: Block)
        ensures
            r.deflate_length == self.deflate_length,
            r.inflate_length == self.inflate_length,
            r.data@ == self.data@,
    {
        Block { deflate_length: self.deflate_length, inflate_length: self.inflate_length, data: self.data.clone() }
    }
}

/// The number of blocks that `n` bytes are cut into.
pub open spec fn chunk_count(n: nat) -> nat {
    ((n + 8191) / 8192) as nat
}

/// The `i`-th chunk of `data`: bytes `8192 * i` up to `8192 * (i + 1)`, or to the end.
pub open spec fn chunk_of(data: Seq<u8>, i: int) -> Seq<u8> {
    let end = if (i + 1) * 8192 < data.len() { (i + 1) * 8192 } else { data.len() as int };
    data.subrange(i * 8192, end)
}

/// Every chunk of `data` compresses.
pub open spec fn compresses(data: Seq<u8>) -> bool {
    forall|i: int| 0 <= i < chunk_count(data.len()) ==> (#[trigger] zlib_compress_of(chunk_of(data, i))) is Some
}

/// Each block as the archive stores it: its inflate length and compressed bytes.
pub open spec fn block_views(bs: Seq<Block>) -> Seq<(usize, Seq<u8>)> {
    bs.map_values(|b: Block| (b.inflate_length, b.data@))
}

/// `bs` are the blocks that deflating `data` chunk by chunk gives.
pub open spec fn is_deflation_of(bs: Seq<Block>, data: Seq<u8>) -> bool {
    &&& bs.len() == chunk_count(data.len())
    &&& forall|i: int| 0 <= i < bs.len() ==> {
        &&& (#[trigger] bs[i]).wf()
        &&& bs[i].inflate_length == chunk_of(data, i).len()
        &&& zlib_compress_of(chunk_of(data, i)) == Some(bs[i].data@)
        &&& zlib_decompress_of(bs[i].data@) == Some(chunk_of(data, i))
    }
}

/// The sum of the inflate lengths of `bs`.
pub open spec fn blocks_size(bs: Seq<Block>) -> nat
    decreases bs.len(),
{
    if bs.len() == 0 {
        0
    } else {
        blocks_size(bs.drop_last()) + bs.last().inflate_length as nat
    }
}

/// The concatenated output of decompressing each block, or `None` where one
/// fails or gives other than its inflate length.
pub open spec fn inflate_all(bs: Seq<(usize, Seq<u8>)>) -> Option<Seq<u8>>
    decreases bs.len(),
{
    if bs.len() == 0 {
        Some(Seq::empty())
    } else {
        match (inflate_all(bs.drop_last()), zlib_decompress_of(bs.last().1)) {
            (Some(a), Some(b)) => if b.len() == bs.last().0 { Some(a + b) } else { None },
            _ => None,
        }
    }
}

/// The block does not decompress to its inflate length.
pub open spec fn block_fails(b: (usize, Seq<u8>)) -> bool {
    match zlib_decompress_of(b.1) {
        Some(x) => x.len() != b.0,
        None => true,
    }
}

proof fn lemma_chunk_bounds(n: int, k: int)
    requires
        0 <= k,
        0 <= n,
        k * 8192 <= n,
    ensures
        (k + 1) * 8192 == k * 8192 + 8192,
{
}

/// Cuts `data` into chunks of at most `MAX_BLOCK_SIZE` bytes and compresses each one.
/// Every block but the last holds exactly `MAX_BLOCK_SIZE` bytes, and the inflate
/// lengths add up to the length of `data`.
pub fn deflate_blocks(data: &[u8]) -> (r: Result<Vec<Block>, ArchiveError>)
    ensures
        r is Ok <==> compresses(data@),
        r matches Ok(bs) ==> {
            &&& is_deflation_of(bs@, data@)
            &&& blocks_size(bs@) == data@.len()
            &&& forall|i: int| 0 <= i < bs@.len() - 1 ==> (#[trigger] bs@[i]).inflate_length == MAX_BLOCK_SIZE
            &&& forall|i: int| 0 <= i < bs@.len() ==> (#[trigger] bs@[i]).inflate_length >= 1
        },
        r matches Err(e) ==> e is Compression,
{
    let mut blocks: Vec<Block> = Vec::new();
    let mut pos: usize = 0;
    let len: usize = data.len();
    while pos < len
        invariant
            len == data@.len(),
            pos <= len,
            pos < len ==> pos == blocks@.len() * 8192,
            pos == len ==> blocks@.len() * 8192 >= len,
            blocks@.len() > 0 ==> (blocks@.len() - 1) * 8192 < len,
            blocks_size(blocks@) == pos,
            forall|i: int| 0 <= i < blocks@.len() ==> {
                &&& (#[trigger] blocks@[i]).wf()
                &&& blocks@[i].inflate_length == chunk_of(data@, i).len()
                &&& zlib_compress_of(chunk_of(data@, i)) == Some(blocks@[i].data@)
                &&& zlib_decompress_of(blocks@[i].data@) == Some(chunk_of(data@, i))
            },
            forall|i: int| 0 <= i < blocks@.len() - 1 ==> (#[trigger] blocks@[i]).inflate_length == MAX_BLOCK_SIZE,
            forall|i: int| 0 <= i < blocks@.len() ==> (#[trigger] blocks@[i]).inflate_length >= 1,
            forall|i: int| 0 <= i < blocks@.len() ==> (#[trigger] zlib_compress_of(chunk_of(data@, i))) is Some,
        decreases len - pos,
    {
        let sz: usize = if len - pos > MAX_BLOCK_SIZE { MAX_BLOCK_SIZE } else { len - pos };
        let chunk = vstd::slice::slice_subrange(data, pos, pos + sz);
        let k = blocks.len();
        proof {
            lemma_chunk_bounds(len as int, k as int);
            assert(chunk@ =~= chunk_of(data@, k as int));
        }
        let compressed = match zlib_compress(chunk) {
            Some(c) => c,
            None => {
                proof {
                    let l = len as int;
                    let n = k as int;
                    assert(n < (l + 8191) / 8192) by (nonlinear_arith)
                        requires n * 8192 < l, 0 <= n;
                }
                return Err(ArchiveError::Compression);
            },
        };
        let block = Block { deflate_length: compressed.len(), inflate_length: sz, data: compressed };
        let ghost old_blocks = blocks@;
        blocks.push(block);
        proof {
            assert(blocks@.drop_last() =~= old_blocks);
        }
        pos = pos + sz;
    }
    proof {
        let n = blocks@.len() as int;
        let l = len as int;
        assert(n == (l + 8191) / 8192) by (nonlinear_arith)
            requires
                n * 8192 >= l,
                n > 0 ==> (n - 1) * 8192 < l,
                l == 0 ==> n == 0,
                0 <= l,
                0 <= n,
        ;
    }
    assert(compresses(data@));
    Ok(blocks)
}

/// Deflating and then inflating gives the bytes back.
pub proof fn lemma_inflate_deflation(bs: Seq<Block>, data: Seq<u8>)
    requires
        is_deflation_of(bs, data),
    ensures
        inflate_all(block_views(bs)) == Some(data),
{
    lemma_inflate_prefix(bs, data, bs.len() as int);
    let n = bs.len() as int;
    let l = data.len() as int;
    assert(n * 8192 >= l) by (nonlinear_arith)
        requires n == (l + 8191) / 8192, 0 <= l;
    assert(block_views(bs).subrange(0, n) =~= block_views(bs));
    assert(data.subrange(0, l) =~= data);
}

proof fn lemma_inflate_prefix(bs: Seq<Block>, data: Seq<u8>, k: int)
    requires
        is_deflation_of(bs, data),
        0 <= k <= bs.len(),
    ensures
        inflate_all(block_views(bs).subrange(0, k)) == Some(
            data.subrange(0, if k * 8192 < data.len() { k * 8192 } else { data.len() as int }),
        ),
    decreases k,
{
    let d = block_views(bs).subrange(0, k);
    if k == 0 {
        assert(data.subrange(0, 0) =~= Seq::<u8>::empty());
    } else {
        lemma_inflate_prefix(bs, data, k - 1);
        assert(d.drop_last() =~= block_views(bs).subrange(0, k - 1));
        let n = bs.len() as int;
        let l = data.len() as int;
        assert((k - 1) * 8192 < l) by (nonlinear_arith)
            requires n == (l + 8191) / 8192, 0 <= l, 1 <= k <= n;
        assert(k * 8192 == (k - 1) * 8192 + 8192) by (nonlinear_arith);
        let lo = (k - 1) * 8192;
        let hi = if k * 8192 < l { k * 8192 } else { l };
        assert(d.last() == (bs[k - 1].inflate_length, bs[k - 1].data@));
        assert(data.subrange(0, lo) + data.subrange(lo, hi) =~= data.subrange(0, hi));
    }
}

/// Decompresses `blocks` one after another and concatenates the output.
pub fn inflate_blocks(blocks: &Vec<Block>) -> (r: Result<Vec<u8>, ArchiveError>)
    ensures
        match inflate_all(block_views(blocks@)) {
            Some(x) => r matches Ok(v) && v@ == x,
            None => r matches Err(ArchiveError::Decompression),
        },
{
    let mut out: Vec<u8> = Vec::new();
    let mut i: usize = 0;
    while i < blocks.len()
        invariant
            0 <= i <= blocks@.len(),
            inflate_all(block_views(blocks@).subrange(0, i as int)) == Some(out@),
        decreases blocks@.len() - i,
    {
        let part = match zlib_decompress(blocks[i].data.as_slice()) {
            Some(p) => p,
            None => {
                proof { lemma_inflate_fails(block_views(blocks@), i as int); }
                return Err(ArchiveError::Decompression);
            },
        };
        if part.len() != blocks[i].inflate_length {
            proof { lemma_inflate_fails(block_views(blocks@), i as int); }
            return Err(ArchiveError::Decompression);
        }
        proof {
            let d = block_views(blocks@).subrange(0, i + 1);
            assert(d.drop_last() =~= block_views(blocks@).subrange(0, i as int));
        }
        crate::wire::put_bytes(&mut out, part.as_slice());
        i = i + 1;
    }
    assert(block_views(blocks@).subrange(0, blocks@.len() as int) =~= block_views(blocks@));
    Ok(out)
}

/// Where one block fails to decompress to its inflate length, so does the whole sequence.
pub proof fn lemma_inflate_fails(bs: Seq<(usize, Seq<u8>)>, i: int)
    requires
        0 <= i < bs.len(),
        block_fails(bs[i]),
    ensures
        inflate_all(bs) is None,
    decreases bs.len(),
{
    if i < bs.len() - 1 {
        lemma_inflate_fails(bs.drop_last(), i);
    }
}

} // verus!

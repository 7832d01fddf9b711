//! Writing an archive: block streams, the filename table and the directory.
use vstd::prelude::*;
use crate::error::ArchiveError;
use crate::wire::{le32, lemma_le32, put_u32_le, put_bytes};
use crate::compression::{Block, block_views, compresses, deflate_blocks, is_deflation_of, chunk_count, chunk_of, zlib_compress_of};
use crate::names::{FILENAMES_CRC_VALUE, filename_table, name_fits, write_filenames};
use crate::directory::{magic, PFS_VERSION};
use crate::checksum::{name_crc, file_crc};
use crate::text::{lower_of, to_lower};
use crate::table::keys_of;

verus! {


/// One block's record: `u32` compressed length, `u32` inflate length, the bytes.
pub open spec fn block_record(b: (usize, Seq<u8>)) -> Seq<u8> {
    le32(b.1.len() as u32) + le32(b.0 as u32) + b.1
}

/// The records of `bs`, one after another.
pub open spec fn stream_of(bs: Seq<(usize, Seq<u8>)>) -> Seq<u8>
    decreases bs.len(),
{
    if bs.len() == 0 {
        Seq::empty()
    } else {
        stream_of(bs.drop_last()) + block_record(bs.last())
    }
}

/// The blocks that deflating `data` chunk by chunk gives.
pub open spec fn deflation(data: Seq<u8>) -> Seq<(usize, Seq<u8>)> {
    Seq::new(chunk_count(data.len()), |i: int| (chunk_of(data, i).len() as usize, zlib_compress_of(chunk_of(data, i))->Some_0))
}

/// The block stream of `data` deflated chunk by chunk.
pub open spec fn deflated_stream(data: Seq<u8>) -> Seq<u8> {
    stream_of(deflation(data))
}

/// Blocks that are the deflation of `data` have the views that `deflation` gives.
pub proof fn lemma_deflation_views(bs: Seq<Block>, data: Seq<u8>)
    requires
        is_deflation_of(bs, data),
    ensures
        block_views(bs) == deflation(data),
{
    assert(block_views(bs) =~= deflation(data));
}

/// Appends the records of `blocks` to `out`.
pub fn put_blocks(out: &mut Vec<u8>, blocks: &Vec<Block>)
    ensures
        final(out)@ == old(out)@ + stream_of(block_views(blocks@)),
{
    let mut i: usize = 0;
    while i < blocks.len()
        invariant
            0 <= i <= blocks@.len(),
            out@ == old(out)@ + stream_of(block_views(blocks@).subrange(0, i as int)),
        decreases blocks@.len() - i,
    {
        let b = &blocks[i];
        put_u32_le(out, b.data.len() as u32);
        put_u32_le(out, b.inflate_length as u32);
        put_bytes(out, b.data.as_slice());
        proof {
            let vs = block_views(blocks@).subrange(0, i + 1);
            assert(vs.drop_last() =~= block_views(blocks@).subrange(0, i as int));
            assert(out@ =~= old(out)@ + stream_of(vs));
        }
        i = i + 1;
    }
    assert(block_views(blocks@).subrange(0, blocks@.len() as int) =~= block_views(blocks@));
}

/// The uncompressed bytes of blocks, or `None` where one does not decompress.
pub open spec fn inflated(bs: Seq<(usize, Seq<u8>)>) -> Option<Seq<u8>> {
    crate::compression::inflate_all(bs)
}

/// The block stream of each of `vals`.
pub open spec fn streams_of(vals: Seq<Seq<(usize, Seq<u8>)>>) -> Seq<Seq<u8>> {
    vals.map_values(|v: Seq<(usize, Seq<u8>)>| stream_of(v))
}

/// One file of the directory: its CRC, its uncompressed size and its block stream.
pub struct EmitFile {
    pub crc: u32,
    pub size: u32,
    pub stream: Vec<u8>,
}

pub open spec fn emit_view(fs: Seq<EmitFile>) -> Seq<(u32, u32, Seq<u8>)> {
    fs.map_values(|f: EmitFile| (f.crc, f.size, f.stream@))
}

/// The data section: the streams, one after another.
pub open spec fn data_of(fs: Seq<(u32, u32, Seq<u8>)>) -> Seq<u8>
    decreases fs.len(),
{
    if fs.len() == 0 {
        Seq::empty()
    } else {
        data_of(fs.drop_last()) + fs.last().2
    }
}

/// The directory entries: CRC, absolute offset of the stream, size.
pub open spec fn dir_records(fs: Seq<(u32, u32, Seq<u8>)>) -> Seq<u8>
    decreases fs.len(),
{
    if fs.len() == 0 {
        Seq::empty()
    } else {
        dir_records(fs.drop_last()) + le32(fs.last().0) + le32((12 + data_of(fs.drop_last()).len()) as u32) + le32(fs.last().1)
    }
}

/// The header: directory offset, magic, version.
pub open spec fn header_of(data_len: nat) -> Seq<u8> {
    le32((data_len + 12) as u32) + magic() + le32(PFS_VERSION)
}

/// The whole archive: header, data section, entry count, entries.
pub open spec fn archive_image(fs: Seq<(u32, u32, Seq<u8>)>) -> Seq<u8> {
    header_of(data_of(fs).len()) + data_of(fs) + le32(fs.len() as u32) + dir_records(fs)
}

/// Every offset of the image fits in a `u32`.
pub open spec fn image_fits(fs: Seq<(u32, u32, Seq<u8>)>) -> bool {
    12 + data_of(fs).len() <= u32::MAX && fs.len() <= u32::MAX
}

proof fn lemma_data_prefix(fs: Seq<(u32, u32, Seq<u8>)>, i: int)
    requires
        0 <= i <= fs.len(),
    ensures
        data_of(fs.subrange(0, i)).len() <= data_of(fs).len(),
    decreases fs.len() - i,
{
    if i < fs.len() {
        lemma_data_prefix(fs, i + 1);
        assert(fs.subrange(0, i + 1).drop_last() =~= fs.subrange(0, i));
    } else {
        assert(fs.subrange(0, i) =~= fs);
    }
}

/// Lays out the header, the streams of `files` and the directory.
pub fn assemble(files: &Vec<EmitFile>) -> (r: Vec<u8>)
    requires
        image_fits(emit_view(files@)),
    ensures
        r@ == archive_image(emit_view(files@)),
{
    let ghost fs = emit_view(files@);
    let mut data: Vec<u8> = Vec::new();
    let mut dir: Vec<u8> = Vec::new();
    let mut i: usize = 0;
    while i < files.len()
        invariant
            fs == emit_view(files@),
            image_fits(fs),
            0 <= i <= files@.len(),
            data@ == data_of(fs.subrange(0, i as int)),
            dir@ == dir_records(fs.subrange(0, i as int)),
        decreases files@.len() - i,
    {
        proof {
            lemma_data_prefix(fs, i + 1);
            assert(fs.subrange(0, i + 1).drop_last() =~= fs.subrange(0, i as int));
        }
        let f = &files[i];
        let offset = data.len() + 12;
        put_u32_le(&mut dir, f.crc);
        put_u32_le(&mut dir, offset as u32);
        put_u32_le(&mut dir, f.size);
        put_bytes(&mut data, f.stream.as_slice());
        proof {
            let p = fs.subrange(0, i + 1);
            assert(data@ =~= data_of(p));
            assert(dir@ =~= dir_records(p));
        }
        i = i + 1;
    }
    assert(fs.subrange(0, fs.len() as int) =~= fs);
    let mut out: Vec<u8> = Vec::new();
    put_u32_le(&mut out, data.len() as u32 + 12);
    out.push(0x50u8);
    out.push(0x46u8);
    out.push(0x53u8);
    out.push(0x20u8);
    put_u32_le(&mut out, PFS_VERSION);
    put_bytes(&mut out, data.as_slice());
    put_u32_le(&mut out, files.len() as u32);
    put_bytes(&mut out, dir.as_slice());
    assert(out@ =~= archive_image(fs));
    out
}

/// The first twelve bytes of an image are the directory offset (the data
/// section's length plus twelve), `"PFS "` and the version.
pub proof fn lemma_image_header(fs: Seq<(u32, u32, Seq<u8>)>)
    ensures
        archive_image(fs).subrange(0, 12) == le32((data_of(fs).len() + 12) as u32) + magic() + le32(PFS_VERSION),
        archive_image(fs).subrange(12, 12 + data_of(fs).len() as int) == data_of(fs),
{
    lemma_le32((data_of(fs).len() + 12) as u32);
    lemma_le32(PFS_VERSION);
    let img = archive_image(fs);
    assert(img.subrange(0, 12) =~= header_of(data_of(fs).len()));
    assert(img.subrange(12, 12 + data_of(fs).len() as int) =~= data_of(fs));
}

/// The directory records of the files, before the filename table's.
pub open spec fn file_records(keys: Seq<Seq<char>>, sizes: Seq<usize>, streams: Seq<Seq<u8>>) -> Seq<(u32, u32, Seq<u8>)> {
    Seq::new(keys.len(), |i: int| (name_crc(lower_of(keys[i])), sizes[i] as u32, streams[i]))
}

/// All records of a saved archive: the files, then the filename table.
pub open spec fn saved_records(keys: Seq<Seq<char>>, sizes: Seq<usize>, streams: Seq<Seq<u8>>) -> Seq<(u32, u32, Seq<u8>)> {
    file_records(keys, sizes, streams).push(
        (FILENAMES_CRC_VALUE, filename_table(keys).len() as u32, deflated_stream(filename_table(keys))),
    )
}

/// Every name, size and the filename table fit their `u32` fields.
pub open spec fn fields_fit(keys: Seq<Seq<char>>, sizes: Seq<usize>) -> bool {
    &&& keys.len() < u32::MAX
    &&& forall|i: int| 0 <= i < keys.len() ==> name_fits(#[trigger] keys[i])
    &&& forall|i: int| 0 <= i < sizes.len() ==> #[trigger] sizes[i] <= u32::MAX
    &&& filename_table(keys).len() <= u32::MAX
}

/// Every count, length and offset of the saved archive fits its `u32` field.
pub open spec fn saveable(keys: Seq<Seq<char>>, sizes: Seq<usize>, streams: Seq<Seq<u8>>) -> bool {
    &&& fields_fit(keys, sizes)
    &&& image_fits(saved_records(keys, sizes, streams))
}

/// Saves files given by name, uncompressed size and block stream: computes
/// each entry's CRC over the lowercased name, appends the deflated filename
/// table under the sentinel CRC, and lays out the archive.
pub fn save_streams(keys: &Vec<String>, sizes: &Vec<usize>, streams: Vec<Vec<u8>>) -> (r: Result<Vec<u8>, ArchiveError>)
    requires
        keys@.len() == sizes@.len(),
        keys@.len() == streams@.len(),
    ensures
        ({
            let ks = keys_of(keys@);
            let ss = streams@.map_values(|s: Vec<u8>| s@);
            &&& r matches Ok(b) ==> saveable(ks, sizes@, ss) && b@ == archive_image(saved_records(ks, sizes@, ss))
            &&& r matches Err(e) ==> (e is Compression && !compresses(filename_table(ks))) || (e is Unknown && !saveable(ks, sizes@, ss))
            &&& saveable(ks, sizes@, ss) ==> !(r matches Err(ArchiveError::Unknown))
            &&& r is Ok ==> inflated(deflation(filename_table(ks))) == Some(filename_table(ks))
        }),
{
    let ghost ks = keys_of(keys@);
    let ghost ss = streams@.map_values(|s: Vec<u8>| s@);
    if keys.len() >= u32::MAX as usize {
        return Err(ArchiveError::Unknown);
    }
    let mut i: usize = 0;
    while i < keys.len()
        invariant
            0 <= i <= keys@.len(),
            keys@.len() == sizes@.len(),
            ks == keys_of(keys@),
            forall|j: int| 0 <= j < i ==> name_fits(#[trigger] keys@[j]@) && sizes@[j] <= u32::MAX,
        decreases keys@.len() - i,
    {
        if keys[i].as_str().as_bytes().len() >= u32::MAX as usize || sizes[i] > u32::MAX as usize {
            proof {
                assert(ks[i as int] == keys@[i as int]@);
            }
            return Err(ArchiveError::Unknown);
        }
        i = i + 1;
    }
    assert forall|j: int| 0 <= j < ks.len() implies name_fits(#[trigger] ks[j]) by {
        assert(ks[j] == keys@[j]@);
    }
    let table = write_filenames(keys.as_slice());
    assert(keys@.map_values(|s: String| s@) == ks);
    if table.len() > u32::MAX as usize {
        return Err(ArchiveError::Unknown);
    }
    let table_blocks = match deflate_blocks(table.as_slice()) {
        Ok(bs) => bs,
        Err(e) => return Err(e),
    };
    let mut table_stream: Vec<u8> = Vec::new();
    put_blocks(&mut table_stream, &table_blocks);
    proof {
        lemma_deflation_views(table_blocks@, table@);
        crate::compression::lemma_inflate_deflation(table_blocks@, table@);
    }
    let mut files: Vec<EmitFile> = Vec::new();
    let mut streams = streams;
    let mut k: usize = 0;
    let ghost n = keys@.len();
    let ghost fr = file_records(ks, sizes@, ss);
    let mut rest: Vec<Vec<u8>> = Vec::new();
    assert forall|j: int| 0 <= j < sizes@.len() implies #[trigger] sizes@[j] <= u32::MAX by {
        assert(name_fits(keys@[j]@));
    }
    assert(fields_fit(ks, sizes@));
    while streams.len() > 0
        invariant
            fields_fit(ks, sizes@),
            ks == keys_of(keys@),
            table@ == filename_table(ks),
            inflated(deflation(filename_table(ks))) == Some(filename_table(ks)),
            table_stream@ == deflated_stream(table@),
            streams@.len() + rest@.len() == n,
            forall|j: int| 0 <= j < streams@.len() ==> (#[trigger] streams@[j])@ == ss[j],
            forall|j: int| 0 <= j < rest@.len() ==> (#[trigger] rest@[j])@ == ss[n - 1 - j],
        decreases streams@.len(),
    {
        let s = streams.pop().unwrap();
        rest.push(s);
    }
    while k < keys.len()
        invariant
            n == keys@.len(),
            n == sizes@.len(),
            ks == keys_of(keys@),
            fields_fit(ks, sizes@),
            table@ == filename_table(ks),
            inflated(deflation(filename_table(ks))) == Some(filename_table(ks)),
            table_stream@ == deflated_stream(table@),
            fr == file_records(ks, sizes@, ss),
            0 <= k <= n,
            rest@.len() == n - k,
            forall|j: int| 0 <= j < rest@.len() ==> (#[trigger] rest@[j])@ == ss[n - 1 - j],
            emit_view(files@) == fr.subrange(0, k as int),
        decreases n - k,
    {
        let lower = to_lower(keys[k].as_str());
        let crc = file_crc(lower.as_str());
        let stream = rest.pop().unwrap();
        let ghost before = emit_view(files@);
        files.push(EmitFile { crc, size: sizes[k] as u32, stream });
        proof {
            assert(ks[k as int] == keys@[k as int]@);
            assert(emit_view(files@) =~= before.push(fr[k as int]));
            assert(fr.subrange(0, k + 1) =~= fr.subrange(0, k as int).push(fr[k as int]));
        }
        k = k + 1;
    }
    let ghost before = emit_view(files@);
    files.push(EmitFile { crc: FILENAMES_CRC_VALUE, size: table.len() as u32, stream: table_stream });
    proof {
        assert(fr.subrange(0, n as int) =~= fr);
        assert(emit_view(files@) =~= saved_records(ks, sizes@, ss));
        lemma_data_size(emit_view(files@));
    }
    if !image_fits_exec(&files) {
        return Err(ArchiveError::Unknown);
    }
    Ok(assemble(&files))
}

proof fn lemma_data_size(fs: Seq<(u32, u32, Seq<u8>)>)
    ensures
        data_of(fs).len() == data_len_sum(fs),
    decreases fs.len(),
{
    if fs.len() > 0 {
        lemma_data_size(fs.drop_last());
    }
}

spec fn data_len_sum(fs: Seq<(u32, u32, Seq<u8>)>) -> nat
    decreases fs.len(),
{
    if fs.len() == 0 { 0 } else { data_len_sum(fs.drop_last()) + fs.last().2.len() }
}

/// Whether the image of `files` fits its 32-bit offsets.
fn image_fits_exec(files: &Vec<EmitFile>) -> (r: bool)
    ensures
        r == image_fits(emit_view(files@)),
{
    let ghost fs = emit_view(files@);
    proof { lemma_data_size(fs); }
    if files.len() > u32::MAX as usize {
        return false;
    }
    let mut total: usize = 12;
    let mut i: usize = 0;
    while i < files.len()
        invariant
            fs == emit_view(files@),
            0 <= i <= files@.len(),
            total == 12 + data_len_sum(fs.subrange(0, i as int)),
            data_of(fs).len() == data_len_sum(fs),
            total <= u32::MAX,
        decreases files@.len() - i,
    {
        proof {
            assert(fs.subrange(0, i + 1).drop_last() =~= fs.subrange(0, i as int));
            lemma_sum_prefix(fs, i + 1);
        }
        let l = files[i].stream.len();
        assert(fs[i as int].2.len() == l);
        assert(data_len_sum(fs.subrange(0, i + 1)) == data_len_sum(fs.subrange(0, i as int)) + l);
        if l > u32::MAX as usize - total {
            return false;
        }
        total = total + l;
        i = i + 1;
    }
    assert(fs.subrange(0, fs.len() as int) =~= fs);
    true
}

proof fn lemma_sum_prefix(fs: Seq<(u32, u32, Seq<u8>)>, i: int)
    requires
        0 <= i <= fs.len(),
    ensures
        data_len_sum(fs.subrange(0, i)) <= data_len_sum(fs),
    decreases fs.len() - i,
{
    if i < fs.len() {
        lemma_sum_prefix(fs, i + 1);
        assert(fs.subrange(0, i + 1).drop_last() =~= fs.subrange(0, i));
    } else {
        assert(fs.subrange(0, i) =~= fs);
    }
}

} // verus!

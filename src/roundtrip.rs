//! What parsing gives back for an archive that the emit path laid out.
use vstd::prelude::*;
use crate::wire::{le32, lemma_le32, lemma_read_at};
use crate::directory::{DirEntry, PFS_VERSION, magic, parse_header, parse_directory, parse_entries, entry_at};
use crate::compression::block_views;
use crate::emit::{saved_records, saveable, streams_of, inflated, deflation, archive_image, data_of, dir_records, header_of, image_fits, stream_of, block_record};
use crate::names::{name_record, name_records, filename_table, decode_records, decode_table, name_fits, TableFault};
use vstd::utf8::{encode_utf8, encode_utf8_valid_utf8, encode_utf8_decode_utf8};
use crate::compression::{chunk_count, inflate_all};
use crate::checksum::name_crc;
use crate::text::lower_of;
use crate::table::{table, unique, lemma_table_at};
use crate::names::FILENAMES_CRC_VALUE;
use crate::directory::{parse_archive, parsed_contents, table_names, resolved_keys, resolve, last_with_crc, BlockRef, walk_blocks, walk_all, ref_views};

verus! {

/// The directory entries that an image of `fs` holds.
pub open spec fn image_entries(fs: Seq<(u32, u32, Seq<u8>)>) -> Seq<DirEntry> {
    Seq::new(fs.len(), |i: int| DirEntry {
        crc: fs[i].0,
        offset: (12 + data_of(fs.subrange(0, i)).len()) as u32,
        size: fs[i].1,
    })
}

/// The record of entry `i`: CRC, offset, size.
pub open spec fn entry_record(fs: Seq<(u32, u32, Seq<u8>)>, i: int) -> Seq<u8> {
    le32(fs[i].0) + le32((12 + data_of(fs.subrange(0, i)).len()) as u32) + le32(fs[i].1)
}

proof fn lemma_dir_records_len(fs: Seq<(u32, u32, Seq<u8>)>)
    ensures
        dir_records(fs).len() == 12 * fs.len(),
    decreases fs.len(),
{
    if fs.len() > 0 {
        lemma_dir_records_len(fs.drop_last());
        lemma_le32(fs.last().0);
        lemma_le32(fs.last().1);
        lemma_le32((12 + data_of(fs.drop_last()).len()) as u32);
    }
}

proof fn lemma_dir_records_prefix(fs: Seq<(u32, u32, Seq<u8>)>, j: int)
    requires
        0 <= j <= fs.len(),
    ensures
        dir_records(fs).subrange(0, 12 * j) == dir_records(fs.subrange(0, j)),
    decreases fs.len() - j,
{
    lemma_dir_records_len(fs);
    if j == fs.len() {
        assert(fs.subrange(0, j) =~= fs);
        assert(dir_records(fs).subrange(0, 12 * j) =~= dir_records(fs));
    } else {
        lemma_dir_records_prefix(fs, j + 1);
        let p = fs.subrange(0, j + 1);
        assert(p.drop_last() =~= fs.subrange(0, j));
        lemma_dir_records_len(fs.subrange(0, j));
        assert(dir_records(p).subrange(0, 12 * j) =~= dir_records(fs.subrange(0, j)));
        assert(dir_records(fs).subrange(0, 12 * j) =~= dir_records(fs).subrange(0, 12 * (j + 1)).subrange(0, 12 * j));
    }
}

proof fn lemma_dir_records_at(fs: Seq<(u32, u32, Seq<u8>)>, i: int)
    requires
        0 <= i < fs.len(),
    ensures
        dir_records(fs).subrange(12 * i, 12 * i + 12) == entry_record(fs, i),
{
    lemma_dir_records_prefix(fs, i + 1);
    let p = fs.subrange(0, i + 1);
    assert(p.drop_last() =~= fs.subrange(0, i));
    lemma_dir_records_len(fs.subrange(0, i));
    lemma_le32(fs[i].0);
    lemma_le32(fs[i].1);
    lemma_le32((12 + data_of(fs.subrange(0, i)).len()) as u32);
    assert(dir_records(p).subrange(12 * i, 12 * i + 12) =~= entry_record(fs, i));
    lemma_dir_records_len(fs);
    assert(12 * (i + 1) == 12 * i + 12 && 12 * i + 12 <= 12 * fs.len()) by (nonlinear_arith)
        requires 0 <= i < fs.len();
    assert(dir_records(fs).subrange(12 * i, 12 * i + 12) =~= dir_records(fs).subrange(0, 12 * (i + 1)).subrange(12 * i, 12 * i + 12));
}

/// Parsing the header and directory of an image gives back its entries:
/// each file's CRC and size, and the offset where its stream starts.
pub proof fn lemma_image_directory(fs: Seq<(u32, u32, Seq<u8>)>)
    requires
        image_fits(fs),
    ensures
        parse_directory(archive_image(fs)) == Ok::<Seq<DirEntry>, crate::directory::ParseFault>(image_entries(fs)),
{
    let d = data_of(fs);
    let img = archive_image(fs);
    let n = fs.len() as int;
    lemma_dir_records_len(fs);
    lemma_le32((d.len() + 12) as u32);
    lemma_le32(PFS_VERSION);
    lemma_le32(n as u32);
    let h = header_of(d.len());
    assert(h.len() == 12);
    assert(img.len() == 12 + d.len() + 4 + 12 * n);
    assert(img.subrange(0, 4) =~= le32((d.len() + 12) as u32));
    assert(img.subrange(4, 8) =~= magic());
    assert(img.subrange(8, 12) =~= le32(PFS_VERSION));
    lemma_read_at(img, 0, (d.len() + 12) as u32);
    lemma_read_at(img, 8, PFS_VERSION);
    assert(parse_header(img) == Ok::<u32, crate::directory::ParseFault>((d.len() + 12) as u32));
    let dir = 12 + d.len() as int;
    assert(img.subrange(dir, dir + 4) =~= le32(n as u32));
    lemma_read_at(img, dir, n as u32);
    let base = dir + 4;
    let r = dir_records(fs);
    assert forall|i: int| 0 <= i < n implies #[trigger] entry_at(img, base + 12 * i) == image_entries(fs)[i] by {
        lemma_dir_records_at(fs, i);
        let off = (12 + data_of(fs.subrange(0, i)).len()) as u32;
        lemma_le32(fs[i].0);
        lemma_le32(fs[i].1);
        lemma_le32(off);
        assert(0 <= 12 * i && 12 * i + 12 <= 12 * n) by (nonlinear_arith)
            requires 0 <= i < n;
        let e = img.subrange(base + 12 * i, base + 12 * i + 12);
        assert(e =~= r.subrange(12 * i, 12 * i + 12));
        assert(e == entry_record(fs, i));
        assert(img.subrange(base + 12 * i, base + 12 * i + 4) =~= e.subrange(0, 4));
        assert(img.subrange(base + 12 * i + 4, base + 12 * i + 8) =~= e.subrange(4, 8));
        assert(img.subrange(base + 12 * i + 8, base + 12 * i + 12) =~= e.subrange(8, 12));
        assert(e.subrange(0, 4) =~= le32(fs[i].0));
        assert(e.subrange(4, 8) =~= le32(off));
        assert(e.subrange(8, 12) =~= le32(fs[i].1));
        lemma_read_at(img, base + 12 * i, fs[i].0);
        lemma_read_at(img, base + 12 * i + 4, off);
        lemma_read_at(img, base + 12 * i + 8, fs[i].1);
    }
    assert(parse_entries(img, base, n as nat) == Some(image_entries(fs))) by {
        assert(Seq::new(n as nat, |i: int| entry_at(img, base + 12 * i)) =~= image_entries(fs));
    }
}

/// The sum of the inflate lengths of `bs`.
pub open spec fn views_size(bs: Seq<(usize, Seq<u8>)>) -> nat
    decreases bs.len(),
{
    if bs.len() == 0 {
        0
    } else {
        bs[0].0 as nat + views_size(bs.drop_first())
    }
}

/// Blocks that a stream can hold and give back: each decompresses to at
/// least one byte and every length fits its `u32` field.
pub open spec fn blocks_storable(bs: Seq<(usize, Seq<u8>)>) -> bool {
    forall|k: int| 0 <= k < bs.len() ==> 1 <= (#[trigger] bs[k]).0 <= u32::MAX && bs[k].1.len() <= u32::MAX
}

proof fn lemma_stream_first(bs: Seq<(usize, Seq<u8>)>)
    requires
        bs.len() > 0,
    ensures
        stream_of(bs) == block_record(bs[0]) + stream_of(bs.drop_first()),
    decreases bs.len(),
{
    if bs.len() == 1 {
        assert(bs.drop_last() =~= Seq::<(usize, Seq<u8>)>::empty());
        assert(bs.drop_first() =~= Seq::<(usize, Seq<u8>)>::empty());
        assert(stream_of(bs.drop_last()) == Seq::<u8>::empty());
        assert(bs.last() == bs[0]);
        assert(stream_of(bs) =~= block_record(bs[0]));
    } else {
        lemma_stream_first(bs.drop_last());
        assert(bs.drop_first().drop_last() =~= bs.drop_last().drop_first());
        assert(bs.drop_first().last() == bs.last());
        assert(stream_of(bs) =~= block_record(bs[0]) + stream_of(bs.drop_first()));
    }
}

/// Where the records of `bs` lie at `pos` in `input`, walking from `pos`
/// until `acc` plus their inflate lengths is reached gives back `bs`.
pub proof fn lemma_walk_stream(input: Seq<u8>, pos: int, acc: int, bs: Seq<(usize, Seq<u8>)>)
    requires
        0 <= pos,
        0 <= acc,
        input.len() <= usize::MAX,
        pos + stream_of(bs).len() <= input.len(),
        input.subrange(pos, pos + stream_of(bs).len()) == stream_of(bs),
        blocks_storable(bs),
    ensures
        walk_blocks(input, pos, acc, acc + views_size(bs)) matches Some(refs) && ref_views(input, refs) == bs,
    decreases bs.len(),
{
    if bs.len() == 0 {
        assert(ref_views(input, Seq::<BlockRef>::empty()) =~= bs);
    } else {
        let b = bs[0];
        let rest = bs.drop_first();
        lemma_stream_first(bs);
        lemma_le32(b.1.len() as u32);
        lemma_le32(b.0 as u32);
        let rec = block_record(b);
        let st = stream_of(bs);
        assert(rec.len() == 8 + b.1.len());
        assert(input.subrange(pos, pos + 4) =~= st.subrange(0, 4));
        assert(st.subrange(0, 4) =~= le32(b.1.len() as u32));
        assert(input.subrange(pos + 4, pos + 8) =~= st.subrange(4, 8));
        assert(st.subrange(4, 8) =~= le32(b.0 as u32));
        lemma_read_at(input, pos, b.1.len() as u32);
        lemma_read_at(input, pos + 4, b.0 as u32);
        let d = b.1.len() as int;
        let next = pos + 8 + d;
        assert(input.subrange(next, next + stream_of(rest).len()) =~= st.subrange(8 + d, st.len() as int));
        assert(st.subrange(8 + d, st.len() as int) =~= stream_of(rest));
        assert(input.subrange(pos + 8, next) =~= st.subrange(8, 8 + d));
        assert(st.subrange(8, 8 + d) =~= b.1);
        assert(blocks_storable(rest)) by {
            assert forall|k: int| 0 <= k < rest.len() implies 1 <= (#[trigger] rest[k]).0 <= u32::MAX && rest[k].1.len() <= u32::MAX by {
                assert(rest[k] == bs[k + 1]);
            }
        }
        assert(1 <= bs[0].0);
        lemma_walk_stream(input, next, acc + b.0, rest);
        let refs_rest = walk_blocks(input, next, acc + b.0, acc + b.0 + views_size(rest))->Some_0;
        let head = BlockRef { deflate_length: d as usize, inflate_length: b.0, offset: (pos + 8) as usize };
        assert(walk_blocks(input, pos, acc, acc + views_size(bs)) == Some(seq![head] + refs_rest));
        let all = seq![head] + refs_rest;
        assert forall|k: int| 0 <= k < bs.len() implies ref_views(input, all)[k] == bs[k] by {
            if k > 0 {
                assert(all[k] == refs_rest[k - 1]);
                assert(ref_views(input, refs_rest)[k - 1] == rest[k - 1]);
            } else {
                assert(head.offset == pos + 8);
            }
        }
        assert(ref_views(input, all) =~= bs);
    }
}

proof fn lemma_data_prefix(fs: Seq<(u32, u32, Seq<u8>)>, j: int)
    requires
        0 <= j <= fs.len(),
    ensures
        data_of(fs.subrange(0, j)).len() <= data_of(fs).len(),
        data_of(fs).subrange(0, data_of(fs.subrange(0, j)).len() as int) == data_of(fs.subrange(0, j)),
    decreases fs.len() - j,
{
    if j == fs.len() {
        assert(fs.subrange(0, j) =~= fs);
        assert(data_of(fs).subrange(0, data_of(fs).len() as int) =~= data_of(fs));
    } else {
        lemma_data_prefix(fs, j + 1);
        let p = fs.subrange(0, j + 1);
        assert(p.drop_last() =~= fs.subrange(0, j));
        let a = data_of(fs.subrange(0, j)).len() as int;
        assert(data_of(p).subrange(0, a) =~= data_of(fs.subrange(0, j)));
        assert(data_of(fs).subrange(0, a) =~= data_of(fs).subrange(0, data_of(p).len() as int).subrange(0, a));
    }
}

/// The stream of file `i` lies in the image at the offset its entry gives.
pub proof fn lemma_stream_in_image(fs: Seq<(u32, u32, Seq<u8>)>, i: int)
    requires
        0 <= i < fs.len(),
    ensures
        ({
            let off = 12 + data_of(fs.subrange(0, i)).len() as int;
            &&& off + fs[i].2.len() <= 12 + data_of(fs).len()
            &&& archive_image(fs).subrange(off, off + fs[i].2.len()) == fs[i].2
        }),
{
    lemma_data_prefix(fs, i + 1);
    let p = fs.subrange(0, i + 1);
    assert(p.drop_last() =~= fs.subrange(0, i));
    let a = data_of(fs.subrange(0, i)).len() as int;
    let d = data_of(fs);
    let img = archive_image(fs);
    lemma_le32((d.len() + 12) as u32);
    lemma_le32(PFS_VERSION);
    assert(header_of(d.len()).len() == 12);
    assert(img.subrange(12 + a, 12 + a + fs[i].2.len()) =~= d.subrange(a, a + fs[i].2.len()));
    assert(d.subrange(a, a + fs[i].2.len()) =~= data_of(p).subrange(a, a + fs[i].2.len()));
}

/// The streams of an image hold the blocks `vs`, and each entry's size is
/// the sum of their inflate lengths.
pub open spec fn streams_agree(fs: Seq<(u32, u32, Seq<u8>)>, vs: Seq<Seq<(usize, Seq<u8>)>>) -> bool {
    &&& fs.len() == vs.len()
    &&& forall|i: int| 0 <= i < fs.len() ==> {
        &&& (#[trigger] fs[i]).2 == stream_of(vs[i])
        &&& fs[i].1 as int == views_size(vs[i])
        &&& blocks_storable(vs[i])
    }
}

/// Walking every entry of an image gives back the blocks of each stream.
pub proof fn lemma_image_walks(fs: Seq<(u32, u32, Seq<u8>)>, vs: Seq<Seq<(usize, Seq<u8>)>>)
    requires
        image_fits(fs),
        streams_agree(fs, vs),
        archive_image(fs).len() <= usize::MAX,
    ensures
        walk_all(archive_image(fs), image_entries(fs)) matches Some(ws) && ws.len() == fs.len()
            && forall|i: int| 0 <= i < fs.len() ==> ref_views(archive_image(fs), #[trigger] ws[i]) == vs[i],
{
    let img = archive_image(fs);
    let es = image_entries(fs);
    let ws = Seq::new(fs.len(), |i: int| walk_blocks(img, es[i].offset as int, 0, es[i].size as int)->Some_0);
    assert forall|i: int| 0 <= i < fs.len() implies
        (#[trigger] walk_blocks(img, es[i].offset as int, 0, es[i].size as int)) == Some(ws[i])
        && ref_views(img, ws[i]) == vs[i] by {
        lemma_stream_in_image(fs, i);
        lemma_data_prefix(fs, i);
        assert(es[i].offset as int == 12 + data_of(fs.subrange(0, i)).len());
        lemma_le32((data_of(fs).len() + 12) as u32);
        lemma_le32(PFS_VERSION);
        assert(img.len() >= 12 + data_of(fs).len());
        lemma_walk_stream(img, es[i].offset as int, 0, vs[i]);
    }
    lemma_walk_all_prefix(img, es, ws, fs.len() as int);
    assert(es.subrange(0, fs.len() as int) =~= es);
    assert(ws.subrange(0, fs.len() as int) =~= ws);
}

proof fn lemma_walk_all_prefix(img: Seq<u8>, es: Seq<DirEntry>, ws: Seq<Seq<BlockRef>>, j: int)
    requires
        0 <= j <= es.len(),
        ws.len() == es.len(),
        forall|i: int| 0 <= i < es.len() ==> (#[trigger] walk_blocks(img, es[i].offset as int, 0, es[i].size as int)) == Some(ws[i]),
    ensures
        walk_all(img, es.subrange(0, j)) == Some(ws.subrange(0, j)),
    decreases j,
{
    if j > 0 {
        lemma_walk_all_prefix(img, es, ws, j - 1);
        assert(es.subrange(0, j).drop_last() =~= es.subrange(0, j - 1));
        assert(ws.subrange(0, j - 1).push(ws[j - 1]) =~= ws.subrange(0, j));
        assert(walk_blocks(img, es[j - 1].offset as int, 0, es[j - 1].size as int) == Some(ws[j - 1]));
    } else {
        assert(ws.subrange(0, 0) =~= Seq::<Seq<BlockRef>>::empty());
    }
}

proof fn lemma_records_first(ks: Seq<Seq<char>>)
    requires
        ks.len() > 0,
    ensures
        name_records(ks) == name_record(ks[0]) + name_records(ks.drop_first()),
    decreases ks.len(),
{
    if ks.len() == 1 {
        assert(ks.drop_first() =~= Seq::<Seq<char>>::empty());
        assert(name_records(ks.drop_last()) == Seq::<u8>::empty());
        assert(ks.last() == ks[0]);
        assert(name_records(ks) =~= name_record(ks[0]));
    } else {
        lemma_records_first(ks.drop_last());
        assert(ks.drop_first().drop_last() =~= ks.drop_last().drop_first());
        assert(ks.drop_first().last() == ks.last());
        assert(name_records(ks) =~= name_record(ks[0]) + name_records(ks.drop_first()));
    }
}

proof fn lemma_decode_records(input: Seq<u8>, pos: int, ks: Seq<Seq<char>>)
    requires
        0 <= pos,
        pos + name_records(ks).len() <= input.len(),
        input.subrange(pos, pos + name_records(ks).len()) == name_records(ks),
        forall|i: int| 0 <= i < ks.len() ==> name_fits(#[trigger] ks[i]),
    ensures
        decode_records(input, pos, ks.len()) == Ok::<Seq<Seq<char>>, TableFault>(ks),
    decreases ks.len(),
{
    if ks.len() == 0 {
        assert(Seq::<Seq<char>>::empty() =~= ks);
    } else {
        let k = ks[0];
        let rest = ks.drop_first();
        lemma_records_first(ks);
        let e = encode_utf8(k);
        assert(name_fits(k));
        let l = (e.len() + 1) as u32;
        lemma_le32(l);
        let recs = name_records(ks);
        let rec = name_record(k);
        assert(rec.len() == 4 + e.len() + 1);
        assert(input.subrange(pos, pos + 4) =~= recs.subrange(0, 4));
        assert(recs.subrange(0, 4) =~= le32(l));
        lemma_read_at(input, pos, l);
        assert(input.subrange(pos + 4, pos + 4 + l - 1) =~= recs.subrange(4, 4 + e.len() as int));
        assert(recs.subrange(4, 4 + e.len() as int) =~= e);
        encode_utf8_valid_utf8(k);
        encode_utf8_decode_utf8(k);
        let next = pos + 4 + l;
        assert(input.subrange(next, next + name_records(rest).len()) =~= recs.subrange(rec.len() as int, recs.len() as int));
        assert(recs.subrange(rec.len() as int, recs.len() as int) =~= name_records(rest));
        assert forall|i: int| 0 <= i < rest.len() implies name_fits(#[trigger] rest[i]) by {
            assert(rest[i] == ks[i + 1]);
        }
        lemma_decode_records(input, next, rest);
        assert(seq![k] + rest =~= ks);
    }
}

/// Decoding an encoded filename table gives back the names.
pub proof fn lemma_table_round_trip(ks: Seq<Seq<char>>)
    requires
        ks.len() <= u32::MAX,
        forall|i: int| 0 <= i < ks.len() ==> name_fits(#[trigger] ks[i]),
    ensures
        decode_table(filename_table(ks)) == Ok::<Seq<Seq<char>>, TableFault>(ks),
{
    let t = filename_table(ks);
    lemma_le32(ks.len() as u32);
    assert(t.subrange(0, 4) =~= le32(ks.len() as u32));
    lemma_read_at(t, 0, ks.len() as u32);
    assert(t.subrange(4, 4 + name_records(ks).len() as int) =~= name_records(ks));
    lemma_decode_records(t, 4, ks);
}

/// Each name lowercased.
pub open spec fn lowered(keys: Seq<Seq<char>>) -> Seq<Seq<char>> {
    keys.map_values(|k: Seq<char>| lower_of(k))
}

/// Keying a table by the lowercased names keeps each value under its
/// lowercased name, and holds no other names.
pub proof fn lemma_lowered_table<V>(ks: Seq<Seq<char>>, vs: Seq<V>)
    requires
        unique(ks),
        unique(lowered(ks)),
        ks.len() == vs.len(),
    ensures
        forall|k: Seq<char>| #[trigger] table(ks, vs).contains_key(k) ==> table(lowered(ks), vs).contains_key(lower_of(k))
            && table(lowered(ks), vs)[lower_of(k)] == table(ks, vs)[k],
        forall|q: Seq<char>| #[trigger] table(lowered(ks), vs).contains_key(q) ==> exists|k: Seq<char>|
            table(ks, vs).contains_key(k) && lower_of(k) == q,
{
    assert forall|k: Seq<char>| #[trigger] table(ks, vs).contains_key(k) implies table(lowered(ks), vs).contains_key(lower_of(k))
        && table(lowered(ks), vs)[lower_of(k)] == table(ks, vs)[k] by {
        let i = choose|i: int| 0 <= i < ks.len() && ks[i] == k;
        lemma_table_at(ks, vs, i);
        lemma_table_at(lowered(ks), vs, i);
    }
    assert forall|q: Seq<char>| #[trigger] table(lowered(ks), vs).contains_key(q) implies exists|k: Seq<char>|
        table(ks, vs).contains_key(k) && lower_of(k) == q by {
        let i = choose|i: int| 0 <= i < lowered(ks).len() && lowered(ks)[i] == q;
        lemma_table_at(ks, vs, i);
    }
}

/// No two entries share a CRC.
pub open spec fn crcs_distinct(es: Seq<DirEntry>) -> bool {
    forall|i: int, j: int| 0 <= i < es.len() && 0 <= j < es.len() && i != j ==> es[i].crc != es[j].crc
}

proof fn lemma_last_unique(es: Seq<DirEntry>, i: int)
    requires
        crcs_distinct(es),
        0 <= i < es.len(),
    ensures
        last_with_crc(es, es[i].crc) == i,
    decreases es.len(),
{
    if i < es.len() - 1 {
        let init = es.drop_last();
        assert(crcs_distinct(init)) by {
            assert forall|a: int, b: int| 0 <= a < init.len() && 0 <= b < init.len() && a != b implies init[a].crc != init[b].crc by {
                assert(init[a] == es[a] && init[b] == es[b]);
            }
        }
        assert(es.last().crc != es[i].crc);
        lemma_last_unique(init, i);
    }
}

proof fn lemma_resolve_identity(keys: Seq<Seq<char>>, es: Seq<DirEntry>, j: int)
    requires
        0 <= j <= keys.len(),
        keys.len() <= es.len(),
        crcs_distinct(es),
        forall|i: int| 0 <= i < keys.len() ==> (#[trigger] es[i]).crc == name_crc(lower_of(keys[i])),
    ensures
        resolve(keys.subrange(0, j), es) == Seq::new(j as nat, |i: int| (lower_of(keys[i]), i)),
    decreases j,
{
    if j == 0 {
        assert(resolve(keys.subrange(0, 0), es) =~= Seq::new(0, |i: int| (lower_of(keys[i]), i)));
    } else {
        lemma_resolve_identity(keys, es, j - 1);
        let ks = keys.subrange(0, j);
        assert(ks.drop_last() =~= keys.subrange(0, j - 1));
        let prev = resolve(ks.drop_last(), es);
        assert(es[j - 1].crc == name_crc(lower_of(keys[j - 1])));
        lemma_last_unique(es, j - 1);
        assert(!(exists|m: int| 0 <= m < prev.len() && (#[trigger] prev[m]).1 == j - 1));
        assert(resolve(ks, es) =~= Seq::new(j as nat, |i: int| (lower_of(keys[i]), i)));
    }
}

proof fn lemma_views_size_last(vs: Seq<(usize, Seq<u8>)>)
    requires
        vs.len() > 0,
    ensures
        views_size(vs) == views_size(vs.drop_last()) + vs.last().0,
    decreases vs.len(),
{
    if vs.len() > 1 {
        lemma_views_size_last(vs.drop_first());
        assert(vs.drop_first().drop_last() =~= vs.drop_last().drop_first());
        assert(vs.drop_last()[0] == vs[0]);
        assert(vs.drop_first().last() == vs.last());
        assert(views_size(vs.drop_last()) == vs[0].0 + views_size(vs.drop_last().drop_first()));
    } else {
        assert(vs.drop_last().len() == 0);
        assert(vs.drop_first().len() == 0);
        assert(views_size(vs.drop_first()) == 0);
        assert(views_size(vs.drop_last()) == 0);
        assert(vs.last() == vs[0]);
    }
}

/// What inflating blocks gives is as long as their inflate lengths add up to.
pub proof fn lemma_inflate_len(bs: Seq<(usize, Seq<u8>)>)
    ensures
        inflate_all(bs) matches Some(x) ==> x.len() == views_size(bs),
    decreases bs.len(),
{
    if bs.len() > 0 {
        lemma_inflate_len(bs.drop_last());
        lemma_views_size_last(bs);
    }
}

/// The inflate lengths of blocks add up the same way in both orders.
pub proof fn lemma_blocks_size_views(bs: Seq<crate::compression::Block>)
    ensures
        crate::compression::blocks_size(bs) == views_size(block_views(bs)),
    decreases bs.len(),
{
    if bs.len() > 0 {
        lemma_blocks_size_views(bs.drop_last());
        lemma_views_size_last(block_views(bs));
        assert(block_views(bs).drop_last() =~= block_views(bs.drop_last()));
    }
}

proof fn lemma_deflation_size_from(d: Seq<u8>, k: int)
    requires
        0 <= k <= chunk_count(d.len()),
    ensures
        views_size(deflation(d).subrange(k, chunk_count(d.len()) as int)) == d.len() - (if k * 8192 < d.len() { k * 8192 } else { d.len() as int }),
    decreases chunk_count(d.len()) - k,
{
    let n = chunk_count(d.len()) as int;
    let l = d.len() as int;
    let s = deflation(d).subrange(k, n);
    if k < n {
        lemma_deflation_size_from(d, k + 1);
        assert(s.drop_first() =~= deflation(d).subrange(k + 1, n));
        assert(k * 8192 < l) by (nonlinear_arith)
            requires n == (l + 8191) / 8192, 0 <= k < n, 0 <= l;
        assert((k + 1) * 8192 == k * 8192 + 8192) by (nonlinear_arith);
    } else {
        assert(k * 8192 >= l) by (nonlinear_arith)
            requires n == (l + 8191) / 8192, k == n, 0 <= l;
        assert(s.len() == 0);
    }
}

/// The blocks of a deflation add up to the length of the data, and each
/// holds between one and 8,192 bytes.
pub proof fn lemma_deflation_size(d: Seq<u8>)
    ensures
        views_size(deflation(d)) == d.len(),
        forall|k: int| 0 <= k < deflation(d).len() ==> 1 <= (#[trigger] deflation(d)[k]).0 <= 8192,
{
    lemma_deflation_size_from(d, 0);
    assert(deflation(d).subrange(0, chunk_count(d.len()) as int) =~= deflation(d));
    let n = chunk_count(d.len()) as int;
    let l = d.len() as int;
    assert forall|k: int| 0 <= k < deflation(d).len() implies 1 <= (#[trigger] deflation(d)[k]).0 <= 8192 by {
        assert(k * 8192 < l) by (nonlinear_arith)
            requires n == (l + 8191) / 8192, 0 <= k < n, 0 <= l;
        assert((k + 1) * 8192 == k * 8192 + 8192) by (nonlinear_arith);
    }
}

/// A block's compressed bytes are no longer than the stream that holds it.
pub proof fn lemma_stream_holds_block(bs: Seq<(usize, Seq<u8>)>, k: int)
    requires
        0 <= k < bs.len(),
    ensures
        bs[k].1.len() <= stream_of(bs).len(),
    decreases bs.len(),
{
    if k < bs.len() - 1 {
        lemma_stream_holds_block(bs.drop_last(), k);
    }
}

/// Saving names with their blocks and parsing the bytes gives back the map
/// from each lowercased name to its blocks. It holds where the CRCs of the
/// lowercased names differ from one another and from the filename table's,
/// each size is the sum of its blocks' inflate lengths, and every block is
/// storable.
pub proof fn lemma_saved_round_trip(keys: Seq<Seq<char>>, sizes: Seq<usize>, vals: Seq<Seq<(usize, Seq<u8>)>>)
    requires
        keys.len() == sizes.len(),
        keys.len() == vals.len(),
        saveable(keys, sizes, streams_of(vals)),
        archive_image(saved_records(keys, sizes, streams_of(vals))).len() <= usize::MAX,
        inflated(deflation(filename_table(keys))) == Some(filename_table(keys)),
        forall|i: int| 0 <= i < keys.len() ==> (#[trigger] sizes[i]) as int == views_size(vals[i]) && blocks_storable(vals[i]),
        forall|i: int| 0 <= i < keys.len() ==> name_crc(lower_of(#[trigger] keys[i])) != FILENAMES_CRC_VALUE,
        forall|i: int, j: int| 0 <= i < keys.len() && 0 <= j < keys.len() && i != j ==> name_crc(lower_of(keys[i])) != name_crc(lower_of(keys[j])),
    ensures
        parsed_contents(archive_image(saved_records(keys, sizes, streams_of(vals)))) == table(lowered(keys), vals),
        unique(lowered(keys)),
{
    let n = keys.len() as int;
    let fs = saved_records(keys, sizes, streams_of(vals));
    let img = archive_image(fs);
    let es = image_entries(fs);
    let t = filename_table(keys);
    let tv = deflation(t);
    let vs = vals.push(tv);
    lemma_image_directory(fs);
    lemma_deflation_size(t);
    lemma_stream_in_image(fs, n);
    assert(fs[n].2 == stream_of(tv));
    assert(blocks_storable(tv)) by {
        assert forall|k: int| 0 <= k < tv.len() implies 1 <= (#[trigger] tv[k]).0 <= u32::MAX && tv[k].1.len() <= u32::MAX by {
            lemma_stream_holds_block(tv, k);
        }
    }
    assert(streams_agree(fs, vs)) by {
        assert forall|i: int| 0 <= i < fs.len() implies {
            &&& (#[trigger] fs[i]).2 == stream_of(vs[i])
            &&& fs[i].1 as int == views_size(vs[i])
            &&& blocks_storable(vs[i])
        } by {
            if i < n {
                assert(vs[i] == vals[i]);
                assert(sizes[i] <= u32::MAX);
            } else {
                assert(vs[i] == tv);
            }
        }
    }
    lemma_image_walks(fs, vs);
    let ws = walk_all(img, es)->Some_0;
    assert(crcs_distinct(es)) by {
        assert forall|i: int, j: int| 0 <= i < es.len() && 0 <= j < es.len() && i != j implies es[i].crc != es[j].crc by {
            if i < n {
                assert(es[i].crc == name_crc(lower_of(keys[i])));
            }
            if j < n {
                assert(es[j].crc == name_crc(lower_of(keys[j])));
            }
        }
    }
    assert forall|i: int| 0 <= i < keys.len() implies (#[trigger] es[i]).crc == name_crc(lower_of(keys[i])) by {
    }
    lemma_last_unique(es, n);
    assert(es[n].crc == FILENAMES_CRC_VALUE);
    assert(ref_views(img, ws[n]) == vs[n]);
    lemma_table_round_trip(keys);
    assert(table_names(img, es, ws) == Some(keys));
    lemma_resolve_identity(keys, es, n);
    assert(keys.subrange(0, n) =~= keys);
    let rs = resolve(keys, es);
    assert(parse_archive(img) == Ok::<_, crate::directory::ParseFault>((es, ws, rs)));
    assert(resolved_keys(rs) =~= lowered(keys));
    assert forall|a: int, b: int| 0 <= a < n && 0 <= b < n && a != b implies lowered(keys)[a] != lowered(keys)[b] by {
    }
    assert(rs.map_values(|p: (Seq<char>, int)| ref_views(img, ws[p.1])) =~= vals) by {
        assert forall|i: int| 0 <= i < n implies ref_views(img, ws[rs[i].1]) == vals[i] by {
            assert(rs[i].1 == i);
            assert(ref_views(img, ws[i]) == vs[i]);
        }
    }
}

} // verus!

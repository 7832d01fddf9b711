//! The archive layout: a 12-byte header, the block streams, and the footer
//! directory of `(crc, offset, size)` entries.
use vstd::prelude::*;
use crate::error::ArchiveError;
use crate::wire::{read_le32, get_u32_le};
use crate::compression::{inflate_all, lemma_inflate_fails};
use crate::names::{FILENAMES_CRC_VALUE, decode_table, parse_filenames};
use crate::checksum::{name_crc, file_crc};
use crate::text::{lower_of, to_lower};
use crate::table::{table, unique};

verus! {

/// The only version of the format that is read and written.
pub const PFS_VERSION: u32 = 131072;

/// The magic bytes `"PFS "` at offset 4.
pub open spec fn magic() -> Seq<u8> {
    seq![0x50u8, 0x46u8, 0x53u8, 0x20u8]
}

/// One entry of the footer directory.
#[derive(Clone, Copy, Debug, PartialEq, Eq)]
pub struct DirEntry {
    pub crc: u32,
    pub offset: u32,
    pub size: u32,
}

/// Where one block's compressed bytes lie in the archive buffer.
#[derive(Clone, Copy, Debug, PartialEq, Eq)]
pub struct BlockRef {
    /// Number of compressed bytes.
    pub deflate_length: usize,
    /// Number of bytes the block decompresses to.
    pub inflate_length: usize,
    /// Absolute offset of the compressed bytes.
    pub offset: usize,
}

/// Why parsing an archive failed.
pub enum ParseFault {
    Malformed,
    Version(u32),
    Inflate,
}

/// The directory offset that the header gives, or why the header is refused.
pub open spec fn parse_header(input: Seq<u8>) -> Result<u32, ParseFault> {
    if input.len() < 12 || input.subrange(4, 8) != magic() {
        Err(ParseFault::Malformed)
    } else if read_le32(input, 8) != PFS_VERSION {
        Err(ParseFault::Version(read_le32(input, 8)))
    } else {
        Ok(read_le32(input, 0))
    }
}

/// The directory entry encoded at `pos`.
pub open spec fn entry_at(input: Seq<u8>, pos: int) -> DirEntry {
    DirEntry { crc: read_le32(input, pos), offset: read_le32(input, pos + 4), size: read_le32(input, pos + 8) }
}

/// The `count` entries that start at `pos`, or `None` where the input is too short.
pub open spec fn parse_entries(input: Seq<u8>, pos: int, count: nat) -> Option<Seq<DirEntry>> {
    if pos + 12 * count > input.len() {
        None
    } else {
        Some(Seq::new(count, |i: int| entry_at(input, pos + 12 * i)))
    }
}

/// The directory: its count at `dir_offset`, then the entries.
pub open spec fn parse_directory(input: Seq<u8>) -> Result<Seq<DirEntry>, ParseFault> {
    match parse_header(input) {
        Err(f) => Err(f),
        Ok(dir) => if dir + 4 > input.len() {
            Err(ParseFault::Malformed)
        } else {
            match parse_entries(input, dir + 4, read_le32(input, dir as int) as nat) {
                Some(es) => Ok(es),
                None => Err(ParseFault::Malformed),
            }
        },
    }
}

/// The blocks of a stream at `pos`, read until `inflated` reaches `size`; `None`
/// where `pos` lies past the end or the stream is cut short.
pub open spec fn walk_blocks(input: Seq<u8>, pos: int, inflated: int, size: int) -> Option<Seq<BlockRef>>
    decreases input.len() - pos,
{
    if pos < 0 || pos > input.len() {
        None
    } else if inflated >= size {
        Some(Seq::empty())
    } else if pos + 8 > input.len() {
        None
    } else {
        let d = read_le32(input, pos) as int;
        let f = read_le32(input, pos + 4) as int;
        if pos + 8 + d > input.len() {
            None
        } else {
            match walk_blocks(input, pos + 8 + d, inflated + f, size) {
                Some(rest) => Some(
                    seq![BlockRef { deflate_length: d as usize, inflate_length: f as usize, offset: (pos + 8) as usize }]
                        + rest,
                ),
                None => None,
            }
        }
    }
}

/// The stream of every entry, in directory order.
pub open spec fn walk_all(input: Seq<u8>, entries: Seq<DirEntry>) -> Option<Seq<Seq<BlockRef>>>
    decreases entries.len(),
{
    if entries.len() == 0 {
        Some(Seq::empty())
    } else {
        match (walk_all(input, entries.drop_last()), walk_blocks(input, entries.last().offset as int, 0, entries.last().size as int)) {
            (Some(ws), Some(w)) => Some(ws.push(w)),
            _ => None,
        }
    }
}


/// The index of the last entry with `crc`, or -1.
pub open spec fn last_with_crc(entries: Seq<DirEntry>, crc: u32) -> int
    decreases entries.len(),
{
    if entries.len() == 0 {
        -1
    } else if entries.last().crc == crc {
        entries.len() - 1
    } else {
        last_with_crc(entries.drop_last(), crc)
    }
}

/// The names that the filename table holds: none where there is no table or it
/// does not decode, `None` where it does not decompress.
pub open spec fn table_names(input: Seq<u8>, entries: Seq<DirEntry>, walks: Seq<Seq<BlockRef>>) -> Option<Seq<Seq<char>>> {
    let t = last_with_crc(entries, FILENAMES_CRC_VALUE);
    if t < 0 {
        Some(Seq::empty())
    } else {
        match inflate_all(ref_views(input, walks[t])) {
            None => None,
            Some(bytes) => match decode_table(bytes) {
                Ok(names) => Some(names),
                Err(_) => Some(Seq::empty()),
            },
        }
    }
}

/// Pairs each lowercased name with the last entry that carries its CRC,
/// skipping names whose entry an earlier name already took.
pub open spec fn resolve(names: Seq<Seq<char>>, entries: Seq<DirEntry>) -> Seq<(Seq<char>, int)>
    decreases names.len(),
{
    if names.len() == 0 {
        Seq::empty()
    } else {
        let prev = resolve(names.drop_last(), entries);
        let n = lower_of(names.last());
        let idx = last_with_crc(entries, name_crc(n));
        if idx >= 0 && !(exists|j: int| 0 <= j < prev.len() && (#[trigger] prev[j]).1 == idx) {
            prev.push((n, idx))
        } else {
            prev
        }
    }
}

/// What parsing `input` gives: the entries, the stream of each, and each
/// resolved name with the index of its entry.
pub open spec fn parse_archive(input: Seq<u8>) -> Result<(Seq<DirEntry>, Seq<Seq<BlockRef>>, Seq<(Seq<char>, int)>), ParseFault> {
    match parse_directory(input) {
        Err(f) => Err(f),
        Ok(entries) => match walk_all(input, entries) {
            None => Err(ParseFault::Malformed),
            Some(walks) => match table_names(input, entries, walks) {
                None => Err(ParseFault::Inflate),
                Some(names) => Ok((entries, walks, resolve(names, entries))),
            },
        },
    }
}

/// Every block of `refs` lies inside a buffer of `len` bytes.
pub open spec fn refs_in_bounds(refs: Seq<BlockRef>, len: nat) -> bool {
    forall|k: int| 0 <= k < refs.len() ==> (#[trigger] refs[k]).offset + refs[k].deflate_length <= len
}

/// The names that parsing resolved, in order.
pub open spec fn resolved_keys(rs: Seq<(Seq<char>, int)>) -> Seq<Seq<char>> {
    rs.map_values(|p: (Seq<char>, int)| p.0)
}

/// Each block that `refs` point at: its inflate length and compressed bytes.
pub open spec fn ref_views(input: Seq<u8>, refs: Seq<BlockRef>) -> Seq<(usize, Seq<u8>)> {
    refs.map_values(|b: BlockRef| (b.inflate_length, input.subrange(b.offset as int, b.offset + b.deflate_length)))
}

/// Name to blocks, as parsing `input` gives them; empty where parsing fails.
pub open spec fn parsed_contents(input: Seq<u8>) -> Map<Seq<char>, Seq<(usize, Seq<u8>)>> {
    match parse_archive(input) {
        Ok((es, ws, rs)) => table(resolved_keys(rs), rs.map_values(|p: (Seq<char>, int)| ref_views(input, ws[p.1]))),
        Err(_) => Map::empty(),
    }
}

/// Every resolved pair holds the last entry with its name's CRC, no entry is
/// taken twice, and so no name occurs twice.
pub proof fn lemma_resolve_unique(names: Seq<Seq<char>>, es: Seq<DirEntry>)
    ensures
        forall|j: int| 0 <= j < resolve(names, es).len() ==>
            (#[trigger] resolve(names, es)[j]).1 == last_with_crc(es, name_crc(resolve(names, es)[j].0)),
        forall|a: int, b: int| 0 <= a < resolve(names, es).len() && 0 <= b < resolve(names, es).len() && a != b ==>
            resolve(names, es)[a].1 != resolve(names, es)[b].1,
        unique(resolved_keys(resolve(names, es))),
    decreases names.len(),
{
    if names.len() > 0 {
        lemma_resolve_unique(names.drop_last(), es);
    }
    let rs = resolve(names, es);
    assert forall|a: int, b: int| 0 <= a < rs.len() && 0 <= b < rs.len() && a != b implies
        resolved_keys(rs)[a] != resolved_keys(rs)[b] by {
        if resolved_keys(rs)[a] == resolved_keys(rs)[b] {
            assert(rs[a].1 == last_with_crc(es, name_crc(rs[a].0)));
            assert(rs[b].1 == last_with_crc(es, name_crc(rs[b].0)));
        }
    }
}

/// The names that a successful parse resolves are distinct.
pub proof fn lemma_parsed_unique(input: Seq<u8>)
    requires
        parse_archive(input) is Ok,
    ensures
        unique(resolved_keys(parse_archive(input)->Ok_0.2)),
{
    let es = parse_directory(input)->Ok_0;
    let ws = walk_all(input, es)->Some_0;
    lemma_resolve_unique(table_names(input, es, ws)->Some_0, es);
}

/// The result of parsing an archive buffer.
pub struct ParsedArchive {
    pub entries: Vec<DirEntry>,
    pub walks: Vec<Vec<BlockRef>>,
    pub names: Vec<String>,
    pub picks: Vec<usize>,
}

impl ParsedArchive {
    pub open spec fn walks_view(&self) -> Seq<Seq<BlockRef>> {
        self.walks@.map_values(|w: Vec<BlockRef>| w@)
    }

    pub open spec fn resolved(&self) -> Seq<(Seq<char>, int)> {
        Seq::new(self.names@.len(), |i: int| (self.names@[i]@, self.picks@[i] as int))
    }

    /// Matches what `parse_archive` gives for `input`.
    pub open spec fn models(&self, input: Seq<u8>) -> bool {
        &&& parse_archive(input) matches Ok((es, ws, rs))
        &&& self.entries@ == es
        &&& self.walks_view() == ws
        &&& self.names@.len() == self.picks@.len()
        &&& self.walks@.len() == es.len()
        &&& self.resolved() == rs
        &&& forall|k: int| 0 <= k < ws.len() ==> refs_in_bounds(#[trigger] ws[k], input.len())
        &&& forall|j: int| 0 <= j < rs.len() ==> 0 <= (#[trigger] rs[j]).1 < es.len()
    }
}

pub(crate) open spec fn prepend_refs(p: Seq<BlockRef>, r: Option<Seq<BlockRef>>) -> Option<Seq<BlockRef>> {
    match r {
        Some(rest) => Some(p + rest),
        None => None,
    }
}

/// Reads the block stream at `offset` until the inflate lengths reach `size`.
pub fn parse_pfs_file_blocks(input: &[u8], offset: usize, size: u32) -> (r: Result<Vec<BlockRef>, ArchiveError>)
    ensures
        match walk_blocks(input@, offset as int, 0, size as int) {
            Some(bs) => r matches Ok(v) && v@ == bs,
            None => r matches Err(ArchiveError::Parse(_)),
        },
        r matches Ok(v) ==> refs_in_bounds(v@, input@.len()),
{
    if offset > input.len() {
        return Err(ArchiveError::Parse("block stream starts past the end".to_string()));
    }
    let mut out: Vec<BlockRef> = Vec::new();
    let mut pos: usize = offset;
    let mut inflated: u64 = 0;
    while inflated < size as u64
        invariant
            pos <= input@.len(),
            inflated <= u32::MAX as u64 + u32::MAX as u64,
            refs_in_bounds(out@, input@.len()),
            walk_blocks(input@, offset as int, 0, size as int) == prepend_refs(out@, walk_blocks(input@, pos as int, inflated as int, size as int)),
        decreases input@.len() - pos,
    {
        if pos > input.len() || input.len() - pos < 8 {
            return Err(ArchiveError::Parse("block stream is truncated".to_string()));
        }
        let d = get_u32_le(input, pos).unwrap();
        let f = get_u32_le(input, pos + 4).unwrap();
        if d as usize > input.len() - pos - 8 {
            return Err(ArchiveError::Parse("block stream is truncated".to_string()));
        }
        let ghost old_out = out@;
        out.push(BlockRef { deflate_length: d as usize, inflate_length: f as usize, offset: pos + 8 });
        proof {
            let rest = walk_blocks(input@, pos + 8 + d, inflated + f, size as int);
            match rest {
                Some(rs) => {
                    assert(old_out + (seq![BlockRef { deflate_length: d as usize, inflate_length: f as usize, offset: (pos + 8) as usize }] + rs) =~= out@ + rs);
                },
                None => {},
            }
        }
        pos = pos + 8 + d as usize;
        inflated = inflated + f as u64;
    }
    assert(out@ + Seq::<BlockRef>::empty() =~= out@);
    Ok(out)
}

/// Reads and checks the header and the footer directory.
pub fn parse_pfs_directory(input: &[u8]) -> (r: Result<Vec<DirEntry>, ArchiveError>)
    ensures
        match parse_directory(input@) {
            Ok(es) => r matches Ok(v) && v@ == es,
            Err(ParseFault::Version(v)) => r matches Err(ArchiveError::WrongVersion { version }) && version == v,
            Err(_) => r matches Err(ArchiveError::Parse(_)),
        },
{
    if input.len() < 12 {
        return Err(ArchiveError::Parse("header is truncated".to_string()));
    }
    if !(input[4] == 0x50u8 && input[5] == 0x46u8 && input[6] == 0x53u8 && input[7] == 0x20u8) {
        proof {
            assert(input@.subrange(4, 8) != magic()) by {
                if input@.subrange(4, 8) == magic() {
                    assert(input@.subrange(4, 8)[0] == input@[4]);
                    assert(input@.subrange(4, 8)[1] == input@[5]);
                    assert(input@.subrange(4, 8)[2] == input@[6]);
                    assert(input@.subrange(4, 8)[3] == input@[7]);
                }
            }
        }
        return Err(ArchiveError::Parse("bad magic".to_string()));
    }
    assert(input@.subrange(4, 8) =~= magic());
    let dir_offset = get_u32_le(input, 0).unwrap();
    let version = get_u32_le(input, 8).unwrap();
    if version != PFS_VERSION {
        return Err(ArchiveError::WrongVersion { version });
    }
    let count = match get_u32_le(input, dir_offset as usize) {
        Some(c) => c,
        None => return Err(ArchiveError::Parse("directory is truncated".to_string())),
    };
    let start: usize = dir_offset as usize + 4;
    if (count as usize) > (input.len() - start) / 12 {
        proof {
            let c = count as int;
            let room = (input@.len() - start) as int;
            assert(start + 12 * c > input@.len()) by (nonlinear_arith)
                requires c > room / 12, room >= 0, room == input@.len() - start;
        }
        return Err(ArchiveError::Parse("directory is truncated".to_string()));
    }
    proof {
        let c = count as int;
        let room = (input@.len() - start) as int;
        assert(start + 12 * c <= input@.len()) by (nonlinear_arith)
            requires c <= room / 12, room >= 0, room == input@.len() - start;
    }
    let mut entries: Vec<DirEntry> = Vec::new();
    let mut i: usize = 0;
    let n: usize = input.len();
    while i < count as usize
        invariant
            n == input@.len(),
            start + 12 * (count as int) <= input@.len(),
            0 <= i <= count,
            entries@.len() == i,
            forall|k: int| 0 <= k < i ==> entries@[k] == entry_at(input@, start + 12 * k),
        decreases count - i,
    {
        assert(start + 12 * (i as int) + 12 <= input@.len()) by (nonlinear_arith)
            requires i < count, start + 12 * (count as int) <= input@.len();
        let pos = start + 12 * i;
        let crc = get_u32_le(input, pos).unwrap();
        let offset = get_u32_le(input, pos + 4).unwrap();
        let size = get_u32_le(input, pos + 8).unwrap();
        entries.push(DirEntry { crc, offset, size });
        i = i + 1;
    }
    assert(entries@ =~= Seq::new(count as nat, |k: int| entry_at(input@, start + 12 * k)));
    Ok(entries)
}

/// Finds the last entry that carries `crc`.
pub fn find_last_crc(entries: &Vec<DirEntry>, crc: u32) -> (r: Option<usize>)
    ensures
        match r {
            Some(i) => i as int == last_with_crc(entries@, crc) && i < entries@.len(),
            None => last_with_crc(entries@, crc) == -1,
        },
{
    let mut found: Option<usize> = None;
    let mut i: usize = 0;
    while i < entries.len()
        invariant
            0 <= i <= entries@.len(),
            match found {
                Some(k) => k as int == last_with_crc(entries@.subrange(0, i as int), crc) && k < i,
                None => last_with_crc(entries@.subrange(0, i as int), crc) == -1,
            },
        decreases entries@.len() - i,
    {
        proof {
            assert(entries@.subrange(0, i + 1).drop_last() =~= entries@.subrange(0, i as int));
        }
        if entries[i].crc == crc {
            found = Some(i);
        }
        i = i + 1;
    }
    assert(entries@.subrange(0, entries@.len() as int) =~= entries@);
    found
}

/// Decompresses the blocks that `refs` point at in `input`, one after another.
pub fn inflate_refs(input: &[u8], refs: &Vec<BlockRef>) -> (r: Result<Vec<u8>, ArchiveError>)
    requires
        refs_in_bounds(refs@, input@.len()),
    ensures
        match inflate_all(ref_views(input@, refs@)) {
            Some(x) => r matches Ok(v) && v@ == x,
            None => r matches Err(ArchiveError::Decompression),
        },
{
    let mut out: Vec<u8> = Vec::new();
    let mut i: usize = 0;
    let n: usize = input.len();
    while i < refs.len()
        invariant
            n == input@.len(),
            refs_in_bounds(refs@, input@.len()),
            0 <= i <= refs@.len(),
            inflate_all(ref_views(input@, refs@).subrange(0, i as int)) == Some(out@),
        decreases refs@.len() - i,
    {
        let b = refs[i];
        assert(b.offset + b.deflate_length <= input@.len());
        let part = match crate::compression::zlib_decompress(vstd::slice::slice_subrange(input, b.offset, b.offset + b.deflate_length)) {
            Some(p) => p,
            None => {
                proof { lemma_inflate_fails(ref_views(input@, refs@), i as int); }
                return Err(ArchiveError::Decompression);
            },
        };
        if part.len() != b.inflate_length {
            proof { lemma_inflate_fails(ref_views(input@, refs@), i as int); }
            return Err(ArchiveError::Decompression);
        }
        proof {
            let d = ref_views(input@, refs@).subrange(0, i + 1);
            assert(d.drop_last() =~= ref_views(input@, refs@).subrange(0, i as int));
        }
        crate::wire::put_bytes(&mut out, part.as_slice());
        i = i + 1;
    }
    assert(ref_views(input@, refs@).subrange(0, refs@.len() as int) =~= ref_views(input@, refs@));
    Ok(out)
}

/// Parses a whole archive buffer: header, directory, every block stream and
/// the filename table, and pairs each name with its entry.
pub fn do_parse(input: &[u8]) -> (r: Result<ParsedArchive, ArchiveError>)
    ensures
        match parse_archive(input@) {
            Ok(_) => r matches Ok(p) && p.models(input@),
            Err(ParseFault::Version(v)) => r matches Err(ArchiveError::WrongVersion { version }) && version == v,
            Err(ParseFault::Malformed) => r matches Err(ArchiveError::Parse(_)),
            Err(ParseFault::Inflate) => r matches Err(ArchiveError::Decompression),
        },
{
    let entries = parse_pfs_directory(input)?;
    let ghost es = entries@;
    let mut walks: Vec<Vec<BlockRef>> = Vec::new();
    let mut i: usize = 0;
    while i < entries.len()
        invariant
            parse_directory(input@) == Ok::<Seq<DirEntry>, ParseFault>(es),
            entries@ == es,
            0 <= i <= es.len(),
            walks@.len() == i,
            walk_all(input@, es.subrange(0, i as int)) == Some(walks@.map_values(|w: Vec<BlockRef>| w@)),
            forall|k: int| 0 <= k < walks@.len() ==> refs_in_bounds(#[trigger] walks@[k]@, input@.len()),
        decreases es.len() - i,
    {
        proof {
            assert(es.subrange(0, i + 1).drop_last() =~= es.subrange(0, i as int));
        }
        let e = entries[i];
        let ghost before = walks@.map_values(|w: Vec<BlockRef>| w@);
        let w = match parse_pfs_file_blocks(input, e.offset as usize, e.size) {
            Ok(w) => w,
            Err(err) => {
                proof { lemma_walk_all_fails(input@, es, i as int); }
                return Err(err);
            },
        };
        walks.push(w);
        assert(walks@.map_values(|w: Vec<BlockRef>| w@) =~= before.push(walks@[i as int]@));
        i = i + 1;
    }
    assert(es.subrange(0, es.len() as int) =~= es);
    let ghost ws = walks@.map_values(|w: Vec<BlockRef>| w@);
    let mut filenames: Vec<String> = Vec::new();
    match find_last_crc(&entries, FILENAMES_CRC_VALUE) {
        Some(t) => {
            assert(ws[t as int] == walks@[t as int]@);
            let data = inflate_refs(input, &walks[t])?;
            match parse_filenames(data.as_slice()) {
                Ok(names) => { filenames = names; },
                Err(_) => {},
            }
        },
        None => {},
    }
    let ghost names = filenames@.map_values(|s: String| s@);
    assert(table_names(input@, es, ws) == Some(names)) by {
        if last_with_crc(es, FILENAMES_CRC_VALUE) < 0 {
            assert(names =~= Seq::<Seq<char>>::empty());
        }
    }
    let mut taken: Vec<bool> = vec![false; entries.len()];
    let mut out_names: Vec<String> = Vec::new();
    let mut picks: Vec<usize> = Vec::new();
    let mut j: usize = 0;
    while j < filenames.len()
        invariant
            entries@ == es,
            names == filenames@.map_values(|s: String| s@),
            0 <= j <= filenames@.len(),
            taken@.len() == es.len(),
            out_names@.len() == picks@.len(),
            Seq::new(out_names@.len(), |k: int| (out_names@[k]@, picks@[k] as int)) == resolve(names.subrange(0, j as int), es),
            forall|k: int| 0 <= k < es.len() ==> (taken@[k] <==> exists|m: int| 0 <= m < picks@.len() && picks@[m] == k),
            forall|m: int| 0 <= m < picks@.len() ==> (#[trigger] picks@[m]) < es.len(),
        decreases filenames@.len() - j,
    {
        let ghost prev = resolve(names.subrange(0, j as int), es);
        proof {
            assert(names.subrange(0, j + 1).drop_last() =~= names.subrange(0, j as int));
        }
        let lower = to_lower(filenames[j].as_str());
        let crc = file_crc(lower.as_str());
        match find_last_crc(&entries, crc) {
            Some(k) => {
                assert(prev.len() == picks@.len());
                assert((exists|m: int| 0 <= m < prev.len() && (#[trigger] prev[m]).1 == k as int)
                    <==> (exists|m: int| 0 <= m < picks@.len() && picks@[m] == k)) by {
                    if exists|m: int| 0 <= m < prev.len() && (#[trigger] prev[m]).1 == k as int {
                        let m = choose|m: int| 0 <= m < prev.len() && (#[trigger] prev[m]).1 == k as int;
                        assert(picks@[m] == k);
                    }
                    if exists|m: int| 0 <= m < picks@.len() && picks@[m] == k {
                        let m = choose|m: int| 0 <= m < picks@.len() && picks@[m] == k;
                        assert(prev[m].1 == k as int);
                    }
                }
                if !taken[k] {
                    let ghost old_picks = picks@;
                    taken.set(k, true);
                    out_names.push(lower);
                    picks.push(k);
                    proof {
                        assert(Seq::new(out_names@.len(), |q: int| (out_names@[q]@, picks@[q] as int)) =~= prev.push((lower_of(names[j as int]), k as int)));
                        assert forall|q: int| 0 <= q < es.len() implies (taken@[q] <==> exists|m: int| 0 <= m < picks@.len() && picks@[m] == q) by {
                            if q != k {
                                if exists|m: int| 0 <= m < picks@.len() && picks@[m] == q {
                                    let m = choose|m: int| 0 <= m < picks@.len() && picks@[m] == q;
                                    assert(old_picks[m] == q);
                                }
                                if taken@[q] {
                                    let m = choose|m: int| 0 <= m < old_picks.len() && old_picks[m] == q;
                                    assert(picks@[m] == q);
                                }
                            } else {
                                assert(picks@[picks@.len() - 1] == q);
                            }
                        }
                    }
                }
            },
            None => {},
        }
        j = j + 1;
    }
    assert(names.subrange(0, names.len() as int) =~= names);
    proof {
        let rs = resolve(names, es);
        assert forall|q: int| 0 <= q < rs.len() implies 0 <= (#[trigger] rs[q]).1 < es.len() by {
            assert(rs[q].1 == picks@[q] as int);
        }
    }
    Ok(ParsedArchive { entries, walks, names: out_names, picks })
}

proof fn lemma_walk_all_fails(input: Seq<u8>, es: Seq<DirEntry>, i: int)
    requires
        0 <= i < es.len(),
        walk_blocks(input, es[i].offset as int, 0, es[i].size as int) is None,
    ensures
        walk_all(input, es) is None,
    decreases es.len(),
{
    if i < es.len() - 1 {
        lemma_walk_all_fails(input, es.drop_last(), i);
    }
}

} // verus!

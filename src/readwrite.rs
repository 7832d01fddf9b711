//! An archive that can be read and written: it keeps each file's compressed
//! blocks, so saving re-emits them without recompressing.
use vstd::prelude::*;
use crate::error::ArchiveError;
use crate::archive_trait::{IArchive, IReadableArchive, IWritableArchive};
use crate::compression::{Block, block_views, compresses, blocks_size, deflate_blocks, inflate_blocks, is_deflation_of};
use crate::directory::{
    BlockRef, ParseFault, do_parse, parse_archive, parsed_contents, ref_views, resolved_keys, refs_in_bounds,
};
use crate::emit::{deflation, saved_records, saveable, put_blocks, save_streams, lemma_deflation_views};
use crate::emit::{archive_image, inflated, streams_of};
use crate::names::{FILENAMES_CRC_VALUE, filename_table};
use crate::checksum::name_crc;
use crate::roundtrip::{lemma_lowered_table, views_size, blocks_storable, lemma_blocks_size_views, lemma_saved_round_trip};
use crate::table::{table, unique, entry_keys, find_entry, lemma_table_at, lemma_table_push, lemma_table_update, lemma_table_remove};
use crate::text::{lower_of, to_lower, regex_compiles, regex_match_of, compile_regex, regex_is_match, select_names};

verus! {

/// The blocks of one file.
pub struct ReadWriteArchiveFile {
    pub blocks: Vec<Block>,
}


impl ReadWriteArchiveFile {
    /// Cuts `input` into blocks and compresses each one.
    pub fn deflate(input: &[u8]) -> (r: Result<ReadWriteArchiveFile, ArchiveError>)
        ensures
            r matches Ok(f) ==> is_deflation_of(f.blocks@, input@) && block_views(f.blocks@) == deflation(input@)
                && blocks_size(f.blocks@) == input@.len(),
            r is Ok <==> compresses(input@),
            r matches Err(e) ==> e is Compression,
    {
        let blocks = match deflate_blocks(input) {
            Ok(bs) => bs,
            Err(e) => return Err(e),
        };
        proof { lemma_deflation_views(blocks@, input@); }
        Ok(ReadWriteArchiveFile { blocks })
    }

    /// Decompresses the blocks and concatenates the output.
    pub fn inflate(&self) -> (r: Result<Vec<u8>, ArchiveError>)
        ensures
            match inflated(block_views(self.blocks@)) {
                Some(x) => r matches Ok(v) && v@ == x,
                None => r matches Err(ArchiveError::Decompression),
            },
            r matches Ok(v) ==> v@.len() == views_size(block_views(self.blocks@)),
    {
        proof { crate::roundtrip::lemma_inflate_len(block_views(self.blocks@)); }
        inflate_blocks(&self.blocks)
    }

    /// The uncompressed length: the sum of the inflate lengths, saturated at `usize::MAX`.
    pub fn len(&self) -> (r: usize)
        ensures
            r as int == if blocks_size(self.blocks@) <= usize::MAX { blocks_size(self.blocks@) as int } else { usize::MAX as int },
    {
        let mut total: usize = 0;
        let mut i: usize = 0;
        while i < self.blocks.len()
            invariant
                0 <= i <= self.blocks@.len(),
                total as int == if blocks_size(self.blocks@.subrange(0, i as int)) <= usize::MAX {
                    blocks_size(self.blocks@.subrange(0, i as int)) as int
                } else {
                    usize::MAX as int
                },
            decreases self.blocks@.len() - i,
        {
            proof {
                assert(self.blocks@.subrange(0, i + 1).drop_last() =~= self.blocks@.subrange(0, i as int));
            }
            total = total.saturating_add(self.blocks[i].inflate_length);
            i = i + 1;
        }
        assert(self.blocks@.subrange(0, self.blocks@.len() as int) =~= self.blocks@);
        total
    }

    /// A copy of the file.
    pub fn duplicate(&self) -> (r: ReadWriteArchiveFile)
        ensures
            block_views(r.blocks@) == block_views(self.blocks@),
            blocks_size(r.blocks@) == blocks_size(self.blocks@),
    {
        let mut blocks: Vec<Block> = Vec::new();
        let mut i: usize = 0;
        while i < self.blocks.len()
            invariant
                0 <= i <= self.blocks@.len(),
                blocks@.len() == i,
                forall|k: int| 0 <= k < i ==> (#[trigger] blocks@[k]).inflate_length == self.blocks@[k].inflate_length
                    && blocks@[k].data@ == self.blocks@[k].data@,
            decreases self.blocks@.len() - i,
        {
            blocks.push(self.blocks[i].duplicate());
            i = i + 1;
        }
        assert(block_views(blocks@) =~= block_views(self.blocks@));
        proof { lemma_same_sizes(blocks@, self.blocks@); }
        ReadWriteArchiveFile { blocks }
    }

    /// The file whose blocks are the ones `refs` point at in `input`.
    fn from_refs(input: &[u8], refs: &Vec<BlockRef>) -> (r: ReadWriteArchiveFile)
        requires
            refs_in_bounds(refs@, input@.len()),
        ensures
            block_views(r.blocks@) == ref_views(input@, refs@),
    {
        let mut blocks: Vec<Block> = Vec::new();
        let mut i: usize = 0;
        let n: usize = input.len();
        while i < refs.len()
            invariant
                n == input@.len(),
                refs_in_bounds(refs@, input@.len()),
                0 <= i <= refs@.len(),
                block_views(blocks@) == ref_views(input@, refs@).subrange(0, i as int),
            decreases refs@.len() - i,
        {
            let b = refs[i];
            assert(b.offset + b.deflate_length <= input@.len());
            let data = vstd::slice::slice_to_vec(vstd::slice::slice_subrange(input, b.offset, b.offset + b.deflate_length));
            let ghost before = block_views(blocks@);
            blocks.push(Block { deflate_length: b.deflate_length, inflate_length: b.inflate_length, data });
            assert(block_views(blocks@) =~= before.push(ref_views(input@, refs@)[i as int]));
            assert(ref_views(input@, refs@).subrange(0, i + 1) =~= ref_views(input@, refs@).subrange(0, i as int).push(ref_views(input@, refs@)[i as int]));
            i = i + 1;
        }
        assert(ref_views(input@, refs@).subrange(0, refs@.len() as int) =~= ref_views(input@, refs@));
        ReadWriteArchiveFile { blocks }
    }
}

proof fn lemma_same_sizes(a: Seq<Block>, b: Seq<Block>)
    requires
        a.len() == b.len(),
        forall|k: int| 0 <= k < a.len() ==> (#[trigger] a[k]).inflate_length == b[k].inflate_length,
    ensures
        blocks_size(a) == blocks_size(b),
    decreases a.len(),
{
    if a.len() > 0 {
        lemma_same_sizes(a.drop_last(), b.drop_last());
    }
}

/// A readable and writable PFS archive. It keeps each file's compressed
/// blocks, so that saving reuses them without recompressing.
pub struct ReadWriteArchive {
    entries: Vec<(String, ReadWriteArchiveFile)>,
}

/// The blocks of each entry.
pub open spec fn rw_values(es: Seq<(String, ReadWriteArchiveFile)>) -> Seq<Seq<(usize, Seq<u8>)>> {
    es.map_values(|e: (String, ReadWriteArchiveFile)| block_views(e.1.blocks@))
}

impl ReadWriteArchive {
    #[verifier::type_invariant]
    spec fn inv(self) -> bool {
        self.wf()
    }

    /// No two entries share a name.
    pub closed spec fn wf(&self) -> bool {
        unique(entry_keys(self.entries@))
    }

    /// Moves the entries out, leaving the archive empty.
    fn take_entries(&mut self) -> (r: Vec<(String, ReadWriteArchiveFile)>)
        ensures
            r@ == old(self).entries@,
            final(self).entries@ == Seq::<(String, ReadWriteArchiveFile)>::empty(),
    {
        let mut es: Vec<(String, ReadWriteArchiveFile)> = Vec::new();
        std::mem::swap(&mut self.entries, &mut es);
        es
    }

    /// Every archive value held by exec code is well formed.
    pub fn check_wf(&self)
        ensures
            self.wf(),
    {
        proof { use_type_invariant(self); }
    }

    /// The names in the order in which the archive keeps them.
    pub closed spec fn keys(&self) -> Seq<Seq<char>> {
        entry_keys(self.entries@)
    }

    /// The blocks of each file, in the order of `keys`.
    pub closed spec fn values(&self) -> Seq<Seq<(usize, Seq<u8>)>> {
        rw_values(self.entries@)
    }

    /// The uncompressed size that a save records for each file, in the order of `keys`.
    pub closed spec fn sizes(&self) -> Seq<usize> {
        self.entries@.map_values(|e: (String, ReadWriteArchiveFile)|
            if blocks_size(e.1.blocks@) <= usize::MAX { blocks_size(e.1.blocks@) as usize } else { usize::MAX })
    }

    /// The keys are distinct, and the map pairs each with its blocks.
    pub proof fn lemma_keys(&self)
        requires
            self.wf(),
        ensures
            unique(self.keys()),
            self.keys().len() == self.values().len(),
            self.keys().len() == self.sizes().len(),
            self@ == table(self.keys(), self.values()),
    {
    }
}

impl View for ReadWriteArchive {
    type V = Map<Seq<char>, Seq<(usize, Seq<u8>)>>;

    closed spec fn view(&self) -> Self::V {
        table(entry_keys(self.entries@), rw_values(self.entries@))
    }
}

impl IArchive for ReadWriteArchive {
    fn new() -> (r: Self)
        ensures
            r@ == Map::<Seq<char>, Seq<(usize, Seq<u8>)>>::empty(),
    {
        let r = ReadWriteArchive { entries: Vec::new() };
        assert(r@ =~= Map::<Seq<char>, Seq<(usize, Seq<u8>)>>::empty());
        r
    }

    fn close(&mut self)
        ensures
            final(self)@ == Map::<Seq<char>, Seq<(usize, Seq<u8>)>>::empty(),
    {
        self.entries = Vec::new();
        assert(self@ =~= Map::<Seq<char>, Seq<(usize, Seq<u8>)>>::empty());
    }
}

impl IReadableArchive for ReadWriteArchive {
    fn open_from_bytes(&mut self, input: &[u8]) -> (r: Result<(), ArchiveError>)
        ensures
            final(self)@ == parsed_contents(input@),
            match parse_archive(input@) {
                Ok(_) => r is Ok,
                Err(ParseFault::Version(v)) => r matches Err(ArchiveError::WrongVersion { version }) && version == v,
                Err(ParseFault::Malformed) => r matches Err(ArchiveError::Parse(_)),
                Err(ParseFault::Inflate) => r matches Err(ArchiveError::Decompression),
            },
    {
        self.close();
        let parsed = do_parse(input)?;
        let ghost es = parsed.entries@;
        let ghost ws = parsed.walks_view();
        let ghost rs = parsed.resolved();
        proof { crate::directory::lemma_parsed_unique(input@); }
        let mut entries: Vec<(String, ReadWriteArchiveFile)> = Vec::new();
        let mut j: usize = 0;
        while j < parsed.names.len()
            invariant
                parsed.models(input@),
                es == parsed.entries@,
                ws == parsed.walks_view(),
                rs == parsed.resolved(),
                unique(resolved_keys(rs)),
                0 <= j <= rs.len(),
                entry_keys(entries@) == resolved_keys(rs).subrange(0, j as int),
                rw_values(entries@) == rs.map_values(|p: (Seq<char>, int)| ref_views(input@, ws[p.1])).subrange(0, j as int),
            decreases rs.len() - j,
        {
            let k = parsed.picks[j];
            assert(rs[j as int].1 == k as int);
            assert(parsed.walks@[k as int]@ == ws[k as int]);
            let f = ReadWriteArchiveFile::from_refs(input, &parsed.walks[k]);
            let ghost before = entries@;
            entries.push((parsed.names[j].clone(), f));
            proof {
                assert(entry_keys(entries@) =~= entry_keys(before).push(rs[j as int].0));
                assert(resolved_keys(rs).subrange(0, j + 1) =~= resolved_keys(rs).subrange(0, j as int).push(rs[j as int].0));
                let vs = rs.map_values(|p: (Seq<char>, int)| ref_views(input@, ws[p.1]));
                assert(rw_values(entries@) =~= rw_values(before).push(vs[j as int]));
                assert(vs.subrange(0, j + 1) =~= vs.subrange(0, j as int).push(vs[j as int]));
            }
            j = j + 1;
        }
        proof {
            assert(resolved_keys(rs).subrange(0, rs.len() as int) =~= resolved_keys(rs));
            let vs = rs.map_values(|p: (Seq<char>, int)| ref_views(input@, ws[p.1]));
            assert(vs.subrange(0, rs.len() as int) =~= vs);
        }
        self.entries = entries;
        Ok(())
    }

    fn get(&self, in_archive_path: &str) -> (r: Result<Vec<u8>, ArchiveError>)
        ensures
            !self@.contains_key(lower_of(in_archive_path@)) ==> (r matches Err(ArchiveError::SrcFileNotFound)),
            self@.contains_key(lower_of(in_archive_path@)) ==> match inflated(self@[lower_of(in_archive_path@)]) {
                Some(x) => r matches Ok(v) && v@ == x,
                None => r matches Err(ArchiveError::Decompression),
            },
            r matches Ok(v) ==> v@.len() == crate::roundtrip::views_size(self@[lower_of(in_archive_path@)]),
    {
        proof {
            use_type_invariant(self);
            if self@.contains_key(lower_of(in_archive_path@)) {
                crate::roundtrip::lemma_inflate_len(self@[lower_of(in_archive_path@)]);
            }
        }
        let key = to_lower(in_archive_path);
        match find_entry(&self.entries, &key) {
            Some(i) => {
                proof { lemma_table_at(entry_keys(self.entries@), rw_values(self.entries@), i as int); }
                self.entries[i].1.inflate()
            },
            None => Err(ArchiveError::SrcFileNotFound),
        }
    }

    fn contains(&self, in_archive_path: &str) -> (r: Result<bool, ArchiveError>)
        ensures
            r == Ok::<bool, ArchiveError>(self@.contains_key(lower_of(in_archive_path@))),
    {
        let key = to_lower(in_archive_path);
        let found = find_entry(&self.entries, &key);
        proof {
            if let Some(i) = found {
                assert(entry_keys(self.entries@)[i as int] == key@);
            }
        }
        Ok(found.is_some())
    }

    fn search(&self, search_regex: &str) -> (r: Result<Vec<String>, ArchiveError>)
        ensures
            r is Err <==> !regex_compiles(search_regex@),
            r matches Err(e) ==> e is BadRegex,
            r matches Ok(v) ==> forall|i: int| 0 <= i < v@.len() ==> self@.contains_key(#[trigger] v@[i]@),
            r matches Ok(v) ==> unique(v@.map_values(|s: String| s@)),
            r matches Ok(v) ==> forall|k: Seq<char>| #[trigger] crate::table::keys_of(v@).contains(k)
                <==> (self@.contains_key(k) && regex_match_of(search_regex@, k)),
    {
        let re = match compile_regex(search_regex) {
            Ok(re) => re,
            Err(e) => return Err(ArchiveError::BadRegex(e)),
        };
        let mut names: Vec<String> = Vec::new();
        let mut keep: Vec<bool> = Vec::new();
        let mut i: usize = 0;
        while i < self.entries.len()
            invariant
                0 <= i <= self.entries@.len(),
                names@.len() == i,
                keep@.len() == i,
                names@.map_values(|s: String| s@) == entry_keys(self.entries@).subrange(0, i as int),
                re.pattern() == search_regex@,
                forall|j: int| 0 <= j < i ==> keep@[j] == regex_match_of(search_regex@, #[trigger] entry_keys(self.entries@)[j]),
            decreases self.entries@.len() - i,
        {
            let ghost before = names@;
            names.push(self.entries[i].0.clone());
            keep.push(regex_is_match(&re, self.entries[i].0.as_str()));
            assert(names@.map_values(|s: String| s@) =~= before.map_values(|s: String| s@).push(self.entries@[i as int].0@));
            i = i + 1;
        }
        assert(entry_keys(self.entries@).subrange(0, i as int) =~= entry_keys(self.entries@));
        let out = select_names(&names, &keep);
        proof {
            use_type_invariant(self);
            crate::text::lemma_selected_sub(names@.map_values(|s: String| s@), keep@);
            crate::text::lemma_selected_contains(names@.map_values(|s: String| s@), keep@);
            let ns = names@.map_values(|s: String| s@);
            let ek = entry_keys(self.entries@);
            assert(ns == ek);
            assert forall|k: Seq<char>| #[trigger] crate::table::keys_of(out@).contains(k)
                <==> (self@.contains_key(k) && regex_match_of(search_regex@, k)) by {
                if self@.contains_key(k) && regex_match_of(search_regex@, k) {
                    let i = choose|i: int| 0 <= i < ek.len() && ek[i] == k;
                    assert(keep@[i] && ns[i] == k);
                }
            }
            assert forall|q: int| 0 <= q < out@.len() implies self@.contains_key(#[trigger] out@[q]@) by {
                assert(out@.map_values(|s: String| s@)[q] == out@[q]@);
            }
        }
        Ok(out)
    }
}


impl IWritableArchive for ReadWriteArchive {
    fn save_to_bytes(&self) -> (r: Result<Vec<u8>, ArchiveError>)
        ensures
            ({
                let (ks, ns, ss) = (self.keys(), self.sizes(), streams_of(self.values()));
                &&& r matches Ok(b) ==> saveable(ks, ns, ss) && b@ == archive_image(saved_records(ks, ns, ss))
                &&& r matches Err(e) ==> e is Compression || (e is Unknown && !saveable(ks, ns, ss))
                &&& saveable(ks, ns, ss) ==> !(r matches Err(ArchiveError::Unknown))
                &&& saveable(ks, ns, ss) && compresses(filename_table(ks)) ==> r is Ok
            }),
    {
        let mut keys: Vec<String> = Vec::new();
        let mut sizes: Vec<usize> = Vec::new();
        let mut streams: Vec<Vec<u8>> = Vec::new();
        let mut i: usize = 0;
        while i < self.entries.len()
            invariant
                0 <= i <= self.entries@.len(),
                keys@.len() == i,
                sizes@.len() == i,
                streams@.len() == i,
                crate::table::keys_of(keys@) == self.keys().subrange(0, i as int),
                sizes@ == self.sizes().subrange(0, i as int),
                streams@.map_values(|s: Vec<u8>| s@) == streams_of(self.values()).subrange(0, i as int),
            decreases self.entries@.len() - i,
        {
            let ghost (k0, s0, t0) = (keys@, sizes@, streams@);
            let e = &self.entries[i];
            keys.push(e.0.clone());
            sizes.push(e.1.len());
            let mut stream: Vec<u8> = Vec::new();
            put_blocks(&mut stream, &e.1.blocks);
            streams.push(stream);
            proof {
                assert(crate::table::keys_of(keys@) =~= crate::table::keys_of(k0).push(self.keys()[i as int]));
                assert(self.keys().subrange(0, i + 1) =~= self.keys().subrange(0, i as int).push(self.keys()[i as int]));
                assert(sizes@ =~= self.sizes().subrange(0, i + 1));
                assert(streams@.map_values(|s: Vec<u8>| s@) =~= t0.map_values(|s: Vec<u8>| s@).push(streams_of(self.values())[i as int]));
                assert(streams_of(self.values()).subrange(0, i + 1) =~= streams_of(self.values()).subrange(0, i as int).push(streams_of(self.values())[i as int]));
            }
            i = i + 1;
        }
        proof {
            assert(self.keys().subrange(0, i as int) =~= self.keys());
            assert(self.sizes().subrange(0, i as int) =~= self.sizes());
            assert(streams_of(self.values()).subrange(0, i as int) =~= streams_of(self.values()));
        }
        save_streams(&keys, &sizes, streams)
    }

    fn set(&mut self, in_archive_path: &str, input: &[u8]) -> (r: Result<(), ArchiveError>)
        ensures
            r is Ok ==> final(self)@ == old(self)@.insert(lower_of(in_archive_path@), deflation(input@)),
            r is Ok ==> inflated(deflation(input@)) == Some(input@),
            compresses(input@) ==> r is Ok,
            r matches Err(e) ==> e is Compression && !compresses(input@) && final(self)@ == old(self)@,
    {
        proof { use_type_invariant(&*self); }
        let key = to_lower(in_archive_path);
        let file = match ReadWriteArchiveFile::deflate(input) {
            Ok(f) => f,
            Err(e) => return Err(e),
        };
        proof {
            crate::compression::lemma_inflate_deflation(file.blocks@, input@);
        }
        let ghost es = self.entries@;
        match find_entry(&self.entries, &key) {
            Some(i) => {
                let mut v = self.take_entries();
                v.set(i, (key, file));
                proof {
                    assert(entry_keys(v@) =~= entry_keys(es));
                    assert(rw_values(v@) =~= rw_values(es).update(i as int, deflation(input@)));
                    lemma_table_update(entry_keys(es), rw_values(es), i as int, deflation(input@));
                }
                self.entries = v;
            },
            None => {
                let mut v = self.take_entries();
                v.push((key, file));
                proof {
                    assert(entry_keys(v@) =~= entry_keys(es).push(lower_of(in_archive_path@)));
                    assert(rw_values(v@) =~= rw_values(es).push(deflation(input@)));
                    lemma_table_push(entry_keys(es), rw_values(es), lower_of(in_archive_path@), deflation(input@));
                }
                self.entries = v;
            },
        }
        Ok(())
    }

    fn remove(&mut self, in_archive_path: &str) -> (r: Result<(), ArchiveError>)
        ensures
            old(self)@.contains_key(lower_of(in_archive_path@)) ==> r is Ok
                && final(self)@ == old(self)@.remove(lower_of(in_archive_path@)),
            !old(self)@.contains_key(lower_of(in_archive_path@)) ==> (r matches Err(ArchiveError::SrcFileNotFound))
                && final(self)@ == old(self)@,
    {
        proof { use_type_invariant(&*self); }
        let key = to_lower(in_archive_path);
        let ghost es = self.entries@;
        match find_entry(&self.entries, &key) {
            Some(i) => {
                let mut v = self.take_entries();
                v.remove(i);
                proof {
                    assert(entry_keys(es)[i as int] == key@);
                    assert(entry_keys(v@) =~= entry_keys(es).remove(i as int));
                    assert(rw_values(v@) =~= rw_values(es).remove(i as int));
                    lemma_table_remove(entry_keys(es), rw_values(es), i as int);
                }
                self.entries = v;
                Ok(())
            },
            None => Err(ArchiveError::SrcFileNotFound),
        }
    }

    fn rename(&mut self, in_archive_path: &str, new_in_archive_path: &str) -> (r: Result<(), ArchiveError>)
        ensures
            ({
                let (from, to) = (lower_of(in_archive_path@), lower_of(new_in_archive_path@));
                &&& old(self)@.contains_key(to) ==> (r matches Err(ArchiveError::DestFileAlreadyExists))
                &&& !old(self)@.contains_key(to) && !old(self)@.contains_key(from) ==> (r matches Err(ArchiveError::SrcFileNotFound))
                &&& !old(self)@.contains_key(to) && old(self)@.contains_key(from) ==> r is Ok
                    && final(self)@ == old(self)@.remove(from).insert(to, old(self)@[from])
                &&& r is Err ==> final(self)@ == old(self)@
            }),
    {
        proof { use_type_invariant(&*self); }
        let from = to_lower(in_archive_path);
        let to = to_lower(new_in_archive_path);
        let ghost es = self.entries@;
        if let Some(d) = find_entry(&self.entries, &to) {
            assert(entry_keys(es)[d as int] == to@);
            return Err(ArchiveError::DestFileAlreadyExists);
        }
        match find_entry(&self.entries, &from) {
            Some(i) => {
                let mut v = self.take_entries();
                let (_, f) = v.remove(i);
                proof {
                    assert(entry_keys(es)[i as int] == from@);
                    lemma_table_at(entry_keys(es), rw_values(es), i as int);
                    assert(entry_keys(v@) =~= entry_keys(es).remove(i as int));
                    assert(rw_values(v@) =~= rw_values(es).remove(i as int));
                    lemma_table_remove(entry_keys(es), rw_values(es), i as int);
                    assert(!entry_keys(v@).contains(to@)) by {
                        if entry_keys(v@).contains(to@) {
                            let q = choose|q: int| 0 <= q < entry_keys(v@).len() && entry_keys(v@)[q] == to@;
                            let q2 = if q < i { q } else { q + 1 };
                            assert(entry_keys(es)[q2] == to@);
                        }
                    }
                }
                let ghost mid = v@;
                v.push((to, f));
                proof {
                    assert(entry_keys(v@) =~= entry_keys(mid).push(to@));
                    assert(rw_values(v@) =~= rw_values(mid).push(rw_values(es)[i as int]));
                    lemma_table_push(entry_keys(mid), rw_values(mid), to@, rw_values(es)[i as int]);
                }
                self.entries = v;
                Ok(())
            },
            None => Err(ArchiveError::SrcFileNotFound),
        }
    }

    fn copy(&mut self, in_archive_path: &str, new_in_archive_path: &str) -> (r: Result<(), ArchiveError>)
        ensures
            ({
                let (from, to) = (lower_of(in_archive_path@), lower_of(new_in_archive_path@));
                &&& old(self)@.contains_key(to) ==> (r matches Err(ArchiveError::DestFileAlreadyExists))
                &&& !old(self)@.contains_key(to) && !old(self)@.contains_key(from) ==> (r matches Err(ArchiveError::SrcFileNotFound))
                &&& !old(self)@.contains_key(to) && old(self)@.contains_key(from) ==> r is Ok
                    && final(self)@ == old(self)@.insert(to, old(self)@[from])
                &&& r is Err ==> final(self)@ == old(self)@
            }),
    {
        proof { use_type_invariant(&*self); }
        let from = to_lower(in_archive_path);
        let to = to_lower(new_in_archive_path);
        let ghost es = self.entries@;
        if let Some(d) = find_entry(&self.entries, &to) {
            assert(entry_keys(es)[d as int] == to@);
            return Err(ArchiveError::DestFileAlreadyExists);
        }
        match find_entry(&self.entries, &from) {
            Some(i) => {
                let f = self.entries[i].1.duplicate();
                proof {
                    assert(entry_keys(es)[i as int] == from@);
                    lemma_table_at(entry_keys(es), rw_values(es), i as int);
                }
                let mut v = self.take_entries();
                v.push((to, f));
                proof {
                    assert(entry_keys(v@) =~= entry_keys(es).push(to@));
                    assert(rw_values(v@) =~= rw_values(es).push(rw_values(es)[i as int]));
                    lemma_table_push(entry_keys(es), rw_values(es), to@, rw_values(es)[i as int]);
                }
                self.entries = v;
                Ok(())
            },
            None => Err(ArchiveError::SrcFileNotFound),
        }
    }
}

/// No two names of `m` have the same CRC once lowercased, and none has the
/// filename table's.
pub open spec fn crcs_apart<V>(m: Map<Seq<char>, V>) -> bool {
    &&& forall|k: Seq<char>| m.contains_key(k) ==> name_crc(lower_of(k)) != FILENAMES_CRC_VALUE
    &&& forall|k1: Seq<char>, k2: Seq<char>| m.contains_key(k1) && m.contains_key(k2) && k1 != k2
        ==> name_crc(lower_of(k1)) != name_crc(lower_of(k2))
}

/// The per-name conditions of `crcs_apart`, by position.
pub proof fn lemma_crcs_apart_at<V>(ks: Seq<Seq<char>>, vs: Seq<V>)
    requires
        crcs_apart(table(ks, vs)),
    ensures
        forall|i: int| 0 <= i < ks.len() ==> name_crc(lower_of(#[trigger] ks[i])) != FILENAMES_CRC_VALUE,
        forall|i: int, j: int| 0 <= i < ks.len() && 0 <= j < ks.len() && ks[i] != ks[j]
            ==> name_crc(lower_of(ks[i])) != name_crc(lower_of(ks[j])),
{
    assert forall|i: int| 0 <= i < ks.len() implies table(ks, vs).contains_key(#[trigger] ks[i]) by {
        assert(ks.contains(ks[i]));
    }
}

/// Round trip: parsing the bytes that saving a read-write archive gives
/// yields, under each name lowercased, exactly the compressed blocks that the
/// name had, so that nothing is recompressed, and no other names. It holds
/// where the lowercased names' CRCs are apart and every file's blocks are
/// storable with a size that fits the size field.
pub proof fn law_readwrite_round_trip(a: ReadWriteArchive, bytes: Seq<u8>)
    requires
        a.wf(),
        saveable(a.keys(), a.sizes(), streams_of(a.values())),
        bytes == archive_image(saved_records(a.keys(), a.sizes(), streams_of(a.values()))),
        inflated(deflation(filename_table(a.keys()))) == Some(filename_table(a.keys())),
        bytes.len() <= usize::MAX,
        crcs_apart(a@),
        forall|k: Seq<char>| #[trigger] a@.contains_key(k) ==> views_size(a@[k]) <= u32::MAX && blocks_storable(a@[k]),
    ensures
        forall|k: Seq<char>| #[trigger] a@.contains_key(k) ==> parsed_contents(bytes).contains_key(lower_of(k))
            && parsed_contents(bytes)[lower_of(k)] == a@[k],
        forall|q: Seq<char>| #[trigger] parsed_contents(bytes).contains_key(q) ==> exists|k: Seq<char>|
            a@.contains_key(k) && lower_of(k) == q,
{
    a.lemma_keys();
    let ks = a.keys();
    let vs = a.values();
    let ns = a.sizes();
    lemma_crcs_apart_at(ks, vs);
    assert forall|i: int| 0 <= i < ks.len() implies
        (#[trigger] ns[i]) as int == views_size(vs[i]) && blocks_storable(vs[i]) by {
        lemma_table_at(ks, vs, i);
        lemma_blocks_size_views(a.entries@[i].1.blocks@);
    }
    lemma_saved_round_trip(ks, ns, vs);
    lemma_lowered_table(ks, vs);
}

/// Re-saving keeps compressed bytes: where a read-write archive was opened
/// from `source` and saved again as `bytes`, parsing `bytes` gives each name,
/// lowercased, exactly the blocks that parsing `source` gave it.
pub proof fn law_resave_keeps_blocks(source: Seq<u8>, a: ReadWriteArchive, bytes: Seq<u8>)
    requires
        a.wf(),
        a@ == parsed_contents(source),
        saveable(a.keys(), a.sizes(), streams_of(a.values())),
        bytes == archive_image(saved_records(a.keys(), a.sizes(), streams_of(a.values()))),
        inflated(deflation(filename_table(a.keys()))) == Some(filename_table(a.keys())),
        bytes.len() <= usize::MAX,
        crcs_apart(a@),
        forall|k: Seq<char>| #[trigger] a@.contains_key(k) ==> views_size(a@[k]) <= u32::MAX && blocks_storable(a@[k]),
    ensures
        forall|k: Seq<char>| #[trigger] parsed_contents(source).contains_key(k) ==> parsed_contents(bytes).contains_key(lower_of(k))
            && parsed_contents(bytes)[lower_of(k)] == parsed_contents(source)[k],
{
    law_readwrite_round_trip(a, bytes);
}

} // verus!

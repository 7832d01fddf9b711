//! A write-only archive: it keeps each file's raw bytes and compresses them
//! only when saving.
use vstd::prelude::*;
use crate::error::ArchiveError;
use crate::archive_trait::{IArchive, IWritableArchive};
use crate::compression::{deflate_blocks, compresses};
use crate::emit::{deflation, inflated, deflated_stream, saved_records, saveable, put_blocks, save_streams, lemma_deflation_views, archive_image};
use crate::table::{table, unique, entry_keys, find_entry, lemma_table_at, lemma_table_push, lemma_table_remove};
use crate::text::{lower_of, to_lower};
use crate::names::{FILENAMES_CRC_VALUE, filename_table};
use crate::checksum::name_crc;
use crate::readwrite::crcs_apart;
use crate::roundtrip::{lemma_saved_round_trip, lemma_deflation_size, lemma_stream_in_image, blocks_storable, views_size};
use crate::emit::{stream_of, streams_of, image_fits};
use crate::directory::parsed_contents;

verus! {

/// The raw bytes of one file.
pub struct WritableArchiveFile {
    pub data: Vec<u8>,
}

impl WritableArchiveFile {
    /// The block stream of the file: each chunk of at most 8,192 bytes
    /// compressed and written as a block record.
    pub fn deflate(&self) -> (r: Result<Vec<u8>, ArchiveError>)
        ensures
            r matches Ok(b) ==> b@ == deflated_stream(self.data@),
            r is Ok ==> inflated(deflation(self.data@)) == Some(self.data@),
            r is Ok <==> compresses(self.data@),
            r matches Err(e) ==> e is Compression,
    {
        let blocks = match deflate_blocks(self.data.as_slice()) {
            Ok(bs) => bs,
            Err(e) => return Err(e),
        };
        proof {
            lemma_deflation_views(blocks@, self.data@);
            crate::compression::lemma_inflate_deflation(blocks@, self.data@);
        }
        let mut out: Vec<u8> = Vec::new();
        put_blocks(&mut out, &blocks);
        Ok(out)
    }
}

/// A writable PFS archive. It keeps raw bytes and compresses them at save time.
pub struct WritableArchive {
    entries: Vec<(String, WritableArchiveFile)>,
}

/// The bytes of each entry.
pub open spec fn w_values(es: Seq<(String, WritableArchiveFile)>) -> Seq<Seq<u8>> {
    es.map_values(|e: (String, WritableArchiveFile)| e.1.data@)
}

/// The block stream that saving gives each of `vals`.
pub open spec fn w_streams(vals: Seq<Seq<u8>>) -> Seq<Seq<u8>> {
    vals.map_values(|d: Seq<u8>| deflated_stream(d))
}

/// The size that saving records for each of `vals`.
pub open spec fn w_sizes(vals: Seq<Seq<u8>>) -> Seq<usize> {
    vals.map_values(|d: Seq<u8>| d.len() as usize)
}

impl WritableArchive {
    #[verifier::type_invariant]
    spec fn inv(self) -> bool {
        self.wf()
    }

    /// No two entries share a name.
    pub closed spec fn wf(&self) -> bool {
        unique(entry_keys(self.entries@))
    }

    /// The names in the order in which the archive keeps them.
    pub closed spec fn keys(&self) -> Seq<Seq<char>> {
        entry_keys(self.entries@)
    }

    /// The bytes of each file, in the order of `keys`.
    pub closed spec fn values(&self) -> Seq<Seq<u8>> {
        w_values(self.entries@)
    }

    /// The keys are distinct, and the map pairs each with its bytes.
    pub proof fn lemma_keys(&self)
        requires
            self.wf(),
        ensures
            unique(self.keys()),
            self.keys().len() == self.values().len(),
            self@ == table(self.keys(), self.values()),
    {
    }

    /// Every archive value held by exec code is well formed.
    pub fn check_wf(&self)
        ensures
            self.wf(),
    {
        proof { use_type_invariant(self); }
    }

    /// Moves the entries out, leaving the archive empty.
    fn take_entries(&mut self) -> (r: Vec<(String, WritableArchiveFile)>)
        ensures
            r@ == old(self).entries@,
            final(self).entries@ == Seq::<(String, WritableArchiveFile)>::empty(),
    {
        let mut es: Vec<(String, WritableArchiveFile)> = Vec::new();
        std::mem::swap(&mut self.entries, &mut es);
        es
    }
}

impl View for WritableArchive {
    type V = Map<Seq<char>, Seq<u8>>;

    closed spec fn view(&self) -> Self::V {
        table(entry_keys(self.entries@), w_values(self.entries@))
    }
}

impl IArchive for WritableArchive {
    fn new() -> (r: Self)
        ensures
            r@ == Map::<Seq<char>, Seq<u8>>::empty(),
    {
        let r = WritableArchive { entries: Vec::new() };
        assert(r@ =~= Map::<Seq<char>, Seq<u8>>::empty());
        r
    }

    fn close(&mut self)
        ensures
            final(self)@ == Map::<Seq<char>, Seq<u8>>::empty(),
    {
        self.entries = Vec::new();
        assert(self@ =~= Map::<Seq<char>, Seq<u8>>::empty());
    }
}

impl IWritableArchive for WritableArchive {
    fn save_to_bytes(&self) -> (r: Result<Vec<u8>, ArchiveError>)
        ensures
            ({
                let (ks, ns, ss) = (self.keys(), w_sizes(self.values()), w_streams(self.values()));
                &&& r matches Ok(b) ==> saveable(ks, ns, ss) && b@ == archive_image(saved_records(ks, ns, ss))
                &&& r matches Err(e) ==> e is Compression || (e is Unknown && !saveable(ks, ns, ss))
                &&& saveable(ks, ns, ss) ==> !(r matches Err(ArchiveError::Unknown))
                &&& saveable(ks, ns, ss) && compresses(filename_table(ks))
                    && (forall|i: int| 0 <= i < self.values().len() ==> compresses(#[trigger] self.values()[i])) ==> r is Ok
                &&& r is Ok ==> inflated(deflation(filename_table(ks))) == Some(filename_table(ks))
                &&& r is Ok ==> forall|i: int| 0 <= i < self.values().len() ==>
                    inflated(deflation(#[trigger] self.values()[i])) == Some(self.values()[i])
            }),
    {
        let mut keys: Vec<String> = Vec::new();
        let mut sizes: Vec<usize> = Vec::new();
        let mut streams: Vec<Vec<u8>> = Vec::new();
        let mut i: usize = 0;
        while i < self.entries.len()
            invariant
                0 <= i <= self.entries@.len(),
                keys@.len() == i,
                sizes@.len() == i,
                streams@.len() == i,
                crate::table::keys_of(keys@) == self.keys().subrange(0, i as int),
                sizes@ == w_sizes(self.values()).subrange(0, i as int),
                streams@.map_values(|s: Vec<u8>| s@) == w_streams(self.values()).subrange(0, i as int),
                forall|j: int| 0 <= j < i ==> inflated(deflation(#[trigger] self.values()[j])) == Some(self.values()[j]),
            decreases self.entries@.len() - i,
        {
            let ghost (k0, s0, t0) = (keys@, sizes@, streams@);
            let e = &self.entries[i];
            let stream = match e.1.deflate() {
                Ok(st) => st,
                Err(err) => {
                    assert(!compresses(self.values()[i as int]));
                    return Err(err);
                },
            };
            assert(self.values()[i as int] == e.1.data@);
            keys.push(e.0.clone());
            sizes.push(e.1.data.len());
            streams.push(stream);
            proof {
                assert(crate::table::keys_of(keys@) =~= crate::table::keys_of(k0).push(self.keys()[i as int]));
                assert(self.keys().subrange(0, i + 1) =~= self.keys().subrange(0, i as int).push(self.keys()[i as int]));
                assert(sizes@ =~= w_sizes(self.values()).subrange(0, i + 1));
                assert(streams@.map_values(|s: Vec<u8>| s@) =~= t0.map_values(|s: Vec<u8>| s@).push(w_streams(self.values())[i as int]));
                assert(w_streams(self.values()).subrange(0, i + 1) =~= w_streams(self.values()).subrange(0, i as int).push(w_streams(self.values())[i as int]));
            }
            i = i + 1;
        }
        proof {
            assert(self.keys().subrange(0, i as int) =~= self.keys());
            assert(w_sizes(self.values()).subrange(0, i as int) =~= w_sizes(self.values()));
            assert(w_streams(self.values()).subrange(0, i as int) =~= w_streams(self.values()));
        }
        save_streams(&keys, &sizes, streams)
    }

    fn set(&mut self, in_archive_path: &str, input: &[u8]) -> (r: Result<(), ArchiveError>)
        ensures
            old(self)@.contains_key(lower_of(in_archive_path@)) ==> (r matches Err(ArchiveError::DestFileAlreadyExists))
                && final(self)@ == old(self)@,
            !old(self)@.contains_key(lower_of(in_archive_path@)) ==> r is Ok
                && final(self)@ == old(self)@.insert(lower_of(in_archive_path@), input@),
    {
        proof { use_type_invariant(&*self); }
        let key = to_lower(in_archive_path);
        let ghost es = self.entries@;
        if let Some(d) = find_entry(&self.entries, &key) {
            assert(entry_keys(es)[d as int] == key@);
            return Err(ArchiveError::DestFileAlreadyExists);
        }
        let file = WritableArchiveFile { data: vstd::slice::slice_to_vec(input) };
        let mut v = self.take_entries();
        v.push((key, file));
        proof {
            assert(entry_keys(v@) =~= entry_keys(es).push(lower_of(in_archive_path@)));
            assert(w_values(v@) =~= w_values(es).push(input@));
            lemma_table_push(entry_keys(es), w_values(es), lower_of(in_archive_path@), input@);
        }
        self.entries = v;
        Ok(())
    }

    fn remove(&mut self, in_archive_path: &str) -> (r: Result<(), ArchiveError>)
        ensures
            old(self)@.contains_key(lower_of(in_archive_path@)) ==> r is Ok
                && final(self)@ == old(self)@.remove(lower_of(in_archive_path@)),
            !old(self)@.contains_key(lower_of(in_archive_path@)) ==> (r matches Err(ArchiveError::SrcFileNotFound))
                && final(self)@ == old(self)@,
    {
        proof { use_type_invariant(&*self); }
        let key = to_lower(in_archive_path);
        let ghost es = self.entries@;
        match find_entry(&self.entries, &key) {
            Some(i) => {
                let mut v = self.take_entries();
                v.remove(i);
                proof {
                    assert(entry_keys(es)[i as int] == key@);
                    assert(entry_keys(v@) =~= entry_keys(es).remove(i as int));
                    assert(w_values(v@) =~= w_values(es).remove(i as int));
                    lemma_table_remove(entry_keys(es), w_values(es), i as int);
                }
                self.entries = v;
                Ok(())
            },
            None => Err(ArchiveError::SrcFileNotFound),
        }
    }

    fn rename(&mut self, in_archive_path: &str, new_in_archive_path: &str) -> (r: Result<(), ArchiveError>)
        ensures
            ({
                let (from, to) = (lower_of(in_archive_path@), lower_of(new_in_archive_path@));
                &&& old(self)@.contains_key(to) ==> (r matches Err(ArchiveError::DestFileAlreadyExists))
                &&& !old(self)@.contains_key(to) && !old(self)@.contains_key(from) ==> (r matches Err(ArchiveError::SrcFileNotFound))
                &&& !old(self)@.contains_key(to) && old(self)@.contains_key(from) ==> r is Ok
                    && final(self)@ == old(self)@.remove(from).insert(to, old(self)@[from])
                &&& r is Err ==> final(self)@ == old(self)@
            }),
    {
        proof { use_type_invariant(&*self); }
        let from = to_lower(in_archive_path);
        let to = to_lower(new_in_archive_path);
        let ghost es = self.entries@;
        if let Some(d) = find_entry(&self.entries, &to) {
            assert(entry_keys(es)[d as int] == to@);
            return Err(ArchiveError::DestFileAlreadyExists);
        }
        match find_entry(&self.entries, &from) {
            Some(i) => {
                let mut v = self.take_entries();
                let (_, f) = v.remove(i);
                proof {
                    assert(entry_keys(es)[i as int] == from@);
                    lemma_table_at(entry_keys(es), w_values(es), i as int);
                    assert(entry_keys(v@) =~= entry_keys(es).remove(i as int));
                    assert(w_values(v@) =~= w_values(es).remove(i as int));
                    lemma_table_remove(entry_keys(es), w_values(es), i as int);
                    assert(!entry_keys(v@).contains(to@)) by {
                        if entry_keys(v@).contains(to@) {
                            let q = choose|q: int| 0 <= q < entry_keys(v@).len() && entry_keys(v@)[q] == to@;
                            let q2 = if q < i { q } else { q + 1 };
                            assert(entry_keys(es)[q2] == to@);
                        }
                    }
                }
                let ghost mid = v@;
                v.push((to, f));
                proof {
                    assert(entry_keys(v@) =~= entry_keys(mid).push(to@));
                    assert(w_values(v@) =~= w_values(mid).push(w_values(es)[i as int]));
                    lemma_table_push(entry_keys(mid), w_values(mid), to@, w_values(es)[i as int]);
                }
                self.entries = v;
                Ok(())
            },
            None => Err(ArchiveError::SrcFileNotFound),
        }
    }

    fn copy(&mut self, in_archive_path: &str, new_in_archive_path: &str) -> (r: Result<(), ArchiveError>)
        ensures
            ({
                let (from, to) = (lower_of(in_archive_path@), lower_of(new_in_archive_path@));
                &&& old(self)@.contains_key(to) ==> (r matches Err(ArchiveError::DestFileAlreadyExists))
                &&& !old(self)@.contains_key(to) && !old(self)@.contains_key(from) ==> (r matches Err(ArchiveError::SrcFileNotFound))
                &&& !old(self)@.contains_key(to) && old(self)@.contains_key(from) ==> r is Ok
                    && final(self)@ == old(self)@.insert(to, old(self)@[from])
                &&& r is Err ==> final(self)@ == old(self)@
            }),
    {
        proof { use_type_invariant(&*self); }
        let from = to_lower(in_archive_path);
        let to = to_lower(new_in_archive_path);
        let ghost es = self.entries@;
        if let Some(d) = find_entry(&self.entries, &to) {
            assert(entry_keys(es)[d as int] == to@);
            return Err(ArchiveError::DestFileAlreadyExists);
        }
        match find_entry(&self.entries, &from) {
            Some(i) => {
                let f = WritableArchiveFile { data: vstd::slice::slice_to_vec(self.entries[i].1.data.as_slice()) };
                proof {
                    assert(entry_keys(es)[i as int] == from@);
                    lemma_table_at(entry_keys(es), w_values(es), i as int);
                }
                let mut v = self.take_entries();
                v.push((to, f));
                proof {
                    assert(entry_keys(v@) =~= entry_keys(es).push(to@));
                    assert(w_values(v@) =~= w_values(es).push(w_values(es)[i as int]));
                    lemma_table_push(entry_keys(es), w_values(es), to@, w_values(es)[i as int]);
                }
                self.entries = v;
                Ok(())
            },
            None => Err(ArchiveError::SrcFileNotFound),
        }
    }
}

proof fn lemma_deflation_storable(fs: Seq<(u32, u32, Seq<u8>)>, i: int, d: Seq<u8>)
    requires
        0 <= i < fs.len(),
        fs[i].2 == stream_of(deflation(d)),
        image_fits(fs),
    ensures
        blocks_storable(deflation(d)),
        views_size(deflation(d)) == d.len(),
{
    lemma_deflation_size(d);
    lemma_stream_in_image(fs, i);
    let ds = deflation(d);
    assert forall|k: int| 0 <= k < ds.len() implies 1 <= (#[trigger] ds[k]).0 <= u32::MAX && ds[k].1.len() <= u32::MAX by {
        crate::roundtrip::lemma_stream_holds_block(ds, k);
    }
}

/// Round trip: parsing the bytes that saving a writable archive gives yields,
/// under each name lowercased, the blocks that deflating its bytes gives, and
/// no other names; those blocks decompress to the bytes that were set. It
/// holds where the lowercased names' CRCs are apart and each file's size
/// fits the size field.
pub proof fn law_writable_round_trip(a: WritableArchive, bytes: Seq<u8>)
    requires
        a.wf(),
        saveable(a.keys(), w_sizes(a.values()), w_streams(a.values())),
        bytes == archive_image(saved_records(a.keys(), w_sizes(a.values()), w_streams(a.values()))),
        inflated(deflation(filename_table(a.keys()))) == Some(filename_table(a.keys())),
        forall|i: int| 0 <= i < a.values().len() ==> inflated(deflation(#[trigger] a.values()[i])) == Some(a.values()[i]),
        bytes.len() <= usize::MAX,
        crcs_apart(a@),
        forall|k: Seq<char>| #[trigger] a@.contains_key(k) ==> a@[k].len() <= u32::MAX,
    ensures
        forall|k: Seq<char>| #[trigger] a@.contains_key(k) ==> parsed_contents(bytes).contains_key(lower_of(k))
            && parsed_contents(bytes)[lower_of(k)] == deflation(a@[k])
            && inflated(parsed_contents(bytes)[lower_of(k)]) == Some(a@[k]),
        forall|q: Seq<char>| #[trigger] parsed_contents(bytes).contains_key(q) ==> exists|k: Seq<char>|
            a@.contains_key(k) && lower_of(k) == q,
{
    a.lemma_keys();
    let ks = a.keys();
    let vs = a.values();
    let ns = w_sizes(vs);
    let ds = vs.map_values(|d: Seq<u8>| deflation(d));
    assert(streams_of(ds) =~= w_streams(vs));
    let fs = saved_records(ks, ns, streams_of(ds));
    assert(image_fits(fs));
    crate::readwrite::lemma_crcs_apart_at(ks, vs);
    assert forall|i: int| 0 <= i < ks.len() implies
        (#[trigger] ns[i]) as int == views_size(ds[i]) && blocks_storable(ds[i]) by {
        lemma_table_at(ks, vs, i);
        assert(fs[i].2 == stream_of(ds[i]));
        assert(ds[i] == deflation(vs[i]));
        lemma_deflation_storable(fs, i, vs[i]);
    }
    lemma_saved_round_trip(ks, ns, ds);
    crate::roundtrip::lemma_lowered_table(ks, ds);
    assert forall|k: Seq<char>| #[trigger] a@.contains_key(k) implies table(ks, ds).contains_key(k)
        && table(ks, ds)[k] == deflation(a@[k]) && inflated(deflation(a@[k])) == Some(a@[k]) by {
        let i = choose|i: int| 0 <= i < ks.len() && ks[i] == k;
        lemma_table_at(ks, vs, i);
        lemma_table_at(ks, ds, i);
    }
    assert forall|q: Seq<char>| #[trigger] parsed_contents(bytes).contains_key(q) implies exists|k: Seq<char>|
        a@.contains_key(k) && lower_of(k) == q by {
        let k = choose|k: Seq<char>| table(ks, ds).contains_key(k) && lower_of(k) == q;
        assert(ks.contains(k));
    }
}

} // verus!

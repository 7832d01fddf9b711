//! A read-only archive: it keeps the archive buffer and, per file, where its
//! blocks lie in it; files are decompressed on demand.
use vstd::prelude::*;
use crate::error::ArchiveError;
use crate::archive_trait::{IArchive, IReadableArchive};
use crate::directory::{
    BlockRef, ParseFault, do_parse, parse_archive, parsed_contents, ref_views, resolved_keys, refs_in_bounds,
    inflate_refs,
};
use crate::emit::inflated;
use crate::table::{table, unique, entry_keys, find_entry, lemma_table_at};
use crate::text::{lower_of, to_lower, regex_compiles, regex_match_of, compile_regex, regex_is_match, select_names};

verus! {

/// Where the blocks of one file lie in the archive buffer.
pub struct ArchiveFile {
    pub size: usize,
    pub blocks: Vec<BlockRef>,
}

/// A readable PFS archive: the cheapest to open, as it decompresses nothing
/// until a file is asked for.
pub struct ReadableArchive {
    data: Vec<u8>,
    entries: Vec<(String, ArchiveFile)>,
}

/// The blocks of each entry, as they lie in `data`.
pub open spec fn r_values(data: Seq<u8>, es: Seq<(String, ArchiveFile)>) -> Seq<Seq<(usize, Seq<u8>)>> {
    es.map_values(|e: (String, ArchiveFile)| ref_views(data, e.1.blocks@))
}

impl ReadableArchive {
    #[verifier::type_invariant]
    spec fn inv(self) -> bool {
        self.wf()
    }

    /// No two entries share a name and every block lies inside the buffer.
    pub closed spec fn wf(&self) -> bool {
        &&& unique(entry_keys(self.entries@))
        &&& forall|i: int| 0 <= i < self.entries@.len() ==> refs_in_bounds((#[trigger] self.entries@[i]).1.blocks@, self.data@.len())
    }
}

impl View for ReadableArchive {
    type V = Map<Seq<char>, Seq<(usize, Seq<u8>)>>;

    closed spec fn view(&self) -> Self::V {
        table(entry_keys(self.entries@), r_values(self.data@, self.entries@))
    }
}

impl IArchive for ReadableArchive {
    fn new() -> (r: Self)
        ensures
            r@ == Map::<Seq<char>, Seq<(usize, Seq<u8>)>>::empty(),
    {
        let r = ReadableArchive { data: Vec::new(), entries: Vec::new() };
        assert(r@ =~= Map::<Seq<char>, Seq<(usize, Seq<u8>)>>::empty());
        r
    }

    fn close(&mut self)
        ensures
            final(self)@ == Map::<Seq<char>, Seq<(usize, Seq<u8>)>>::empty(),
    {
        *self = ReadableArchive { data: Vec::new(), entries: Vec::new() };
        assert(self@ =~= Map::<Seq<char>, Seq<(usize, Seq<u8>)>>::empty());
    }
}

impl IReadableArchive for ReadableArchive {
    fn open_from_bytes(&mut self, input: &[u8]) -> (r: Result<(), ArchiveError>)
        ensures
            final(self)@ == parsed_contents(input@),
            match parse_archive(input@) {
                Ok(_) => r is Ok,
                Err(ParseFault::Version(v)) => r matches Err(ArchiveError::WrongVersion { version }) && version == v,
                Err(ParseFault::Malformed) => r matches Err(ArchiveError::Parse(_)),
                Err(ParseFault::Inflate) => r matches Err(ArchiveError::Decompression),
            },
    {
        self.close();
        let data = vstd::slice::slice_to_vec(input);
        let parsed = do_parse(data.as_slice())?;
        let ghost es = parsed.entries@;
        let ghost ws = parsed.walks_view();
        let ghost rs = parsed.resolved();
        proof { crate::directory::lemma_parsed_unique(input@); }
        let mut entries: Vec<(String, ArchiveFile)> = Vec::new();
        let mut j: usize = 0;
        while j < parsed.names.len()
            invariant
                data@ == input@,
                parsed.models(input@),
                es == parsed.entries@,
                ws == parsed.walks_view(),
                rs == parsed.resolved(),
                unique(resolved_keys(rs)),
                0 <= j <= rs.len(),
                entry_keys(entries@) == resolved_keys(rs).subrange(0, j as int),
                r_values(input@, entries@) == rs.map_values(|p: (Seq<char>, int)| ref_views(input@, ws[p.1])).subrange(0, j as int),
                forall|i: int| 0 <= i < entries@.len() ==> refs_in_bounds((#[trigger] entries@[i]).1.blocks@, input@.len()),
            decreases rs.len() - j,
        {
            let k = parsed.picks[j];
            assert(rs[j as int].1 == k as int);
            assert(parsed.walks@[k as int]@ == ws[k as int]);
            let blocks = copy_refs(&parsed.walks[k]);
            let size = parsed.entries[k].size as usize;
            let ghost before = entries@;
            entries.push((parsed.names[j].clone(), ArchiveFile { size, blocks }));
            proof {
                assert(entry_keys(entries@) =~= entry_keys(before).push(rs[j as int].0));
                assert(resolved_keys(rs).subrange(0, j + 1) =~= resolved_keys(rs).subrange(0, j as int).push(rs[j as int].0));
                let vs = rs.map_values(|p: (Seq<char>, int)| ref_views(input@, ws[p.1]));
                assert(r_values(input@, entries@) =~= r_values(input@, before).push(vs[j as int]));
                assert(vs.subrange(0, j + 1) =~= vs.subrange(0, j as int).push(vs[j as int]));
            }
            j = j + 1;
        }
        proof {
            assert(resolved_keys(rs).subrange(0, rs.len() as int) =~= resolved_keys(rs));
            let vs = rs.map_values(|p: (Seq<char>, int)| ref_views(input@, ws[p.1]));
            assert(vs.subrange(0, rs.len() as int) =~= vs);
        }
        *self = ReadableArchive { data, entries };
        Ok(())
    }

    fn get(&self, in_archive_path: &str) -> (r: Result<Vec<u8>, ArchiveError>)
        ensures
            !self@.contains_key(lower_of(in_archive_path@)) ==> (r matches Err(ArchiveError::SrcFileNotFound)),
            self@.contains_key(lower_of(in_archive_path@)) ==> match inflated(self@[lower_of(in_archive_path@)]) {
                Some(x) => r matches Ok(v) && v@ == x,
                None => r matches Err(ArchiveError::Decompression),
            },
            r matches Ok(v) ==> v@.len() == crate::roundtrip::views_size(self@[lower_of(in_archive_path@)]),
    {
        proof {
            use_type_invariant(self);
            if self@.contains_key(lower_of(in_archive_path@)) {
                crate::roundtrip::lemma_inflate_len(self@[lower_of(in_archive_path@)]);
            }
        }
        let key = to_lower(in_archive_path);
        match find_entry(&self.entries, &key) {
            Some(i) => {
                proof {
                    lemma_table_at(entry_keys(self.entries@), r_values(self.data@, self.entries@), i as int);
                    let bs = self.entries@[i as int].1.blocks@;
                }
                inflate_refs(self.data.as_slice(), &self.entries[i].1.blocks)
            },
            None => Err(ArchiveError::SrcFileNotFound),
        }
    }

    fn contains(&self, in_archive_path: &str) -> (r: Result<bool, ArchiveError>)
        ensures
            r == Ok::<bool, ArchiveError>(self@.contains_key(lower_of(in_archive_path@))),
    {
        let key = to_lower(in_archive_path);
        let found = find_entry(&self.entries, &key);
        proof {
            if let Some(i) = found {
                assert(entry_keys(self.entries@)[i as int] == key@);
            }
        }
        Ok(found.is_some())
    }

    fn search(&self, search_regex: &str) -> (r: Result<Vec<String>, ArchiveError>)
        ensures
            r is Err <==> !regex_compiles(search_regex@),
            r matches Err(e) ==> e is BadRegex,
            r matches Ok(v) ==> forall|i: int| 0 <= i < v@.len() ==> self@.contains_key(#[trigger] v@[i]@),
            r matches Ok(v) ==> unique(v@.map_values(|s: String| s@)),
            r matches Ok(v) ==> forall|k: Seq<char>| #[trigger] crate::table::keys_of(v@).contains(k)
                <==> (self@.contains_key(k) && regex_match_of(search_regex@, k)),
    {
        let re = match compile_regex(search_regex) {
            Ok(re) => re,
            Err(e) => return Err(ArchiveError::BadRegex(e)),
        };
        let mut names: Vec<String> = Vec::new();
        let mut keep: Vec<bool> = Vec::new();
        let mut i: usize = 0;
        while i < self.entries.len()
            invariant
                0 <= i <= self.entries@.len(),
                names@.len() == i,
                keep@.len() == i,
                names@.map_values(|s: String| s@) == entry_keys(self.entries@).subrange(0, i as int),
                re.pattern() == search_regex@,
                forall|j: int| 0 <= j < i ==> keep@[j] == regex_match_of(search_regex@, #[trigger] entry_keys(self.entries@)[j]),
            decreases self.entries@.len() - i,
        {
            let ghost before = names@;
            names.push(self.entries[i].0.clone());
            keep.push(regex_is_match(&re, self.entries[i].0.as_str()));
            assert(names@.map_values(|s: String| s@) =~= before.map_values(|s: String| s@).push(self.entries@[i as int].0@));
            i = i + 1;
        }
        assert(entry_keys(self.entries@).subrange(0, i as int) =~= entry_keys(self.entries@));
        let out = select_names(&names, &keep);
        proof {
            use_type_invariant(self);
            crate::text::lemma_selected_sub(names@.map_values(|s: String| s@), keep@);
            crate::text::lemma_selected_contains(names@.map_values(|s: String| s@), keep@);
            let ns = names@.map_values(|s: String| s@);
            let ek = entry_keys(self.entries@);
            assert(ns == ek);
            assert forall|k: Seq<char>| #[trigger] crate::table::keys_of(out@).contains(k)
                <==> (self@.contains_key(k) && regex_match_of(search_regex@, k)) by {
                if self@.contains_key(k) && regex_match_of(search_regex@, k) {
                    let i = choose|i: int| 0 <= i < ek.len() && ek[i] == k;
                    assert(keep@[i] && ns[i] == k);
                }
            }
            assert forall|q: int| 0 <= q < out@.len() implies self@.contains_key(#[trigger] out@[q]@) by {
                assert(out@.map_values(|s: String| s@)[q] == out@[q]@);
            }
        }
        Ok(out)
    }
}

/// A copy of `refs`.
fn copy_refs(refs: &Vec<BlockRef>) -> (r: Vec<BlockRef>)
    ensures
        r@ == refs@,
{
    let mut out: Vec<BlockRef> = Vec::new();
    let mut i: usize = 0;
    while i < refs.len()
        invariant
            0 <= i <= refs@.len(),
            out@ == refs@.subrange(0, i as int),
        decreases refs@.len() - i,
    {
        out.push(refs[i]);
        assert(out@ =~= refs@.subrange(0, i + 1));
        i = i + 1;
    }
    assert(refs@.subrange(0, refs@.len() as int) =~= refs@);
    out
}

} // verus!

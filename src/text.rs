//! Text operations that the archive relies on: case folding, UTF-8 decoding
//! and regular-expression matching.
use vstd::prelude::*;
use vstd::utf8::{valid_utf8, decode_utf8};
use crate::table::unique;

verus! {

/// What `str::to_lowercase` gives for `s`.
pub uninterp spec fn lower_of(s: Seq<char>) -> Seq<char>;

/// Relies on `str::to_lowercase`: the result depends on the characters alone.
#[verifier::external_body]
pub(crate) fn to_lower(s: &str) -> (r: String)
    ensures
        r@ == lower_of(s@),
{
    s.to_lowercase()
}

/// Relies on `std::str::from_utf8`: it accepts exactly the valid UTF-8
/// sequences, and the string it gives holds the characters they encode.
#[verifier::external_body]
pub(crate) fn utf8_decode(bytes: &[u8]) -> (r: Result<String, std::str::Utf8Error>)
    ensures
        r is Ok <==> valid_utf8(bytes@),
        r matches Ok(s) ==> s@ == decode_utf8(bytes@),
{
    match std::str::from_utf8(bytes) {
        Ok(s) => Ok(s.to_string()),
        Err(e) => Err(e),
    }
}

#[verifier::external_type_specification]
#[verifier::external_body]
pub struct ExRegex(regex::Regex);

/// Whether `regex::Regex::new` accepts `pattern`.
pub uninterp spec fn regex_compiles(pattern: Seq<char>) -> bool;

/// Whether `regex::Regex::is_match` finds a match of `pattern` in `text`.
pub uninterp spec fn regex_match_of(pattern: Seq<char>, text: Seq<char>) -> bool;

/// A compiled regular expression together with the pattern it was compiled from.
pub struct CompiledRegex {
    re: regex::Regex,
    source: Ghost<Seq<char>>,
}

impl CompiledRegex {
    /// The pattern that the expression was compiled from.
    pub closed spec fn pattern(&self) -> Seq<char> {
        self.source@
    }
}

/// Relies on `regex::Regex::new`: whether a pattern compiles depends on the
/// pattern alone; the compiled expression is kept with that pattern.
#[verifier::external_body]
pub(crate) fn compile_regex(pattern: &str) -> (r: Result<CompiledRegex, regex::Error>)
    ensures
        r is Ok <==> regex_compiles(pattern@),
        r matches Ok(c) ==> c.pattern() == pattern@,
{
    match regex::Regex::new(pattern) {
        Ok(re) => Ok(CompiledRegex { re, source: Ghost(pattern@) }),
        Err(e) => Err(e),
    }
}

/// Relies on `regex::Regex::is_match`: the answer depends on the pattern and
/// the text alone.
#[verifier::external_body]
pub(crate) fn regex_is_match(re: &CompiledRegex, text: &str) -> (r: bool)
    ensures
        r == regex_match_of(re.pattern(), text@),
{
    re.re.is_match(text)
}

/// A name is selected exactly when some position holds it with its flag set.
pub proof fn lemma_selected_contains(names: Seq<Seq<char>>, keep: Seq<bool>)
    requires
        names.len() == keep.len(),
    ensures
        forall|k: Seq<char>| #[trigger] selected(names, keep).contains(k) <==> exists|i: int|
            0 <= i < names.len() && keep[i] && names[i] == k,
    decreases names.len(),
{
    if names.len() > 0 {
        let init = names.drop_last();
        let ks = keep.subrange(0, keep.len() - 1);
        lemma_selected_contains(init, ks);
        let rest = selected(init, ks);
        let n = names.len() - 1;
        assert forall|k: Seq<char>| #[trigger] selected(names, keep).contains(k) <==> exists|i: int|
            0 <= i < names.len() && keep[i] && names[i] == k by {
            if selected(names, keep).contains(k) {
                if rest.contains(k) {
                    let i = choose|i: int| 0 <= i < init.len() && ks[i] && init[i] == k;
                    assert(keep[i] && names[i] == k);
                } else {
                    let q = choose|q: int| 0 <= q < selected(names, keep).len() && selected(names, keep)[q] == k;
                    assert(keep[n] && names[n] == k);
                }
            }
            if exists|i: int| 0 <= i < names.len() && keep[i] && names[i] == k {
                let i = choose|i: int| 0 <= i < names.len() && keep[i] && names[i] == k;
                if i < n {
                    assert(ks[i] && init[i] == k);
                    assert(rest.contains(k));
                    let q = choose|q: int| 0 <= q < rest.len() && rest[q] == k;
                    assert(selected(names, keep)[q] == k);
                } else {
                    assert(selected(names, keep) == rest.push(names.last()));
                    assert(selected(names, keep)[rest.len() as int] == k);
                }
            }
        }
    } else {
        assert forall|k: Seq<char>| #[trigger] selected(names, keep).contains(k) implies false by {}
    }
}

/// The names of `names` whose flag in `keep` is set, in their order.
pub open spec fn selected(names: Seq<Seq<char>>, keep: Seq<bool>) -> Seq<Seq<char>>
    decreases names.len(),
{
    if names.len() == 0 || keep.len() == 0 {
        Seq::empty()
    } else {
        let rest = selected(names.drop_last(), keep.subrange(0, keep.len() - 1));
        if keep.last() && names.len() == keep.len() {
            rest.push(names.last())
        } else {
            rest
        }
    }
}

/// Every selected name is one of `names`; distinct names stay distinct.
pub proof fn lemma_selected_sub(names: Seq<Seq<char>>, keep: Seq<bool>)
    requires
        names.len() == keep.len(),
    ensures
        forall|q: int| 0 <= q < selected(names, keep).len() ==> names.contains(#[trigger] selected(names, keep)[q]),
        unique(names) ==> unique(selected(names, keep)),
    decreases names.len(),
{
    if names.len() > 0 {
        let init = names.drop_last();
        let ks = keep.subrange(0, keep.len() - 1);
        lemma_selected_sub(init, ks);
        let rest = selected(init, ks);
        assert forall|q: int| 0 <= q < rest.len() implies names.contains(#[trigger] rest[q]) by {
            assert(init.contains(rest[q]));
            let i = choose|i: int| 0 <= i < init.len() && init[i] == rest[q];
            assert(names[i] == rest[q]);
        }
        assert(names[names.len() - 1] == names.last());
        if unique(names) {
            assert(unique(init)) by {
                assert forall|a: int, b: int| 0 <= a < init.len() && 0 <= b < init.len() && a != b implies init[a] != init[b] by {
                    assert(init[a] == names[a] && init[b] == names[b]);
                }
            }
            assert forall|q: int| 0 <= q < rest.len() implies rest[q] != names.last() by {
                assert(init.contains(rest[q]));
                let i = choose|i: int| 0 <= i < init.len() && init[i] == rest[q];
                assert(names[i] == rest[q]);
            }
        }
    }
}

/// Keeps the names whose flag is set, in order.
pub fn select_names(names: &Vec<String>, keep: &Vec<bool>) -> (r: Vec<String>)
    requires
        names@.len() == keep@.len(),
    ensures
        r@.map_values(|s: String| s@) == selected(names@.map_values(|s: String| s@), keep@),
{
    let mut out: Vec<String> = Vec::new();
    let mut i: usize = 0;
    while i < names.len()
        invariant
            names@.len() == keep@.len(),
            0 <= i <= names@.len(),
            out@.map_values(|s: String| s@) == selected(
                names@.map_values(|s: String| s@).subrange(0, i as int),
                keep@.subrange(0, i as int),
            ),
        decreases names@.len() - i,
    {
        let ghost before = out@;
        if keep[i] {
            out.push(names[i].clone());
        }
        proof {
            let ns = names@.map_values(|s: String| s@).subrange(0, i + 1);
            let ks = keep@.subrange(0, i + 1);
            assert(ns.drop_last() =~= names@.map_values(|s: String| s@).subrange(0, i as int));
            assert(ks.subrange(0, ks.len() - 1) =~= keep@.subrange(0, i as int));
            if keep@[i as int] {
                assert(out@.map_values(|s: String| s@) =~= before.map_values(|s: String| s@).push(names@[i as int]@));
            }
        }
        i = i + 1;
    }
    proof {
        assert(names@.map_values(|s: String| s@).subrange(0, names@.len() as int) =~= names@.map_values(|s: String| s@));
        assert(keep@.subrange(0, keep@.len() as int) =~= keep@);
    }
    out
}

} // verus!

//! The outside capabilities the scanner relies on: a multi-pattern
//! (Aho–Corasick) matcher and reverse complementation of nucleotide text.
use aho_corasick::AhoCorasick;
use needletail::Sequence;
use vstd::prelude::*;

verus! {

#[verifier::external_type_specification]
#[verifier::external_body]
pub struct ExAhoCorasick(AhoCorasick);

/// The patterns an automaton was built from, indexed by pattern identifier.
pub uninterp spec fn matcher_patterns(a: AhoCorasick) -> Seq<Seq<u8>>;

/// Whether an automaton was built with standard (all matches) semantics.
pub uninterp spec fn matcher_is_standard(a: AhoCorasick) -> bool;

/// `pat` occurs in `hay` starting at `p`.
pub open spec fn occurs_at(hay: Seq<u8>, pat: Seq<u8>, p: int) -> bool {
    0 <= p && p + pat.len() <= hay.len() && hay.subrange(p, p + pat.len()) == pat
}

/// `hits` lists (start, pattern identifier) pairs that are exactly the
/// occurrences of `pats` in `hay`, each at least once.
pub open spec fn hits_exact(hits: Seq<(usize, usize)>, hay: Seq<u8>, pats: Seq<Seq<u8>>) -> bool {
    &&& forall|k: int|
        0 <= k < hits.len() ==> (#[trigger] hits[k]).1 < pats.len() && occurs_at(
            hay,
            pats[hits[k].1 as int],
            hits[k].0 as int,
        )
    &&& forall|p: int, id: int|
        0 <= id < pats.len() && #[trigger] occurs_at(hay, pats[id], p) ==> exists|k: int|
            0 <= k < hits.len() && #[trigger] hits[k] == (p as usize, id as usize)
}

/// Whether an automaton can be built over these patterns within the
/// matcher's internal size limits.
pub uninterp spec fn matcher_builds(pats: Seq<Seq<u8>>) -> bool;

/// Relies on `AhoCorasick::new`: with its default settings (standard match
/// semantics) it builds an automaton whose pattern identifiers are the
/// positions in `patterns`, or reports a build error; whether it fails
/// depends on the patterns alone.
#[verifier::external_body]
pub(crate) fn build_matcher(patterns: &Vec<Vec<u8>>) -> (r: Option<AhoCorasick>)
    ensures
        r is Some <==> matcher_builds(patterns@.map_values(|p: Vec<u8>| p@)),
        r matches Some(a) ==> matcher_patterns(a) == patterns@.map_values(|p: Vec<u8>| p@)
            && matcher_is_standard(a),
{
    AhoCorasick::new(patterns).ok()
}

/// Relies on `AhoCorasick::find_overlapping_iter`: under standard semantics
/// it reports every match of every pattern at every position (it panics only
/// under leftmost semantics); each match is taken as (start, pattern id).
#[verifier::external_body]
pub(crate) fn overlapping_matches(a: &AhoCorasick, hay: &[u8]) -> (r: Vec<(usize, usize)>)
    requires
        matcher_is_standard(*a),
        forall|i: int| 0 <= i < matcher_patterns(*a).len() ==> matcher_patterns(*a)[i].len() > 0,
        forall|i: int, j: int|
            0 <= i < j < matcher_patterns(*a).len() ==> matcher_patterns(*a)[i] != matcher_patterns(*a)[j],
    ensures
        hits_exact(r@, hay@, matcher_patterns(*a)),
{
    a.find_overlapping_iter(hay).map(|m| (m.start(), m.pattern().as_usize())).collect()
}

/// Complement of one symbol as needletail's `sequence::complement` gives it:
/// A/T, C/G and the IUPAC pairs R/Y, K/M, B/V, D/H swap, in either case;
/// every other byte is kept.
pub open spec fn nt_complement(b: u8) -> u8 {
    if b == 65 { 84 }  // A -> T
    else if b == 84 { 65 }  // T -> A
    else if b == 67 { 71 }  // C -> G
    else if b == 71 { 67 }  // G -> C
    else if b == 97 { 116 }  // a -> t
    else if b == 116 { 97 }  // t -> a
    else if b == 99 { 103 }  // c -> g
    else if b == 103 { 99 }  // g -> c
    else if b == 82 { 89 }  // R -> Y
    else if b == 89 { 82 }  // Y -> R
    else if b == 75 { 77 }  // K -> M
    else if b == 77 { 75 }  // M -> K
    else if b == 66 { 86 }  // B -> V
    else if b == 86 { 66 }  // V -> B
    else if b == 68 { 72 }  // D -> H
    else if b == 72 { 68 }  // H -> D
    else if b == 114 { 121 }  // r -> y
    else if b == 121 { 114 }  // y -> r
    else if b == 107 { 109 }  // k -> m
    else if b == 109 { 107 }  // m -> k
    else if b == 98 { 118 }  // b -> v
    else if b == 118 { 98 }  // v -> b
    else if b == 100 { 104 }  // d -> h
    else if b == 104 { 100 }  // h -> d
    else { b }
}

/// Relies on needletail's `Sequence::reverse_complement` on a byte slice: the
/// symbols in reverse order, each mapped by `sequence::complement`.
#[verifier::external_body]
pub(crate) fn reverse_complement(s: &[u8]) -> (r: Vec<u8>)
    ensures
        r@.len() == s@.len(),
        forall|i: int| 0 <= i < s@.len() ==> #[trigger] r@[i] == nt_complement(s@[s@.len() - 1 - i]),
{
    s.reverse_complement()
}

} // verus!

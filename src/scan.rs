//! Chunked scanning: candidate reconstruction from seed hits, with the
//! owned-region rule that keeps overlapping chunks from reporting an
//! alignment twice, and per-chunk deduplication.
use crate::matcher::{build_matcher, matcher_builds, matcher_is_standard, matcher_patterns, occurs_at, overlapping_matches, hits_exact};
use crate::seeds::{
    build_seed_index, copy_range, motifs_view, seed_list, seed_of, to_upper, upper, SeedIndex, SEED_LEN,
};
use aho_corasick::AhoCorasick;
use std::collections::HashSet;
use vstd::prelude::*;

verus! {

broadcast use vstd::std_specs::hash::group_hash_axioms;

/// A hypothesised alignment of motif `motif_id` starting at position `start`
/// of the scanned sequence.
#[derive(Clone, Copy, Debug, PartialEq, Eq, Structural, Hash)]
pub struct Candidate {
    pub motif_id: usize,
    pub start: usize,
}

/// Some seed of `motif` is found in `chunk` where an alignment of the whole
/// motif starting at `g` would place it.
pub open spec fn seed_supported(chunk: Seq<u8>, motif: Seq<u8>, g: int) -> bool {
    exists|o: int|
        0 <= o && o + SEED_LEN <= motif.len() && chunk.subrange(g + o, g + o + SEED_LEN)
            == #[trigger] seed_of(motif, o)
}

/// An alignment of length `mlen` at local start `g` fits in the chunk and
/// starts in the region the chunk owns (all of it for the last chunk).
pub open spec fn admissible(chunk_len: int, mlen: int, g: int, last: bool, owned: int) -> bool {
    0 <= g && g + mlen <= chunk_len && (last || g < owned)
}

/// (`m`, `g`) is a candidate of `chunk`: an admissible alignment that a seed
/// hit supports.
pub open spec fn chunk_candidate(
    ms: Seq<Seq<u8>>,
    chunk: Seq<u8>,
    last: bool,
    owned: int,
    m: int,
    g: int,
) -> bool {
    &&& 0 <= m < ms.len()
    &&& admissible(chunk.len() as int, ms[m].len() as int, g, last, owned)
    &&& seed_supported(chunk, ms[m], g)
}

/// Key of (motif, local start) in a chunk's evaluated set.
pub open spec fn eval_key(n: int, m: int, g: int) -> int {
    g * n + m
}

proof fn lemma_eval_key_injective(n: int, m1: int, g1: int, m2: int, g2: int)
    requires
        0 <= m1 < n,
        0 <= m2 < n,
        0 <= g1,
        0 <= g2,
        eval_key(n, m1, g1) == eval_key(n, m2, g2),
    ensures
        m1 == m2 && g1 == g2,
{
    if g1 < g2 {
        assert(g1 * n + n <= g2 * n) by (nonlinear_arith)
            requires g1 < g2, n > 0;
    } else if g2 < g1 {
        assert(g2 * n + n <= g1 * n) by (nonlinear_arith)
            requires g2 < g1, n > 0;
    }
}

/// A motif set with its seed index and a matcher over the index's seeds.
pub struct Scanner {
    pub motifs: Vec<Vec<u8>>,
    pub index: SeedIndex,
    pub matcher: AhoCorasick,
}

impl Scanner {
    /// The motifs as sequences.
    pub open spec fn motifs_spec(&self) -> Seq<Seq<u8>> {
        motifs_view(self.motifs@)
    }

    /// The index is well formed and complete for the motifs, and the matcher
    /// searches for exactly the index's seeds.
    pub open spec fn wf(&self) -> bool {
        &&& self.index.wf(self.motifs_spec())
        &&& forall|m: int, o: int|
            0 <= m < self.motifs@.len() && 0 <= o && o + SEED_LEN <= self.motifs@[m]@.len()
                ==> self.index.indexed(#[trigger] seed_of(self.motifs@[m]@, o), m, o)
        &&& matcher_patterns(self.matcher) == self.index.seeds_view()
        &&& matcher_is_standard(self.matcher)
    }

    /// Builds the seed index of `motifs` and a matcher over its seeds;
    /// `None` exactly when the matcher cannot be built over the seed list.
    pub fn new(motifs: Vec<Vec<u8>>) -> (r: Option<Scanner>)
        ensures
            r is Some <==> matcher_builds(seed_list(motifs_view(motifs@))),
            r matches Some(s) ==> s.wf() && s.motifs@ == motifs@,
    {
        let index = build_seed_index(&motifs);
        assert(index.seeds@.map_values(|p: Vec<u8>| p@) =~= index.seeds_view());
        match build_matcher(&index.seeds) {
            Some(matcher) => {
                assert(matcher_patterns(matcher) =~= index.seeds_view());
                Some(Scanner { motifs, index, matcher })
            },
            None => None,
        }
    }
}

/// The candidate placing motif `m` at position `g`.
pub open spec fn candidate_at(m: int, g: int) -> Candidate {
    Candidate { motif_id: m as usize, start: g as usize }
}

/// `r` holds the candidate (`m`, `gs`).
pub open spec fn listed(r: Seq<Candidate>, m: int, gs: int) -> bool {
    exists|i: int| 0 <= i < r.len() && #[trigger] r[i] == candidate_at(m, gs)
}

proof fn lemma_listed_push(r: Seq<Candidate>, c: Candidate, m: int, gs: int)
    requires
        listed(r, m, gs),
    ensures
        listed(r.push(c), m, gs),
{
    let i = choose|i: int| 0 <= i < r.len() && #[trigger] r[i] == candidate_at(m, gs);
    assert(r.push(c)[i] == r[i]);
}

impl Scanner {
    /// The hit (`p`, seed) and index entry (`m`, `o`) place motif `m` at the
    /// admissible local start `p - o`.
    pub open spec fn hit_yields(
        &self,
        chunk_len: int,
        last: bool,
        owned: int,
        hit: (usize, usize),
        e: (usize, usize),
    ) -> bool {
        &&& e.0 < self.motifs@.len()
        &&& e.1 <= hit.0
        &&& admissible(chunk_len, self.motifs@[e.0 as int]@.len() as int, hit.0 - e.1, last, owned)
    }

    /// Candidates of one chunk, given every seed hit in it: for each hit and
    /// each (motif, offset) entry of the hit's seed, the alignment start is
    /// reconstructed; admissible ones are kept, each (motif, start) once.
    /// `start` is the chunk's position in the whole sequence, `owned` the
    /// length of the region the chunk owns, `last` whether it is the final
    /// chunk.
    pub fn collect_candidates(
        &self,
        chunk: &[u8],
        hits: &Vec<(usize, usize)>,
        start: usize,
        last: bool,
        owned: usize,
    ) -> (r: Vec<Candidate>)
        requires
            self.wf(),
            hits_exact(hits@, chunk@, self.index.seeds_view()),
            start + chunk@.len() <= usize::MAX,
        ensures
            forall|i: int, j: int| 0 <= i < j < r@.len() ==> r@[i] != r@[j],
            forall|i: int|
                0 <= i < r@.len() ==> (#[trigger] r@[i]).start >= start && chunk_candidate(
                    self.motifs_spec(),
                    chunk@,
                    last,
                    owned as int,
                    r@[i].motif_id as int,
                    r@[i].start - start,
                ),
            forall|m: int, g: int|
                chunk_candidate(self.motifs_spec(), chunk@, last, owned as int, m, g) ==> listed(
                    r@,
                    m,
                    start + g,
                ),
    {
        let ghost ms = self.motifs_spec();
        let n = self.motifs.len();
        let mut out: Vec<Candidate> = Vec::new();
        let mut seen: HashSet<u128> = HashSet::new();
        let mut h: usize = 0;
        while h < hits.len()
            invariant
                self.wf(),
                ms == self.motifs_spec(),
                n == self.motifs@.len(),
                hits_exact(hits@, chunk@, self.index.seeds_view()),
                start + chunk@.len() <= usize::MAX,
                h <= hits@.len(),
                forall|i: int, j: int| 0 <= i < j < out@.len() ==> out@[i] != out@[j],
                forall|i: int|
                    0 <= i < out@.len() ==> (#[trigger] out@[i]).start >= start && chunk_candidate(
                        ms,
                        chunk@,
                        last,
                        owned as int,
                        out@[i].motif_id as int,
                        out@[i].start - start,
                    ),
                forall|i: int|
                    0 <= i < out@.len() ==> seen@.contains(
                        eval_key(n as int, (#[trigger] out@[i]).motif_id as int, out@[i].start - start) as u128,
                    ),
                forall|x: u128|
                    #[trigger] seen@.contains(x) ==> exists|i: int|
                        0 <= i < out@.len() && x as int == eval_key(
                            n as int,
                            (#[trigger] out@[i]).motif_id as int,
                            out@[i].start - start,
                        ),
                forall|h2: int, k: int|
                    0 <= h2 < h && 0 <= k < self.index.entries@[hits@[h2].1 as int]@.len()
                        && self.hit_yields(
                        chunk@.len() as int,
                        last,
                        owned as int,
                        hits@[h2],
                        #[trigger] self.index.entries@[hits@[h2].1 as int]@[k],
                    ) ==> listed(
                        out@,
                        self.index.entries@[hits@[h2].1 as int]@[k].0 as int,
                        start + hits@[h2].0 - self.index.entries@[hits@[h2].1 as int]@[k].1,
                    ),
            decreases hits@.len() - h,
        {
            let (p, id) = hits[h];
            assert(hits@[h as int].1 < self.index.seeds_view().len());
            let bucket = &self.index.entries[id];
            let mut j: usize = 0;
            while j < bucket.len()
                invariant
                    self.wf(),
                    ms == self.motifs_spec(),
                    n == self.motifs@.len(),
                    hits_exact(hits@, chunk@, self.index.seeds_view()),
                    start + chunk@.len() <= usize::MAX,
                    h < hits@.len(),
                    hits@[h as int] == (p, id),
                    id < self.index.entries@.len(),
                    bucket@ == self.index.entries@[id as int]@,
                    j <= bucket@.len(),
                    forall|i: int, j2: int| 0 <= i < j2 < out@.len() ==> out@[i] != out@[j2],
                    forall|i: int|
                        0 <= i < out@.len() ==> (#[trigger] out@[i]).start >= start && chunk_candidate(
                            ms,
                            chunk@,
                            last,
                            owned as int,
                            out@[i].motif_id as int,
                            out@[i].start - start,
                        ),
                    forall|i: int|
                        0 <= i < out@.len() ==> seen@.contains(
                            eval_key(n as int, (#[trigger] out@[i]).motif_id as int, out@[i].start - start) as u128,
                        ),
                    forall|x: u128|
                        #[trigger] seen@.contains(x) ==> exists|i: int|
                            0 <= i < out@.len() && x as int == eval_key(
                                n as int,
                                (#[trigger] out@[i]).motif_id as int,
                                out@[i].start - start,
                            ),
                    forall|h2: int, k: int|
                        0 <= h2 < h && 0 <= k < self.index.entries@[hits@[h2].1 as int]@.len()
                            && self.hit_yields(
                            chunk@.len() as int,
                            last,
                            owned as int,
                            hits@[h2],
                            #[trigger] self.index.entries@[hits@[h2].1 as int]@[k],
                        ) ==> listed(
                            out@,
                            self.index.entries@[hits@[h2].1 as int]@[k].0 as int,
                            start + hits@[h2].0 - self.index.entries@[hits@[h2].1 as int]@[k].1,
                        ),
                    forall|k: int|
                        0 <= k < j && self.hit_yields(
                            chunk@.len() as int,
                            last,
                            owned as int,
                            (p, id),
                            #[trigger] bucket@[k],
                        ) ==> listed(out@, bucket@[k].0 as int, start + p - bucket@[k].1),
                decreases bucket@.len() - j,
            {
                let (m, o) = bucket[j];
                proof {
                    assert(crate::seeds::entry_ok(ms, self.index.seeds@[id as int]@, bucket@[j as int]));
                }
                let mlen = self.motifs[m].len();
                if o <= p && p - o <= chunk.len() && mlen <= chunk.len() - (p - o) && (last || p - o < owned) {
                    let g = p - o;
                    proof {
                        assert(g * n <= usize::MAX * usize::MAX) by (nonlinear_arith)
                            requires g <= usize::MAX, n <= usize::MAX;
                        // the seed of the hit supports the alignment
                        let sd = self.index.seeds_view()[id as int];
                        assert(occurs_at(chunk@, sd, p as int));
                        assert(sd == seed_of(ms[m as int], o as int));
                        assert(chunk@.subrange(g + o, g + o + SEED_LEN) == seed_of(ms[m as int], o as int));
                        assert(seed_supported(chunk@, ms[m as int], g as int));
                    }
                    let key: u128 = (g as u128) * (n as u128) + (m as u128);
                    let c = Candidate { motif_id: m, start: start + g };
                    let ghost old_out = out@;
                    let ghost old_seen = seen@;
                    if seen.insert(key) {
                        out.push(c);
                        proof {
                            assert forall|i: int| 0 <= i < old_out.len() implies out@[i] != c by {
                                assert(old_seen.contains(
                                    eval_key(n as int, old_out[i].motif_id as int, old_out[i].start - start) as u128,
                                ));
                                if out@[i] == c {
                                    assert(out@[i] == old_out[i]);
                                }
                            }
                            assert forall|x: u128| #[trigger] seen@.contains(x) implies exists|i: int|
                                0 <= i < out@.len() && x as int == eval_key(
                                    n as int,
                                    (#[trigger] out@[i]).motif_id as int,
                                    out@[i].start - start,
                                ) by {
                                if x == key {
                                    assert(out@[old_out.len() as int] == c);
                                } else {
                                    assert(old_seen.contains(x));
                                    let i = choose|i: int|
                                        0 <= i < old_out.len() && x as int == eval_key(
                                            n as int,
                                            (#[trigger] old_out[i]).motif_id as int,
                                            old_out[i].start - start,
                                        );
                                    assert(out@[i] == old_out[i]);
                                }
                            }
                            assert(out@[old_out.len() as int] == c);
                            assert(listed(out@, m as int, start + g));
                        }
                    } else {
                        proof {
                            let i = choose|i: int|
                                0 <= i < old_out.len() && key as int == eval_key(
                                    n as int,
                                    (#[trigger] old_out[i]).motif_id as int,
                                    old_out[i].start - start,
                                );
                            lemma_eval_key_injective(
                                n as int,
                                m as int,
                                g as int,
                                old_out[i].motif_id as int,
                                old_out[i].start - start,
                            );
                            assert(out@[i] == c);
                        }
                    }
                    proof {
                        assert forall|h2: int, k: int|
                            0 <= h2 < h && 0 <= k < self.index.entries@[hits@[h2].1 as int]@.len()
                                && self.hit_yields(
                                chunk@.len() as int,
                                last,
                                owned as int,
                                hits@[h2],
                                #[trigger] self.index.entries@[hits@[h2].1 as int]@[k],
                            ) implies listed(
                                out@,
                                self.index.entries@[hits@[h2].1 as int]@[k].0 as int,
                                start + hits@[h2].0 - self.index.entries@[hits@[h2].1 as int]@[k].1,
                            ) by {
                            if out@ != old_out {
                                lemma_listed_push(
                                    old_out,
                                    c,
                                    self.index.entries@[hits@[h2].1 as int]@[k].0 as int,
                                    start + hits@[h2].0 - self.index.entries@[hits@[h2].1 as int]@[k].1,
                                );
                            }
                        }
                        assert forall|k: int|
                            0 <= k < j && self.hit_yields(
                                chunk@.len() as int,
                                last,
                                owned as int,
                                (p, id),
                                #[trigger] bucket@[k],
                            ) implies listed(out@, bucket@[k].0 as int, start + p - bucket@[k].1) by {
                            if out@ != old_out {
                                lemma_listed_push(old_out, c, bucket@[k].0 as int, start + p - bucket@[k].1);
                            }
                        }
                    }
                }
                j += 1;
            }
            h += 1;
        }
        proof {
            assert forall|m: int, g: int|
                chunk_candidate(ms, chunk@, last, owned as int, m, g) implies listed(out@, m, start + g) by {
                let o = choose|o: int|
                    0 <= o && o + SEED_LEN <= ms[m].len() && chunk@.subrange(g + o, g + o + SEED_LEN)
                        == #[trigger] seed_of(ms[m], o);
                assert(seed_of(self.motifs@[m]@, o) == seed_of(ms[m], o));
                assert(self.index.indexed(seed_of(self.motifs@[m]@, o), m, o));
                let (i, k) = choose|i: int, k: int|
                    0 <= i < self.index.seeds@.len() && 0 <= i < self.index.entries@.len() && 0 <= k
                        < self.index.entries@[i]@.len() && self.index.seeds@[i]@ == seed_of(self.motifs@[m]@, o)
                        && #[trigger] self.index.entries@[i]@[k] == (m as usize, o as usize);
                assert(occurs_at(chunk@, self.index.seeds_view()[i], g + o));
                let hk = choose|hk: int| 0 <= hk < hits@.len() && #[trigger] hits@[hk] == ((g + o) as usize, i as usize);
                assert(self.hit_yields(chunk@.len() as int, last, owned as int, hits@[hk], self.index.entries@[hits@[hk].1 as int]@[k]));
            }
        }
        out
    }
}

/// Chunking of a long sequence: windows of `chunk_size` symbols whose starts
/// are `chunk_size - overlap` apart.
#[derive(Clone, Copy, Debug, PartialEq, Eq, Structural)]
pub struct ScanConfig {
    pub chunk_size: usize,
    pub overlap: usize,
}

/// Distance between consecutive window starts, which is also the length of
/// the region each window owns.
pub open spec fn step(cfg: ScanConfig) -> int {
    cfg.chunk_size - cfg.overlap
}

/// End of the window starting at `start` in a sequence of length `len`.
pub open spec fn window_end(len: int, start: int, cfg: ScanConfig) -> int {
    if start + cfg.chunk_size < len {
        start + cfg.chunk_size
    } else {
        len
    }
}

/// The window starting at `start` has no successor.
pub open spec fn is_last_window(len: int, start: int, cfg: ScanConfig) -> bool {
    start + step(cfg) >= len
}

/// Upper-cased content of the window starting at `start`.
pub open spec fn window(hay: Seq<u8>, start: int, cfg: ScanConfig) -> Seq<u8> {
    upper(hay).subrange(start, window_end(hay.len() as int, start, cfg))
}

/// `c` (with its start taken in the whole sequence) is a candidate of the
/// window starting at `start`.
pub open spec fn window_candidate(
    ms: Seq<Seq<u8>>,
    hay: Seq<u8>,
    start: int,
    cfg: ScanConfig,
    c: Candidate,
) -> bool {
    &&& c.start >= start
    &&& chunk_candidate(
        ms,
        window(hay, start, cfg),
        is_last_window(hay.len() as int, start, cfg),
        step(cfg),
        c.motif_id as int,
        c.start - start,
    )
}

/// Errors in the scan configuration, found before any scanning.
#[derive(Clone, Copy, Debug, PartialEq, Eq, Structural)]
pub enum ConfigError {
    /// No motif to search for.
    EmptyMotifSet,
    /// The overlap is not smaller than the chunk size, so windows would not
    /// advance.
    ChunkNotLargerThanOverlap,
    /// Some motif is at least as long as the overlap, so an alignment across
    /// a chunk boundary could be missed.
    OverlapTooSmall,
}

/// Checks a configuration: there is a motif, the chunk size exceeds the
/// overlap, and the overlap exceeds every motif's length (checked in this
/// order).
pub fn validate_config(motifs: &Vec<Vec<u8>>, cfg: ScanConfig) -> (r: Result<(), ConfigError>)
    ensures
        r == Err::<(), ConfigError>(ConfigError::EmptyMotifSet) <==> motifs@.len() == 0,
        r == Err::<(), ConfigError>(ConfigError::ChunkNotLargerThanOverlap) <==> motifs@.len() > 0
            && cfg.overlap >= cfg.chunk_size,
        r == Err::<(), ConfigError>(ConfigError::OverlapTooSmall) <==> motifs@.len() > 0 && cfg.overlap
            < cfg.chunk_size && exists|m: int|
            0 <= m < motifs@.len() && (#[trigger] motifs@[m])@.len() >= cfg.overlap,
        r is Ok <==> motifs@.len() > 0 && cfg.overlap < cfg.chunk_size && forall|m: int|
            0 <= m < motifs@.len() ==> (#[trigger] motifs@[m])@.len() < cfg.overlap,
{
    if motifs.len() == 0 {
        return Err(ConfigError::EmptyMotifSet);
    }
    if cfg.overlap >= cfg.chunk_size {
        return Err(ConfigError::ChunkNotLargerThanOverlap);
    }
    let mut i: usize = 0;
    while i < motifs.len()
        invariant
            i <= motifs@.len(),
            motifs@.len() > 0,
            cfg.overlap < cfg.chunk_size,
            forall|m: int| 0 <= m < i ==> (#[trigger] motifs@[m])@.len() < cfg.overlap,
        decreases motifs@.len() - i,
    {
        if motifs[i].len() >= cfg.overlap {
            assert(motifs@[i as int]@.len() >= cfg.overlap);
            return Err(ConfigError::OverlapTooSmall);
        }
        i += 1;
    }
    Ok(())
}

/// Window starts for a sequence of length `len`: 0, step, 2·step, … while
/// below `len`.
pub fn chunk_starts(len: usize, cfg: ScanConfig) -> (r: Vec<usize>)
    requires
        cfg.overlap < cfg.chunk_size,
    ensures
        forall|k: int| 0 <= k < r@.len() ==> #[trigger] r@[k] == k * step(cfg) && r@[k] < len,
        r@.len() * step(cfg) >= len,
{
    let st = cfg.chunk_size - cfg.overlap;
    let mut r: Vec<usize> = Vec::new();
    let mut s: usize = 0;
    assert(r@.len() * st == 0);
    while s < len
        invariant_except_break
            s == r@.len() * st,
        invariant
            st == step(cfg),
            st > 0,
            forall|k: int| 0 <= k < r@.len() ==> #[trigger] r@[k] == k * st && r@[k] < len,
        ensures
            r@.len() * st >= len,
        decreases len - s,
    {
        r.push(s);
        assert((r@.len() - 1) * st + st == r@.len() * st) by (nonlinear_arith);
        if len - s <= st {
            break;
        }
        s = s + st;
    }
    r
}

/// `r` lists the candidates of the window starting at `start`, each once.
pub open spec fn window_result(
    ms: Seq<Seq<u8>>,
    hay: Seq<u8>,
    start: int,
    cfg: ScanConfig,
    r: Seq<Candidate>,
) -> bool {
    &&& forall|i: int, j: int| 0 <= i < j < r.len() ==> r[i] != r[j]
    &&& forall|i: int| 0 <= i < r.len() ==> window_candidate(ms, hay, start, cfg, #[trigger] r[i])
    &&& forall|c: Candidate|
        window_candidate(ms, hay, start, cfg, c) ==> listed(r, c.motif_id as int, c.start as int)
}

impl Scanner {
    /// Candidates of the window of `hay` that starts at `start`, each once.
    pub fn scan_window(&self, hay: &[u8], start: usize, cfg: ScanConfig) -> (r: Vec<Candidate>)
        requires
            self.wf(),
            start < hay@.len(),
            cfg.overlap < cfg.chunk_size,
        ensures
            window_result(self.motifs_spec(), hay@, start as int, cfg, r@),
    {
        let end = if cfg.chunk_size < hay.len() - start {
            start + cfg.chunk_size
        } else {
            hay.len()
        };
        let last = cfg.chunk_size - cfg.overlap >= hay.len() - start;
        let raw = copy_range(hay, start, end);
        let chunk = to_upper(raw.as_slice());
        assert(chunk@ =~= window(hay@, start as int, cfg));
        let hits = overlapping_matches(&self.matcher, chunk.as_slice());
        let r = self.collect_candidates(chunk.as_slice(), &hits, start, last, cfg.chunk_size - cfg.overlap);
        assert forall|c: Candidate|
            window_candidate(self.motifs_spec(), hay@, start as int, cfg, c) implies listed(
                r@,
                c.motif_id as int,
                c.start as int,
            ) by {
            assert(chunk_candidate(self.motifs_spec(), chunk@, last, step(cfg), c.motif_id as int, c.start - start));
        }
        r
    }
}

/// An occurrence of a motif that is found in every window containing it
/// whole: its first seed lies at the start of the alignment.
proof fn lemma_occurrence_supported(ms: Seq<Seq<u8>>, hay: Seq<u8>, cfg: ScanConfig, s: int, m: int, g: int)
    requires
        0 <= m < ms.len(),
        SEED_LEN <= ms[m].len(),
        occurs_at(upper(hay), ms[m], g),
        0 <= s <= g,
        g + ms[m].len() <= window_end(hay.len() as int, s, cfg),
    ensures
        seed_supported(window(hay, s, cfg), ms[m], g - s),
{
    let w = window(hay, s, cfg);
    assert(w.subrange(g - s, g - s + SEED_LEN) =~= upper(hay).subrange(g, g + SEED_LEN));
    assert(upper(hay).subrange(g, g + SEED_LEN) =~= ms[m].subrange(0, SEED_LEN as int));
    assert(w.subrange(g - s + 0, g - s + 0 + SEED_LEN) == seed_of(ms[m], 0));
}

/// Boundary safety of the chunking: when the overlap exceeds a motif's length
/// (and the motif has a seed), every occurrence of the motif in the
/// upper-cased sequence is a candidate of exactly one window, whatever the
/// chunk size, in particular one that straddles a chunk boundary.
pub proof fn lemma_occurrence_in_exactly_one_window(
    ms: Seq<Seq<u8>>,
    hay: Seq<u8>,
    cfg: ScanConfig,
    m: int,
    g: int,
)
    requires
        cfg.overlap < cfg.chunk_size,
        ms.len() <= usize::MAX,
        hay.len() <= usize::MAX,
        0 <= m < ms.len(),
        SEED_LEN <= ms[m].len() < cfg.overlap,
        occurs_at(upper(hay), ms[m], g),
    ensures
        exists|k: int|
            0 <= k && #[trigger] (k * step(cfg)) < hay.len() && window_candidate(
                ms,
                hay,
                k * step(cfg),
                cfg,
                candidate_at(m, g),
            ),
        forall|k1: int, k2: int|
            0 <= k1 && 0 <= k2 && k1 * step(cfg) < hay.len() && k2 * step(cfg) < hay.len()
                && window_candidate(
                ms,
                hay,
                #[trigger] (k1 * step(cfg)),
                cfg,
                candidate_at(m, g),
            ) && window_candidate(
                ms,
                hay,
                #[trigger] (k2 * step(cfg)),
                cfg,
                candidate_at(m, g),
            ) ==> k1 == k2,
{
    let st = step(cfg);
    let c = candidate_at(m, g);
    let len = hay.len() as int;
    let mlen = ms[m].len() as int;
    assert(upper(hay).len() == len);
    let k = g / st;
    vstd::arithmetic::div_mod::lemma_fundamental_div_mod(g, st);
    assert(0 <= g % st < st) by {
        vstd::arithmetic::div_mod::lemma_mod_bound(g, st);
    }
    assert(k >= 0) by {
        vstd::arithmetic::div_mod::lemma_div_pos_is_pos(g, st);
    }
    let s = k * st;
    vstd::arithmetic::mul::lemma_mul_is_commutative(k, st);
    assert(s <= g < s + st);
    assert(g + mlen <= window_end(len, s, cfg));
    lemma_occurrence_supported(ms, hay, cfg, s, m, g);
    assert(c.motif_id as int == m && c.start as int == g);
    assert(admissible(window(hay, s, cfg).len() as int, mlen, g - s, is_last_window(len, s, cfg), st));
    assert(window_candidate(ms, hay, s, cfg, c));
    assert forall|k1: int, k2: int|
        0 <= k1 && 0 <= k2 && k1 * st < len && k2 * st < len && window_candidate(
            ms,
            hay,
            #[trigger] (k1 * st),
            cfg,
            c,
        ) && window_candidate(ms, hay, #[trigger] (k2 * st), cfg, c) implies k1 == k2 by {
        // each window holding the candidate is window k
        assert forall|kk: int|
            0 <= kk && kk * st < len && window_candidate(ms, hay, #[trigger] (kk * st), cfg, c) implies kk == k by {
            if kk > k {
                assert(kk * st >= k * st + st) by (nonlinear_arith)
                    requires kk > k, st > 0;
            } else if kk < k {
                assert(kk * st + st <= k * st) by (nonlinear_arith)
                    requires kk < k, st > 0;
            }
        }
    }
}

/// What the scanner reports, one list per window of `chunk_starts`, holds
/// each occurrence of a motif exactly once when the overlap exceeds the
/// motif's length (and the motif has a seed): no loss at a chunk boundary and
/// no double count.
pub proof fn lemma_occurrence_reported_once(
    ms: Seq<Seq<u8>>,
    hay: Seq<u8>,
    cfg: ScanConfig,
    results: Seq<Seq<Candidate>>,
    m: int,
    g: int,
)
    requires
        cfg.overlap < cfg.chunk_size,
        ms.len() <= usize::MAX,
        hay.len() <= usize::MAX,
        forall|k: int| 0 <= k < results.len() ==> #[trigger] (k * step(cfg)) < hay.len(),
        results.len() * step(cfg) >= hay.len(),
        forall|k: int|
            0 <= k < results.len() ==> window_result(ms, hay, k * step(cfg), cfg, #[trigger] results[k]),
        0 <= m < ms.len(),
        SEED_LEN <= ms[m].len() < cfg.overlap,
        occurs_at(upper(hay), ms[m], g),
    ensures
        exists|k: int, i: int|
            0 <= k < results.len() && 0 <= i < results[k].len() && #[trigger] results[k][i]
                == candidate_at(m, g),
        forall|k1: int, i1: int, k2: int, i2: int|
            0 <= k1 < results.len() && 0 <= i1 < results[k1].len() && 0 <= k2 < results.len() && 0
                <= i2 < results[k2].len() && #[trigger] results[k1][i1] == candidate_at(m, g) && #[trigger] results[k2][i2] == candidate_at(m, g)
                ==> k1 == k2 && i1 == i2,
{
    let st = step(cfg);
    let c = candidate_at(m, g);
    lemma_occurrence_in_exactly_one_window(ms, hay, cfg, m, g);
    let k = choose|k: int|
        0 <= k && #[trigger] (k * st) < hay.len() && window_candidate(ms, hay, k * st, cfg, c);
    if k >= results.len() {
        assert(k * st >= results.len() * st) by (nonlinear_arith)
            requires k >= results.len(), st > 0;
    }
    assert(window_result(ms, hay, k * st, cfg, results[k]));
    assert(listed(results[k], m, g));
    let i = choose|i: int| 0 <= i < results[k].len() && #[trigger] results[k][i] == candidate_at(m, g);
    assert(results[k][i] == c);
    assert forall|k1: int, i1: int, k2: int, i2: int|
        0 <= k1 < results.len() && 0 <= i1 < results[k1].len() && 0 <= k2 < results.len() && 0 <= i2
            < results[k2].len() && #[trigger] results[k1][i1] == c && #[trigger] results[k2][i2] == c implies k1
            == k2 && i1 == i2 by {
        assert(window_result(ms, hay, k1 * st, cfg, results[k1]));
        assert(window_result(ms, hay, k2 * st, cfg, results[k2]));
        assert(window_candidate(ms, hay, k1 * st, cfg, results[k1][i1]));
        assert(window_candidate(ms, hay, k2 * st, cfg, results[k2][i2]));
        assert(k1 * st < hay.len() && k2 * st < hay.len());
        if k1 == k2 && i1 != i2 {
            if i1 < i2 {
                assert(results[k1][i1] != results[k1][i2]);
            } else {
                assert(results[k1][i2] != results[k1][i1]);
            }
        }
    }
}

/// `c` stands in exactly one place of the per-window lists `results`.
pub open spec fn reported_exactly_once(results: Seq<Seq<Candidate>>, c: Candidate) -> bool {
    &&& exists|k: int, i: int|
        0 <= k < results.len() && 0 <= i < results[k].len() && #[trigger] results[k][i] == c
    &&& forall|k1: int, i1: int, k2: int, i2: int|
        0 <= k1 < results.len() && 0 <= i1 < results[k1].len() && 0 <= k2 < results.len() && 0
            <= i2 < results[k2].len() && #[trigger] results[k1][i1] == c && #[trigger] results[k2][i2]
            == c ==> k1 == k2 && i1 == i2
}

impl Scanner {
    /// Candidate lists of all windows of `hay`, one list per start of
    /// `chunk_starts`, in order. Every occurrence of a motif that has a seed
    /// and is shorter than the overlap is listed exactly once over all lists.
    pub fn scan_sequence(&self, hay: &[u8], cfg: ScanConfig) -> (r: Vec<Vec<Candidate>>)
        requires
            self.wf(),
            cfg.overlap < cfg.chunk_size,
        ensures
            r@.len() * step(cfg) >= hay@.len(),
            forall|k: int| 0 <= k < r@.len() ==> #[trigger] (k * step(cfg)) < hay@.len(),
            forall|k: int|
                0 <= k < r@.len() ==> window_result(self.motifs_spec(), hay@, k * step(cfg), cfg, (#[trigger] r@[k])@),
            forall|m: int, g: int|
                0 <= m < self.motifs@.len() && SEED_LEN <= self.motifs@[m]@.len() < cfg.overlap
                    && #[trigger] occurs_at(upper(hay@), self.motifs@[m]@, g) ==> reported_exactly_once(
                    r@.map_values(|v: Vec<Candidate>| v@),
                    candidate_at(m, g),
                ),
    {
        let ghost ms = self.motifs_spec();
        let n_motifs = self.motifs.len();
        assert(ms.len() == n_motifs);
        let starts = chunk_starts(hay.len(), cfg);
        let mut r: Vec<Vec<Candidate>> = Vec::new();
        let mut k: usize = 0;
        while k < starts.len()
            invariant
                self.wf(),
                ms == self.motifs_spec(),
                ms.len() <= usize::MAX,
                cfg.overlap < cfg.chunk_size,
                k <= starts@.len(),
                r@.len() == k,
                forall|j: int| 0 <= j < starts@.len() ==> #[trigger] starts@[j] == j * step(cfg) && starts@[j] < hay@.len(),
                forall|j: int|
                    0 <= j < k ==> window_result(ms, hay@, j * step(cfg), cfg, (#[trigger] r@[j])@),
            decreases starts@.len() - k,
        {
            let w = self.scan_window(hay, starts[k], cfg);
            r.push(w);
            assert(starts@[k as int] == k * step(cfg));
            k += 1;
        }
        proof {
            let rv = r@.map_values(|v: Vec<Candidate>| v@);
            assert forall|j: int| 0 <= j < rv.len() implies #[trigger] (j * step(cfg)) < hay@.len() by {
                assert(starts@[j] == j * step(cfg));
            }
            assert forall|j: int|
                0 <= j < rv.len() implies window_result(ms, hay@, j * step(cfg), cfg, #[trigger] rv[j]) by {
                assert(rv[j] == r@[j]@);
            }
            assert forall|m: int, g: int|
                0 <= m < self.motifs@.len() && SEED_LEN <= self.motifs@[m]@.len() < cfg.overlap
                    && #[trigger] occurs_at(upper(hay@), self.motifs@[m]@, g) implies reported_exactly_once(
                    rv,
                    candidate_at(m, g),
                ) by {
                assert(ms[m] == self.motifs@[m]@);
                lemma_occurrence_reported_once(ms, hay@, cfg, rv, m, g);
            }
        }
        r
    }
}

} // verus!

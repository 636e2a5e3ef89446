//! The motif set and the seed index built from it.
use crate::matcher::{nt_complement, reverse_complement};
use vstd::prelude::*;

verus! {

/// Length of a seed: the fixed-length substring used as an index key.
pub const SEED_LEN: usize = 7;

/// Upper-case form of one ASCII byte.
pub open spec fn upper_byte(b: u8) -> u8 {
    if 97 <= b <= 122 {
        (b - 32) as u8
    } else {
        b
    }
}

/// Upper-case form of a byte sequence.
pub open spec fn upper(s: Seq<u8>) -> Seq<u8> {
    s.map_values(|b: u8| upper_byte(b))
}

/// Reverse complement of a byte sequence.
pub open spec fn revcomp(s: Seq<u8>) -> Seq<u8> {
    Seq::new(s.len(), |i: int| nt_complement(s[s.len() - 1 - i]))
}

/// The motifs as sequences.
pub open spec fn motifs_view(ms: Seq<Vec<u8>>) -> Seq<Seq<u8>> {
    ms.map_values(|m: Vec<u8>| m@)
}

/// The seed of `motif` that begins at offset `o`.
pub open spec fn seed_of(motif: Seq<u8>, o: int) -> Seq<u8> {
    motif.subrange(o, o + SEED_LEN)
}

/// Upper-case copy of `s` (ASCII letters only change).
pub fn to_upper(s: &[u8]) -> (r: Vec<u8>)
    ensures
        r@ == upper(s@),
{
    let mut r: Vec<u8> = Vec::with_capacity(s.len());
    let mut i: usize = 0;
    while i < s.len()
        invariant
            i <= s@.len(),
            r@ == upper(s@.subrange(0, i as int)),
        decreases s@.len() - i,
    {
        let b = s[i];
        let u: u8 = if 97 <= b && b <= 122 { b - 32 } else { b };
        r.push(u);
        i += 1;
        assert(upper(s@.subrange(0, i as int)) =~= upper(s@.subrange(0, i - 1)).push(u));
    }
    assert(s@.subrange(0, s@.len() as int) =~= s@);
    r
}

/// The search targets of a set of query records: each record in upper case,
/// followed by its reverse complement in upper case.
pub fn build_motifs(records: &Vec<Vec<u8>>) -> (r: Vec<Vec<u8>>)
    requires
        records@.len() * 2 <= usize::MAX,
    ensures
        r@.len() == 2 * records@.len(),
        forall|i: int|
            0 <= i < records@.len() ==> r@[2 * i]@ == upper(#[trigger] records@[i]@) && r@[2 * i
                + 1]@ == upper(revcomp(records@[i]@)),
{
    let mut r: Vec<Vec<u8>> = Vec::new();
    let mut i: usize = 0;
    while i < records.len()
        invariant
            i <= records@.len(),
            r@.len() == 2 * i,
            forall|j: int|
                0 <= j < i ==> r@[2 * j]@ == upper(#[trigger] records@[j]@) && r@[2 * j + 1]@
                    == upper(revcomp(records@[j]@)),
        decreases records@.len() - i,
    {
        let fwd = to_upper(records[i].as_slice());
        let rc = reverse_complement(records[i].as_slice());
        assert(rc@ =~= revcomp(records@[i as int]@));
        let rev = to_upper(rc.as_slice());
        r.push(fwd);
        r.push(rev);
        i += 1;
    }
    r
}

/// The seeds of one motif, by offset; none for a motif shorter than a seed.
pub open spec fn motif_seeds(motif: Seq<u8>) -> Seq<Seq<u8>> {
    Seq::new(
        if motif.len() >= SEED_LEN { (motif.len() - SEED_LEN + 1) as nat } else { 0 },
        |o: int| seed_of(motif, o),
    )
}

/// The seeds of all motifs, motif by motif and offset by offset.
pub open spec fn all_seeds(ms: Seq<Seq<u8>>) -> Seq<Seq<u8>>
    decreases ms.len(),
{
    if ms.len() == 0 {
        Seq::empty()
    } else {
        all_seeds(ms.drop_last()) + motif_seeds(ms.last())
    }
}

/// `s` with every value after its first occurrence removed.
pub open spec fn first_occurrences(s: Seq<Seq<u8>>) -> Seq<Seq<u8>>
    decreases s.len(),
{
    if s.len() == 0 {
        Seq::empty()
    } else if first_occurrences(s.drop_last()).contains(s.last()) {
        first_occurrences(s.drop_last())
    } else {
        first_occurrences(s.drop_last()).push(s.last())
    }
}

/// The distinct seed values of a motif set, in order of first occurrence:
/// the seed identifiers of its index.
pub open spec fn seed_list(ms: Seq<Seq<u8>>) -> Seq<Seq<u8>> {
    first_occurrences(all_seeds(ms))
}

/// A well-placed index entry: motif `e.0` holds `seed` at offset `e.1`.
pub open spec fn entry_ok(ms: Seq<Seq<u8>>, seed: Seq<u8>, e: (usize, usize)) -> bool {
    &&& e.0 < ms.len()
    &&& e.1 + SEED_LEN <= ms[e.0 as int].len()
    &&& seed_of(ms[e.0 as int], e.1 as int) == seed
}

/// Map from seed value to the (motif id, offset) pairs holding it: seed `i`
/// of `seeds` owns the bucket `entries[i]`.
pub struct SeedIndex {
    pub seeds: Vec<Vec<u8>>,
    pub entries: Vec<Vec<(usize, usize)>>,
}

impl SeedIndex {
    /// The seed values, by seed identifier.
    pub open spec fn seeds_view(&self) -> Seq<Seq<u8>> {
        motifs_view(self.seeds@)
    }

    /// Every seed has the seed length, seed values are distinct, and every
    /// entry of a bucket names a motif offset that holds the bucket's seed.
    pub open spec fn wf(&self, ms: Seq<Seq<u8>>) -> bool {
        &&& self.seeds@.len() == self.entries@.len()
        &&& forall|i: int| 0 <= i < self.seeds@.len() ==> (#[trigger] self.seeds@[i])@.len() == SEED_LEN
        &&& forall|i: int, j: int|
            0 <= i < j < self.seeds@.len() ==> (#[trigger] self.seeds@[i])@ != (#[trigger] self.seeds@[j])@
        &&& forall|i: int, k: int|
            0 <= i < self.entries@.len() && 0 <= k < self.entries@[i]@.len() ==> entry_ok(
                ms,
                self.seeds@[i]@,
                #[trigger] self.entries@[i]@[k],
            )
    }

    /// No (motif id, offset) pair is entered twice.
    pub open spec fn entries_unique(&self) -> bool {
        forall|i: int, k: int, i2: int, k2: int|
            0 <= i < self.entries@.len() && 0 <= k < self.entries@[i]@.len() && 0 <= i2
                < self.entries@.len() && 0 <= k2 < self.entries@[i2]@.len()
                && #[trigger] self.entries@[i]@[k] == #[trigger] self.entries@[i2]@[k2] ==> i == i2
                && k == k2
    }

    /// Every entry comes before (`m`, `o`) in (motif id, offset) order.
    pub open spec fn entries_before(&self, m: int, o: int) -> bool {
        forall|i: int, k: int|
            0 <= i < self.entries@.len() && 0 <= k < self.entries@[i]@.len() ==> ((#[trigger] self.entries@[i]@[k]).0 < m
                || (self.entries@[i]@[k].0 == m && self.entries@[i]@[k].1 < o))
    }

    /// The bucket of `seed` holds (`m`, `o`).
    pub open spec fn indexed(&self, seed: Seq<u8>, m: int, o: int) -> bool {
        exists|i: int, k: int|
            0 <= i < self.seeds@.len() && 0 <= i < self.entries@.len() && 0 <= k
                < self.entries@[i]@.len() && self.seeds@[i]@ == seed && #[trigger] self.entries@[i]@[k]
                == (m as usize, o as usize)
    }
}

/// Copy of `s[a..b]`.
pub(crate) fn copy_range(s: &[u8], a: usize, b: usize) -> (r: Vec<u8>)
    requires
        a <= b <= s@.len(),
    ensures
        r@ == s@.subrange(a as int, b as int),
{
    let mut r: Vec<u8> = Vec::with_capacity(b - a);
    let mut i: usize = a;
    while i < b
        invariant
            a <= i <= b,
            b <= s@.len(),
            r@ == s@.subrange(a as int, i as int),
        decreases b - i,
    {
        r.push(s[i]);
        i += 1;
        assert(r@ =~= s@.subrange(a as int, i as int));
    }
    r
}

/// Whether two byte strings are equal.
pub fn same_bytes(x: &[u8], y: &[u8]) -> (r: bool)
    ensures
        r == (x@ == y@),
{
    if x.len() != y.len() {
        return false;
    }
    let mut i: usize = 0;
    while i < x.len()
        invariant
            i <= x@.len(),
            x@.len() == y@.len(),
            forall|j: int| 0 <= j < i ==> x@[j] == y@[j],
        decreases x@.len() - i,
    {
        if x[i] != y[i] {
            return false;
        }
        i += 1;
    }
    assert(x@ =~= y@);
    true
}

/// Identifier of `seed` among `seeds`, if it is there.
fn find_seed(seeds: &Vec<Vec<u8>>, seed: &Vec<u8>) -> (r: Option<usize>)
    ensures
        r matches Some(i) ==> i < seeds@.len() && seeds@[i as int]@ == seed@,
        r is None ==> forall|i: int| 0 <= i < seeds@.len() ==> (#[trigger] seeds@[i])@ != seed@,
{
    let mut i: usize = 0;
    while i < seeds.len()
        invariant
            i <= seeds@.len(),
            forall|j: int| 0 <= j < i ==> (#[trigger] seeds@[j])@ != seed@,
        decreases seeds@.len() - i,
    {
        if same_bytes(seeds[i].as_slice(), seed.as_slice()) {
            return Some(i);
        }
        i += 1;
    }
    None
}

impl SeedIndex {
    /// Adds (`m`, `o`) to the bucket of `seed`, opening the bucket if needed.
    fn insert_entry(&mut self, seed: Vec<u8>, m: usize, o: usize, Ghost(ms): Ghost<Seq<Seq<u8>>>)
        requires
            old(self).wf(ms),
            old(self).entries_unique(),
            old(self).entries_before(m as int, o as int),
            entry_ok(ms, seed@, (m, o)),
            o < usize::MAX,
        ensures
            final(self).wf(ms),
            final(self).entries_unique(),
            final(self).entries_before(m as int, o + 1),
            final(self).indexed(seed@, m as int, o as int),
            final(self).seeds_view() == (if old(self).seeds_view().contains(seed@) {
                old(self).seeds_view()
            } else {
                old(self).seeds_view().push(seed@)
            }),
            forall|x: Seq<u8>, a: int, b: int|
                old(self).indexed(x, a, b) ==> #[trigger] final(self).indexed(x, a, b),
    {
        let ghost prev = *self;
        match find_seed(&self.seeds, &seed) {
            Some(i) => {
                assert(prev.seeds_view()[i as int] == seed@);
                self.entries[i].push((m, o));
                assert(self.seeds_view() =~= prev.seeds_view());
                assert(self.entries@[i as int]@[prev.entries@[i as int]@.len() as int] == (m, o));
                assert forall|x: Seq<u8>, a: int, b: int| prev.indexed(x, a, b) implies #[trigger] self.indexed(x, a, b) by {
                    let (j, k) = choose|j: int, k: int|
                        0 <= j < prev.seeds@.len() && 0 <= j < prev.entries@.len() && 0 <= k
                            < prev.entries@[j]@.len() && prev.seeds@[j]@ == x && #[trigger] prev.entries@[j]@[k]
                            == (a as usize, b as usize);
                    assert(self.entries@[j]@[k] == (a as usize, b as usize));
                }
                assert forall|j: int, k: int|
                    0 <= j < self.entries@.len() && 0 <= k < self.entries@[j]@.len() implies entry_ok(
                        ms,
                        self.seeds@[j]@,
                        #[trigger] self.entries@[j]@[k],
                    ) by {
                    if j != i || k < prev.entries@[i as int]@.len() {
                        assert(self.entries@[j]@[k] == prev.entries@[j]@[k]);
                    }
                }
                let ghost last = prev.entries@[i as int]@.len() as int;
                assert forall|j: int, k: int, j2: int, k2: int|
                    0 <= j < self.entries@.len() && 0 <= k < self.entries@[j]@.len() && 0 <= j2
                        < self.entries@.len() && 0 <= k2 < self.entries@[j2]@.len()
                        && #[trigger] self.entries@[j]@[k] == #[trigger] self.entries@[j2]@[k2] implies j == j2
                        && k == k2 by {
                    if !(j == i && k == last) {
                        assert(self.entries@[j]@[k] == prev.entries@[j]@[k]);
                    }
                    if !(j2 == i && k2 == last) {
                        assert(self.entries@[j2]@[k2] == prev.entries@[j2]@[k2]);
                    }
                }
                assert forall|j: int, k: int|
                    0 <= j < self.entries@.len() && 0 <= k < self.entries@[j]@.len() implies ((#[trigger] self.entries@[j]@[k]).0 < m
                        || (self.entries@[j]@[k].0 == m && self.entries@[j]@[k].1 < o + 1)) by {
                    if !(j == i && k == last) {
                        assert(self.entries@[j]@[k] == prev.entries@[j]@[k]);
                    }
                }
            },
            None => {
                let n = self.seeds.len();
                assert(!prev.seeds_view().contains(seed@));
                let ghost sv = seed@;
                self.seeds.push(seed);
                assert(self.seeds_view() =~= prev.seeds_view().push(sv));
                let mut bucket: Vec<(usize, usize)> = Vec::new();
                bucket.push((m, o));
                self.entries.push(bucket);
                assert(self.entries@[n as int]@[0] == (m, o));
                assert forall|x: Seq<u8>, a: int, b: int| prev.indexed(x, a, b) implies #[trigger] self.indexed(x, a, b) by {
                    let (j, k) = choose|j: int, k: int|
                        0 <= j < prev.seeds@.len() && 0 <= j < prev.entries@.len() && 0 <= k
                            < prev.entries@[j]@.len() && prev.seeds@[j]@ == x && #[trigger] prev.entries@[j]@[k]
                            == (a as usize, b as usize);
                    assert(self.entries@[j]@[k] == (a as usize, b as usize));
                }
                assert forall|j: int, k: int|
                    0 <= j < self.entries@.len() && 0 <= k < self.entries@[j]@.len() implies entry_ok(
                        ms,
                        self.seeds@[j]@,
                        #[trigger] self.entries@[j]@[k],
                    ) by {
                    if j < n {
                        assert(self.entries@[j]@[k] == prev.entries@[j]@[k]);
                    }
                }
                assert forall|j: int, k: int, j2: int, k2: int|
                    0 <= j < self.entries@.len() && 0 <= k < self.entries@[j]@.len() && 0 <= j2
                        < self.entries@.len() && 0 <= k2 < self.entries@[j2]@.len()
                        && #[trigger] self.entries@[j]@[k] == #[trigger] self.entries@[j2]@[k2] implies j == j2
                        && k == k2 by {
                    if j < n {
                        assert(self.entries@[j]@[k] == prev.entries@[j]@[k]);
                    }
                    if j2 < n {
                        assert(self.entries@[j2]@[k2] == prev.entries@[j2]@[k2]);
                    }
                }
                assert forall|j: int, k: int|
                    0 <= j < self.entries@.len() && 0 <= k < self.entries@[j]@.len() implies ((#[trigger] self.entries@[j]@[k]).0 < m
                        || (self.entries@[j]@[k].0 == m && self.entries@[j]@[k].1 < o + 1)) by {
                    if j < n {
                        assert(self.entries@[j]@[k] == prev.entries@[j]@[k]);
                    }
                }
            },
        }
    }
}

/// Seed index of `motifs`: every seed-length substring of every motif is
/// entered, under its own value, with its motif id and offset. Motifs shorter
/// than a seed contribute nothing.
pub fn build_seed_index(motifs: &Vec<Vec<u8>>) -> (r: SeedIndex)
    ensures
        r.wf(motifs_view(motifs@)),
        r.entries_unique(),
        r.seeds_view() == seed_list(motifs_view(motifs@)),
        forall|m: int, o: int|
            0 <= m < motifs@.len() && 0 <= o && o + SEED_LEN <= motifs@[m]@.len() ==> r.indexed(
                #[trigger] seed_of(motifs@[m]@, o),
                m,
                o,
            ),
{
    let ghost ms = motifs_view(motifs@);
    let mut index = SeedIndex { seeds: Vec::new(), entries: Vec::new() };
    let mut m: usize = 0;
    while m < motifs.len()
        invariant
            m <= motifs@.len(),
            ms == motifs_view(motifs@),
            index.wf(ms),
            index.entries_unique(),
            index.entries_before(m as int, 0),
            index.seeds_view() == first_occurrences(all_seeds(ms.subrange(0, m as int))),
            forall|m2: int, o: int|
                0 <= m2 < m && 0 <= o && o + SEED_LEN <= motifs@[m2]@.len() ==> index.indexed(
                    #[trigger] seed_of(motifs@[m2]@, o),
                    m2,
                    o,
                ),
        decreases motifs@.len() - m,
    {
        let motif = motifs[m].as_slice();
        let mut o: usize = 0;
        while SEED_LEN <= motif.len() - o
            invariant
                m < motifs@.len(),
                motif@ == motifs@[m as int]@,
                ms == motifs_view(motifs@),
                o <= motif@.len(),
                index.wf(ms),
                index.entries_unique(),
                index.entries_before(m as int, o as int),
                o <= motif_seeds(motif@).len(),
                index.seeds_view() == first_occurrences(
                    all_seeds(ms.subrange(0, m as int)) + motif_seeds(motif@).subrange(0, o as int),
                ),
                forall|m2: int, o2: int|
                    0 <= m2 < m && 0 <= o2 && o2 + SEED_LEN <= motifs@[m2]@.len() ==> index.indexed(
                        #[trigger] seed_of(motifs@[m2]@, o2),
                        m2,
                        o2,
                    ),
                forall|o2: int|
                    0 <= o2 < o && o2 + SEED_LEN <= motif@.len() ==> index.indexed(
                        #[trigger] seed_of(motif@, o2),
                        m as int,
                        o2,
                    ),
            decreases motif@.len() - o,
        {
            let seed = copy_range(motif, o, o + SEED_LEN);
            assert(seed@ == seed_of(motif@, o as int));
            let ghost pre = all_seeds(ms.subrange(0, m as int)) + motif_seeds(motif@).subrange(0, o as int);
            let ghost post = all_seeds(ms.subrange(0, m as int)) + motif_seeds(motif@).subrange(0, o + 1);
            assert(post.drop_last() =~= pre);
            assert(post.last() == seed@);
            index.insert_entry(seed, m, o, Ghost(ms));
            o += 1;
        }
        proof {
            let done = ms.subrange(0, m + 1);
            assert(done.drop_last() =~= ms.subrange(0, m as int));
            assert(done.last() == motif@);
            assert(motif_seeds(motif@).subrange(0, o as int) =~= motif_seeds(motif@));
        }
        m += 1;
    }
    assert(ms.subrange(0, m as int) =~= ms);
    index
}

} // verus!

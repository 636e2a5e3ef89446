//! Nearest-neighbour stability tables and the exact (integer) part of the
//! stability engine.
//!
//! Enthalpies are kept in tenths of kcal/mol and entropies in tenths of
//! cal/(mol·K): every tabulated value has one decimal digit, so the sums over
//! a sequence are exact integers.
use vstd::prelude::*;

verus! {

/// ASCII code of adenine.
pub const BASE_A: u8 = 65;
/// ASCII code of cytosine.
pub const BASE_C: u8 = 67;
/// ASCII code of guanine.
pub const BASE_G: u8 = 71;
/// ASCII code of thymine.
pub const BASE_T: u8 = 84;

/// Kind of alignment asked of the stability engine.
#[derive(Clone, Copy, Debug, PartialEq, Eq, Structural)]
pub enum ThalAlignmentType {
    /// Any alignment (default for a dimer).
    Any,
    /// Alignment anchored at the 3' end.
    End1,
    /// Alignment anchored at the 5' end.
    End2,
    /// Hairpin structure.
    Hairpin,
}

/// How much detail the stability engine reports.
#[derive(Clone, Copy, Debug, PartialEq, Eq, Structural)]
pub enum ThalMode {
    /// Score only.
    Fast,
    /// Score without debugging output.
    General,
    /// Fast mode with debugging output.
    DebugFast,
    /// Debugging output.
    Debug,
    /// Secondary structure rendered as a string.
    Struct,
}

/// Enthalpy (tenths of kcal/mol) and entropy (tenths of cal/(mol·K)) of one
/// table entry.
#[derive(Clone, Copy, Debug, PartialEq, Eq, Structural)]
pub struct NNParams {
    pub dh: i32,
    pub ds: i32,
}

/// SantaLucia 1998 nearest-neighbour table as (ΔH, ΔS); pairs outside
/// {A,C,G,T}² give zero.
pub open spec fn nn_table(a: u8, b: u8) -> (int, int) {
    if (a == BASE_A && b == BASE_A) || (a == BASE_T && b == BASE_T) {
        (-79, -222)
    } else if a == BASE_A && b == BASE_T {
        (-72, -204)
    } else if a == BASE_T && b == BASE_A {
        (-72, -213)
    } else if (a == BASE_C && b == BASE_A) || (a == BASE_T && b == BASE_G) {
        (-85, -227)
    } else if (a == BASE_G && b == BASE_T) || (a == BASE_A && b == BASE_C) {
        (-84, -224)
    } else if (a == BASE_C && b == BASE_T) || (a == BASE_A && b == BASE_G) {
        (-78, -210)
    } else if (a == BASE_G && b == BASE_A) || (a == BASE_T && b == BASE_C) {
        (-82, -222)
    } else if a == BASE_C && b == BASE_G {
        (-106, -272)
    } else if a == BASE_G && b == BASE_C {
        (-98, -244)
    } else if (a == BASE_C && b == BASE_C) || (a == BASE_G && b == BASE_G) {
        (-80, -199)
    } else {
        (0, 0)
    }
}

/// Initiation term keyed on the terminal pair (first, last symbol).
pub open spec fn init_table(first: u8, last: u8) -> (int, int) {
    if (first == BASE_A && last == BASE_T) || (first == BASE_T && last == BASE_A) {
        (23, 41)
    } else if (first == BASE_G && last == BASE_C) || (first == BASE_C && last == BASE_G) {
        (1, -28)
    } else if (first == BASE_A && last == BASE_G) || (first == BASE_G && last == BASE_A)
        || (first == BASE_T && last == BASE_C) || (first == BASE_C && last == BASE_T)
        || (first == BASE_A && last == BASE_C) || (first == BASE_C && last == BASE_A)
        || (first == BASE_T && last == BASE_G) || (first == BASE_G && last == BASE_T) {
        (12, 7)
    } else {
        (2, -57)
    }
}

/// Nearest-neighbour parameters of the adjacent pair `base1`, `base2`.
pub fn get_nn_params(base1: u8, base2: u8) -> (r: NNParams)
    ensures
        r.dh == nn_table(base1, base2).0,
        r.ds == nn_table(base1, base2).1,
{
    match (base1, base2) {
        (BASE_A, BASE_A) | (BASE_T, BASE_T) => NNParams { dh: -79, ds: -222 },
        (BASE_A, BASE_T) => NNParams { dh: -72, ds: -204 },
        (BASE_T, BASE_A) => NNParams { dh: -72, ds: -213 },
        (BASE_C, BASE_A) | (BASE_T, BASE_G) => NNParams { dh: -85, ds: -227 },
        (BASE_G, BASE_T) | (BASE_A, BASE_C) => NNParams { dh: -84, ds: -224 },
        (BASE_C, BASE_T) | (BASE_A, BASE_G) => NNParams { dh: -78, ds: -210 },
        (BASE_G, BASE_A) | (BASE_T, BASE_C) => NNParams { dh: -82, ds: -222 },
        (BASE_C, BASE_G) => NNParams { dh: -106, ds: -272 },
        (BASE_G, BASE_C) => NNParams { dh: -98, ds: -244 },
        (BASE_C, BASE_C) | (BASE_G, BASE_G) => NNParams { dh: -80, ds: -199 },
        _ => NNParams { dh: 0, ds: 0 },
    }
}

/// Initiation parameters for a duplex whose terminal symbols are
/// `first_base` and `last_base`.
pub fn get_initiation_params(first_base: u8, last_base: u8) -> (r: NNParams)
    ensures
        r.dh == init_table(first_base, last_base).0,
        r.ds == init_table(first_base, last_base).1,
{
    match (first_base, last_base) {
        (BASE_A, BASE_T) | (BASE_T, BASE_A) => NNParams { dh: 23, ds: 41 },
        (BASE_G, BASE_C) | (BASE_C, BASE_G) => NNParams { dh: 1, ds: -28 },
        (BASE_A, BASE_G) | (BASE_G, BASE_A) | (BASE_T, BASE_C) | (BASE_C, BASE_T) => NNParams { dh: 12, ds: 7 },
        (BASE_A, BASE_C) | (BASE_C, BASE_A) | (BASE_T, BASE_G) | (BASE_G, BASE_T) => NNParams { dh: 12, ds: 7 },
        _ => NNParams { dh: 2, ds: -57 },
    }
}

/// Totals of a duplex: enthalpy in tenths of kcal/mol and entropy in tenths
/// of cal/(mol·K), before any salt correction.
#[derive(Clone, Copy, Debug, PartialEq, Eq, Structural)]
pub struct DuplexTotals {
    pub dh: i128,
    pub ds: i128,
}

/// One of the four symbols that pair.
pub open spec fn canonical(b: u8) -> bool {
    b == BASE_A || b == BASE_C || b == BASE_G || b == BASE_T
}

/// Watson–Crick partner of a base; `None` for any other symbol.
pub open spec fn complement_of(b: u8) -> Option<u8> {
    if b == BASE_A {
        Some(BASE_T)
    } else if b == BASE_T {
        Some(BASE_A)
    } else if b == BASE_G {
        Some(BASE_C)
    } else if b == BASE_C {
        Some(BASE_G)
    } else {
        None
    }
}

/// `s` equals its own reverse complement; a symbol outside {A,C,G,T}
/// anywhere makes this false.
pub open spec fn self_complementary(s: Seq<u8>) -> bool {
    forall|i: int| 0 <= i < s.len() ==> complement_of(s[s.len() - 1 - i]) == Some(#[trigger] s[i])
}

/// Sum of the nearest-neighbour enthalpies of the first `k` adjacent pairs.
pub open spec fn stack_dh(s: Seq<u8>, k: int) -> int
    decreases k,
{
    if k <= 0 {
        0
    } else {
        stack_dh(s, k - 1) + nn_table(s[k - 1], s[k]).0
    }
}

/// Sum of the nearest-neighbour entropies of the first `k` adjacent pairs.
pub open spec fn stack_ds(s: Seq<u8>, k: int) -> int
    decreases k,
{
    if k <= 0 {
        0
    } else {
        stack_ds(s, k - 1) + nn_table(s[k - 1], s[k]).1
    }
}

/// Enthalpy of a duplex of at least two symbols: initiation plus every
/// adjacent pair.
pub open spec fn duplex_dh(s: Seq<u8>) -> int {
    init_table(s[0], s[s.len() - 1]).0 + stack_dh(s, s.len() - 1)
}

/// Entropy of a duplex of at least two symbols, before the salt correction.
pub open spec fn duplex_ds(s: Seq<u8>) -> int {
    init_table(s[0], s[s.len() - 1]).1 + stack_ds(s, s.len() - 1)
}

/// Whether `seq` is its own reverse complement.
pub fn is_self_complementary(seq: &[u8]) -> (r: bool)
    ensures
        r == self_complementary(seq@),
{
    let n = seq.len();
    let mut i: usize = 0;
    while i < n
        invariant
            i <= n,
            n == seq@.len(),
            forall|j: int| 0 <= j < i ==> complement_of(seq@[n - 1 - j]) == Some(#[trigger] seq@[j]),
        decreases n - i,
    {
        let complement = match seq[n - 1 - i] {
            BASE_A => BASE_T,
            BASE_T => BASE_A,
            BASE_G => BASE_C,
            BASE_C => BASE_G,
            _ => {
                assert(complement_of(seq@[n - 1 - i]) is None);
                return false;
            },
        };
        if seq[i] != complement {
            return false;
        }
        i += 1;
    }
    true
}

/// Divisor of the strand concentration in the melting-temperature term: 2 for
/// a self-complementary sequence, 4 otherwise.
pub fn concentration_divisor(seq: &[u8]) -> (r: u32)
    ensures
        r == (if self_complementary(seq@) { 2u32 } else { 4u32 }),
{
    if is_self_complementary(seq) {
        2
    } else {
        4
    }
}

/// Initiation and nearest-neighbour totals of `seq`; `None` (the undefined
/// result) for a sequence shorter than two symbols.
pub fn nn_totals(seq: &[u8]) -> (r: Option<DuplexTotals>)
    ensures
        r is None <==> seq@.len() < 2,
        r matches Some(t) ==> t.dh == duplex_dh(seq@) && t.ds == duplex_ds(seq@),
{
    let n = seq.len();
    if n < 2 {
        return None;
    }
    let init = get_initiation_params(seq[0], seq[n - 1]);
    let mut dh: i128 = 0;
    let mut ds: i128 = 0;
    let mut i: usize = 0;
    while i < n - 1
        invariant
            n == seq@.len(),
            n >= 2,
            i <= n - 1,
            dh == stack_dh(seq@, i as int),
            ds == stack_ds(seq@, i as int),
            -106 * i <= dh <= 0,
            -272 * i <= ds <= 0,
        decreases n - 1 - i,
    {
        let p = get_nn_params(seq[i], seq[i + 1]);
        dh = dh + p.dh as i128;
        ds = ds + p.ds as i128;
        i += 1;
    }
    Some(DuplexTotals { dh: dh + init.dh as i128, ds: ds + init.ds as i128 })
}

/// Free energy of a duplex before the salt correction, in millionths of
/// kcal/mol, at temperature `t` in hundredths of a kelvin:
/// ΔH − T·ΔS/1000 with the totals in tenths.
pub open spec fn free_energy_core(s: Seq<u8>, t: int) -> int {
    duplex_dh(s) * 100000 - t * duplex_ds(s)
}

/// Contribution of one adjacent pair to `free_energy_core`.
pub open spec fn pair_free_energy(a: u8, b: u8, t: int) -> int {
    nn_table(a, b).0 * 100000 - t * nn_table(a, b).1
}

/// Sum of `pair_free_energy` over the first `k` adjacent pairs.
pub open spec fn stack_free_energy(s: Seq<u8>, k: int, t: int) -> int
    decreases k,
{
    if k <= 0 {
        0
    } else {
        stack_free_energy(s, k - 1, t) + pair_free_energy(s[k - 1], s[k], t)
    }
}

proof fn lemma_stack_free_energy(s: Seq<u8>, k: int, t: int)
    ensures
        stack_free_energy(s, k, t) == stack_dh(s, k) * 100000 - t * stack_ds(s, k),
    decreases k,
{
    if k > 0 {
        lemma_stack_free_energy(s, k - 1, t);
        let a = stack_ds(s, k - 1);
        let b = nn_table(s[k - 1], s[k]).1;
        assert(t * (a + b) == t * a + t * b) by (nonlinear_arith);
    }
}

/// A canonical pair lowers the free energy below 338.00 K; a pair with a
/// non-pairing symbol contributes nothing.
proof fn lemma_pair_free_energy(a: u8, b: u8, t: int)
    requires
        0 <= t <= 33800,
    ensures
        canonical(a) && canonical(b) ==> pair_free_energy(a, b, t) < 0,
        !canonical(a) || !canonical(b) ==> pair_free_energy(a, b, t) == 0,
{
    if !canonical(a) || !canonical(b) {
        assert(nn_table(a, b).1 == 0);
        assert(t * 0 == 0) by (nonlinear_arith);
    }
}

/// Replacing base `i` by the non-pairing `x` raises the stacking free energy
/// of the first `k` pairs, strictly once a pair touching `i` is among them.
proof fn lemma_stack_mismatch(s: Seq<u8>, i: int, x: u8, t: int, k: int)
    requires
        0 <= i < s.len(),
        0 <= k < s.len(),
        forall|j: int| 0 <= j < s.len() ==> canonical(#[trigger] s[j]),
        !canonical(x),
        0 <= t <= 33800,
    ensures
        stack_free_energy(s.update(i, x), k, t) >= stack_free_energy(s, k, t),
        k >= 1 && i <= k ==> stack_free_energy(s.update(i, x), k, t) > stack_free_energy(s, k, t),
    decreases k,
{
    let s2 = s.update(i, x);
    if k > 0 {
        lemma_stack_mismatch(s, i, x, t, k - 1);
        lemma_pair_free_energy(s[k - 1], s[k], t);
        lemma_pair_free_energy(s2[k - 1], s2[k], t);
        if k - 1 != i - 1 && k - 1 != i {
            assert(s2[k - 1] == s[k - 1] && s2[k] == s[k]);
        }
    }
}

/// A single mismatch raises the free energy: replacing one base of an
/// all-{A,C,G,T} sequence of at least two symbols by a symbol that pairs with
/// nothing strictly increases ΔG before the salt correction (which depends on
/// the length alone, so ΔG after it rises by the same amount), at any
/// temperature from 215.00 K to 338.00 K.
pub proof fn lemma_mismatch_raises_free_energy(s: Seq<u8>, i: int, x: u8, t: int)
    requires
        s.len() >= 2,
        0 <= i < s.len(),
        forall|j: int| 0 <= j < s.len() ==> canonical(#[trigger] s[j]),
        !canonical(x),
        21500 <= t <= 33800,
    ensures
        free_energy_core(s.update(i, x), t) > free_energy_core(s, t),
{
    let s2 = s.update(i, x);
    let n = s.len() as int;
    lemma_stack_mismatch(s, i, x, t, n - 1);
    lemma_stack_free_energy(s, n - 1, t);
    lemma_stack_free_energy(s2, n - 1, t);
    let a = init_table(s[0], s[n - 1]);
    let b = init_table(s2[0], s2[n - 1]);
    assert(t * (a.1 + stack_ds(s, n - 1)) == t * a.1 + t * stack_ds(s, n - 1)) by (nonlinear_arith);
    assert(t * (b.1 + stack_ds(s2, n - 1)) == t * b.1 + t * stack_ds(s2, n - 1)) by (nonlinear_arith);
    assert(canonical(s[0]) && canonical(s[n - 1]));
    assert(b.0 * 100000 - t * b.1 >= a.0 * 100000 - t * a.1);
}

/// Longest sequence the alignment engine accepts.
pub const THAL_MAX_ALIGN: usize = 60;

/// Longest sequence accepted at all.
pub const THAL_MAX_SEQ: usize = 10000;

/// Largest loop size considered.
pub const MAX_LOOP: i32 = 30;

/// Smallest loop size considered.
pub const MIN_LOOP: i32 = 0;

/// Error of a stability request.
#[derive(Clone, Copy, Debug, PartialEq, Eq, Structural)]
pub enum ThalError {
    /// A sequence is longer than `THAL_MAX_ALIGN`.
    SequenceTooLong,
}

/// How many leading symbols of the first sequence a stability request
/// scores: all of them for a hairpin, the length of the shorter sequence for
/// a dimer. Sequences longer than `THAL_MAX_ALIGN` are refused, never
/// truncated.
pub fn alignment_span(len1: usize, len2: usize, dimer: bool) -> (r: Result<usize, ThalError>)
    ensures
        r is Err <==> len1 > THAL_MAX_ALIGN || len2 > THAL_MAX_ALIGN,
        r matches Ok(n) ==> n == (if !dimer {
            len1
        } else if len1 <= len2 {
            len1
        } else {
            len2
        }),
{
    if len1 > THAL_MAX_ALIGN || len2 > THAL_MAX_ALIGN {
        return Err(ThalError::SequenceTooLong);
    }
    if !dimer {
        Ok(len1)
    } else if len1 <= len2 {
        Ok(len1)
    } else {
        Ok(len2)
    }
}

} // verus!

use primer_scan::thal::{
    alignment_span, concentration_divisor, get_initiation_params, get_nn_params,
    is_self_complementary, nn_totals, ThalError, THAL_MAX_ALIGN,
};

#[test]
fn test_nn_params() {
    let params = get_nn_params(b'A', b'A');
    assert_eq!(params.dh as f64 / 10.0, -7.9);
    assert_eq!(params.ds as f64 / 10.0, -22.2);
}

#[test]
fn test_initiation_params() {
    let params = get_initiation_params(b'A', b'T');
    assert_eq!(params.dh as f64 / 10.0, 2.3);
    assert_eq!(params.ds as f64 / 10.0, 4.1);
}

#[test]
fn test_self_complementary() {
    assert!(is_self_complementary(b"ATCGAT"));
    assert!(!is_self_complementary(b"ATCGAA"));
}

#[test]
fn nn_params_non_canonical_pair_is_zero() {
    let p = get_nn_params(b'N', b'A');
    assert_eq!((p.dh, p.ds), (0, 0));
    let p = get_nn_params(b'C', b'G');
    assert_eq!((p.dh, p.ds), (-106, -272));
}

#[test]
fn initiation_fallback_and_gc_terminal() {
    let p = get_initiation_params(b'A', b'A');
    assert_eq!((p.dh, p.ds), (2, -57));
    let p = get_initiation_params(b'C', b'G');
    assert_eq!((p.dh, p.ds), (1, -28));
    let p = get_initiation_params(b'T', b'G');
    assert_eq!((p.dh, p.ds), (12, 7));
}

#[test]
fn self_complementary_fails_closed_on_ambiguous_and_odd_length() {
    assert!(!is_self_complementary(b"ATNGAT"));
    assert!(!is_self_complementary(b"ACT"));
    assert!(is_self_complementary(b""));
}

#[test]
fn concentration_divisor_follows_symmetry() {
    // equal composition, only the first is its own reverse complement
    assert_eq!(concentration_divisor(b"ATCGAT"), 2);
    assert_eq!(concentration_divisor(b"ATCGTA"), 4);
}

#[test]
fn degenerate_sequences_are_undefined() {
    assert!(nn_totals(b"").is_none());
    assert!(nn_totals(b"A").is_none());
    assert!(nn_totals(b"AT").is_some());
}

#[test]
fn totals_of_concrete_motif() {
    let t = nn_totals(b"ATGCGATCGATCG").unwrap();
    assert_eq!((t.dh, t.ds), (-1033, -2780));
}

fn delta_g_and_tm(seq: &[u8]) -> (f64, f64) {
    let t = nn_totals(seq).unwrap();
    let dh = t.dh as f64 / 10.0;
    let na_eq = 50.0 + 120.0 * (1.5f64 - 0.6).sqrt();
    let ds = t.ds as f64 / 10.0 + 0.368 * (seq.len() as f64 - 1.0) * (na_eq / 1000.0).ln();
    let dg = dh - (37.0 + 273.15) * ds / 1000.0;
    let c = 50.0 / 1e9;
    let k = concentration_divisor(seq) as f64;
    let tm = 1000.0 * dh / (ds + 1.9872 * (c / k).ln()) - 273.15;
    (dg, tm)
}

#[test]
fn concrete_scenario_passes_threshold() {
    let (dg, tm) = delta_g_and_tm(b"ATGCGATCGATCG");
    assert!(dg < 0.0);
    assert!(tm.is_finite() && tm > 0.0);
    assert!(dg <= -5.0);
}

#[test]
fn mismatch_raises_delta_g() {
    let (dg_perfect, tm_perfect) = delta_g_and_tm(b"ATGCGATCGATCG");
    let (dg_mismatch, tm_mismatch) = delta_g_and_tm(b"ATGCGANCGATCG");
    assert!(dg_mismatch > dg_perfect);
    assert!(tm_mismatch < tm_perfect);
}

fn tm_with_divisor(seq: &[u8], k: f64) -> f64 {
    let t = nn_totals(seq).unwrap();
    let dh = t.dh as f64 / 10.0;
    let na_eq = 50.0 + 120.0 * (1.5f64 - 0.6).sqrt();
    let ds = t.ds as f64 / 10.0 + 0.368 * (seq.len() as f64 - 1.0) * (na_eq / 1000.0).ln();
    1000.0 * dh / (ds + 1.9872 * (50.0e-9 / k).ln()) - 273.15
}

#[test]
fn self_complementary_branch_raises_tm() {
    // the symmetric sequence takes divisor 2, which gives a higher Tm than 4
    let (_, tm_sym) = delta_g_and_tm(b"ATCGAT");
    assert_eq!(tm_sym, tm_with_divisor(b"ATCGAT", 2.0));
    assert!(tm_sym > tm_with_divisor(b"ATCGAT", 4.0));
    let (_, tm_plain) = delta_g_and_tm(b"ATCGTA");
    assert_eq!(tm_plain, tm_with_divisor(b"ATCGTA", 4.0));
    assert!(tm_plain < tm_with_divisor(b"ATCGTA", 2.0));
}

#[test]
fn alignment_span_limits_and_dimer() {
    assert_eq!(alignment_span(20, 15, true), Ok(15));
    assert_eq!(alignment_span(20, 15, false), Ok(20));
    assert_eq!(alignment_span(THAL_MAX_ALIGN, 1, true), Ok(1));
    assert_eq!(alignment_span(THAL_MAX_ALIGN + 1, 5, true), Err(ThalError::SequenceTooLong));
    assert_eq!(alignment_span(5, THAL_MAX_ALIGN + 1, false), Err(ThalError::SequenceTooLong));
}

use primer_scan::scan::{chunk_starts, validate_config, Candidate, ConfigError, ScanConfig, Scanner};
use primer_scan::seeds::{build_motifs, build_seed_index, to_upper, SEED_LEN};

fn scan_all(scanner: &Scanner, hay: &[u8], cfg: ScanConfig) -> Vec<Candidate> {
    let per_window = scanner.scan_sequence(hay, cfg);
    assert_eq!(per_window.len(), chunk_starts(hay.len(), cfg).len());
    per_window.into_iter().flatten().collect()
}

fn scan_by_window(scanner: &Scanner, hay: &[u8], cfg: ScanConfig) -> Vec<Candidate> {
    let mut all = Vec::new();
    for start in chunk_starts(hay.len(), cfg) {
        all.extend(scanner.scan_window(hay, start, cfg));
    }
    all
}

fn filler(len: usize) -> Vec<u8> {
    // a run of one base cannot hold a seed of a mixed motif
    vec![b'A'; len]
}

#[test]
fn every_seed_is_indexed() {
    let motifs = vec![b"ATGCGATCGATCG".to_vec(), b"GGGGGGGGG".to_vec(), b"ACG".to_vec()];
    let index = build_seed_index(&motifs);
    assert_eq!(index.seeds.len(), index.entries.len());
    for (m, motif) in motifs.iter().enumerate() {
        if motif.len() < SEED_LEN {
            continue;
        }
        for o in 0..=motif.len() - SEED_LEN {
            let seed = &motif[o..o + SEED_LEN];
            let i = index.seeds.iter().position(|s| s.as_slice() == seed).unwrap();
            assert!(index.entries[i].contains(&(m, o)));
        }
    }
    // the repeated seed of the poly-G motif shares one bucket
    let g = index.seeds.iter().position(|s| s.as_slice() == b"GGGGGGG").unwrap();
    assert_eq!(index.entries[g], vec![(1, 0), (1, 1), (1, 2)]);
}

#[test]
fn short_motif_gives_no_seed() {
    let index = build_seed_index(&vec![b"ACGTAC".to_vec()]);
    assert!(index.seeds.is_empty());
}

#[test]
fn motif_set_holds_reverse_complements() {
    let motifs = build_motifs(&vec![b"aacc".to_vec(), b"ATGN".to_vec()]);
    assert_eq!(motifs, vec![b"AACC".to_vec(), b"GGTT".to_vec(), b"ATGN".to_vec(), b"NCAT".to_vec()]);
}

#[test]
fn upper_case_only_changes_letters() {
    assert_eq!(to_upper(b"acgtN-1z"), b"ACGTN-1Z".to_vec());
}

#[test]
fn chunk_starts_step_by_chunk_minus_overlap() {
    let cfg = ScanConfig { chunk_size: 100, overlap: 20 };
    assert_eq!(chunk_starts(250, cfg), vec![0, 80, 160, 240]);
    assert_eq!(chunk_starts(240, cfg), vec![0, 80, 160]);
    assert_eq!(chunk_starts(0, cfg), Vec::<usize>::new());
}

#[test]
fn config_errors() {
    let motifs = vec![b"ATGCGATCGATCG".to_vec()];
    assert_eq!(validate_config(&Vec::new(), ScanConfig { chunk_size: 100, overlap: 20 }), Err(ConfigError::EmptyMotifSet));
    assert_eq!(validate_config(&motifs, ScanConfig { chunk_size: 20, overlap: 20 }), Err(ConfigError::ChunkNotLargerThanOverlap));
    assert_eq!(validate_config(&motifs, ScanConfig { chunk_size: 100, overlap: 13 }), Err(ConfigError::OverlapTooSmall));
    assert_eq!(validate_config(&motifs, ScanConfig { chunk_size: 100, overlap: 14 }), Ok(()));
}

#[test]
fn boundary_alignment_reported_once() {
    let motif = b"ATGCGATCGATCG".to_vec();
    let scanner = Scanner::new(vec![motif.clone()]).unwrap();
    let c = 100;
    let cfg = ScanConfig { chunk_size: c, overlap: 20 };
    let mut hay = filler(2 * c);
    let g = c - 6; // covers positions c-1 and c
    hay[g..g + motif.len()].copy_from_slice(&motif);
    let found: Vec<Candidate> = scan_all(&scanner, &hay, cfg)
        .into_iter()
        .filter(|x| x.start == g && x.motif_id == 0)
        .collect();
    assert_eq!(found.len(), 1);
}

#[test]
fn single_occurrence_counted_once_for_many_chunkings() {
    let motif = b"ATGCGATCGATCG".to_vec();
    let scanner = Scanner::new(vec![motif.clone()]).unwrap();
    let mut hay = filler(300);
    hay[137..150].copy_from_slice(&motif);
    for chunk_size in [30usize, 31, 45, 64, 100, 150, 299, 1000] {
        for overlap in [14usize, 15, 20, 29] {
            if overlap >= chunk_size {
                continue;
            }
            let cfg = ScanConfig { chunk_size, overlap };
            let hits: Vec<Candidate> = scan_all(&scanner, &hay, cfg)
                .into_iter()
                .filter(|x| x.motif_id == 0 && x.start == 137)
                .collect();
            assert_eq!(hits.len(), 1, "chunk {} overlap {}", chunk_size, overlap);
        }
    }
}

#[test]
fn lower_case_haystack_is_normalised() {
    let scanner = Scanner::new(vec![b"ATGCGATCGATCG".to_vec()]).unwrap();
    let mut hay = filler(60);
    hay[10..23].copy_from_slice(b"atgcgatcgatcg");
    let cfg = ScanConfig { chunk_size: 1000, overlap: 20 };
    let all = scan_all(&scanner, &hay, cfg);
    assert!(all.contains(&Candidate { motif_id: 0, start: 10 }));
}

#[test]
fn partial_seed_match_is_a_candidate_once() {
    // the second half of the motif matches, the first half does not
    let motif = b"ATGCGATCGATCG".to_vec();
    let scanner = Scanner::new(vec![motif.clone()]).unwrap();
    let mut hay = filler(40);
    hay[10..23].copy_from_slice(b"TTTTTTTCGATCG");
    let cfg = ScanConfig { chunk_size: 1000, overlap: 20 };
    let all = scan_all(&scanner, &hay, cfg);
    assert_eq!(all.iter().filter(|x| x.start == 10).count(), 1);
    assert!(all.contains(&Candidate { motif_id: 0, start: 10 }));
}

#[test]
fn candidate_near_end_not_fitting_is_dropped() {
    let scanner = Scanner::new(vec![b"ATGCGATCGATCG".to_vec()]).unwrap();
    let mut hay = filler(20);
    hay[12..19].copy_from_slice(b"ATGCGAT");
    let cfg = ScanConfig { chunk_size: 1000, overlap: 20 };
    assert!(scan_all(&scanner, &hay, cfg).is_empty());
}

#[test]
fn reverse_complement_motif_is_found() {
    let motifs = build_motifs(&vec![b"ATGCGATCGATCG".to_vec()]);
    let scanner = Scanner::new(motifs).unwrap();
    let mut hay = filler(50);
    hay[5..18].copy_from_slice(b"CGATCGATCGCAT");
    let cfg = ScanConfig { chunk_size: 1000, overlap: 20 };
    let all = scan_all(&scanner, &hay, cfg);
    let rev: Vec<&Candidate> = all.iter().filter(|x| x.motif_id == 1).collect();
    assert_eq!(rev, vec![&Candidate { motif_id: 1, start: 5 }]);
}

#[test]
fn scanner_builds_without_any_seed() {
    let scanner = Scanner::new(vec![b"ACG".to_vec()]).unwrap();
    assert!(scanner.index.seeds.is_empty());
    let cfg = ScanConfig { chunk_size: 100, overlap: 20 };
    assert!(scan_all(&scanner, b"ACGACGACG", cfg).is_empty());
}

#[test]
fn window_scan_agrees_with_sequence_scan() {
    let motifs = build_motifs(&vec![b"ATGCGATCGATCG".to_vec(), b"GGATCCAAGT".to_vec()]);
    let scanner = Scanner::new(motifs).unwrap();
    let mut hay = filler(250);
    hay[40..53].copy_from_slice(b"ATGCGATCGATCG");
    hay[75..85].copy_from_slice(b"ggatccaagt");
    hay[118..131].copy_from_slice(b"CGATCGATCGCAT");
    let cfg = ScanConfig { chunk_size: 50, overlap: 20 };
    let mut a = scan_all(&scanner, &hay, cfg);
    let mut b = scan_by_window(&scanner, &hay, cfg);
    a.sort_by_key(|c| (c.motif_id, c.start));
    b.sort_by_key(|c| (c.motif_id, c.start));
    assert_eq!(a, b);
    assert!(a.contains(&Candidate { motif_id: 0, start: 40 }));
    assert!(a.contains(&Candidate { motif_id: 2, start: 75 }));
    assert!(a.contains(&Candidate { motif_id: 1, start: 118 }));
}

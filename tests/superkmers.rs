use rust_superkmers::canon::normalize_mpos;
use rust_superkmers::dna::{base_to_bits, complement, is_revcomp_min, revcomp, switch_base};
use rust_superkmers::engine::{extract_with, SuperkmersIterator};
use rust_superkmers::naive::extract_superkmers;
use rust_superkmers::scoring::Scorer;
use rust_superkmers::syncmers::SyncmerTable;
use rust_superkmers::verbose::superkmer_to_verbose;
use rust_superkmers::{ParamError, Superkmer, SuperkmerVerbose};
use std::collections::HashSet;

/// A deterministic pseudo-random DNA sequence.
fn random_dna(len: usize, seed: u64) -> Vec<u8> {
    let mut x = seed;
    let mut out = Vec::with_capacity(len);
    for _ in 0..len {
        x = x.wrapping_mul(6364136223846793005).wrapping_add(1442695040888963407);
        out.push(b"ACGT"[(x >> 33) as usize % 4]);
    }
    out
}

fn revcomp_bytes(s: &[u8]) -> Vec<u8> {
    revcomp(std::str::from_utf8(s).unwrap()).into_bytes()
}

fn scores(seq: &[u8], l: usize, scorer: &Scorer) -> Vec<u64> {
    (0..seq.len() - l + 1).map(|i| scorer.score_at(seq, i, l)).collect()
}

/// Spans cover the k-mers of the sequence one after the other.
fn assert_tiles(sks: &[Superkmer], len: usize, k: usize) {
    assert!(!sks.is_empty());
    assert_eq!(sks[0].start, 0);
    for pair in sks.windows(2) {
        assert_eq!(pair[1].start, pair[0].start + pair[0].size as usize - k + 1);
    }
    let last = sks[sks.len() - 1];
    assert_eq!(last.start + last.size as usize, len);
    for sk in sks {
        assert!(sk.size as usize >= k);
    }
}

#[test]
fn spans_tile_the_sequence() {
    for (len, k, l, seed) in [(150, 21, 7, 1), (300, 31, 11, 2), (64, 17, 4, 3), (40, 40, 5, 4)] {
        let seq = random_dna(len, seed);
        let sks = extract_with(&seq, k, l, Scorer::NtHash).unwrap();
        assert_tiles(&sks, len, k);
        let sks = extract_with(&seq, k, l, Scorer::Lexicographic).unwrap();
        assert_tiles(&sks, len, k);
    }
}

#[test]
fn minimizer_is_minimal_in_every_window_of_its_span() {
    let seq = random_dna(200, 7);
    let (k, l) = (21, 7);
    let scorer = Scorer::Lexicographic;
    let sc = scores(&seq, l, &scorer);
    let sks = extract_with(&seq, k, l, Scorer::Lexicographic).unwrap();
    for sk in &sks {
        let a = sk.start;
        let last = a + sk.size as usize - k;
        // the span's minimal score is shared by all its windows
        let first_min = (a..=a + k - l).map(|q| sc[q]).min().unwrap();
        for v in a..=last {
            let m = (v..=v + k - l).map(|q| sc[q]).min().unwrap();
            assert_eq!(m, first_min);
        }
        // the recorded minimizer spells an l-mer whose strand holds the minimum
        let verbose = superkmer_to_verbose(*sk, &seq, l);
        let text = verbose.minimizer.as_bytes().to_vec();
        let fwd = &seq[a..a + sk.size as usize];
        let rc_fwd = revcomp_bytes(fwd);
        let found = (0..=sk.size as usize - l).any(|i| {
            (fwd[i..i + l] == text[..] || rc_fwd[i..i + l] == text[..])
                && sc[a + i] == first_min
                || revcomp_bytes(&text) == fwd[i..i + l].to_vec() && sc[a + i] == first_min
        });
        assert!(found, "{:?}", sk);
    }
}

#[test]
fn stream_matches_reference_extractor() {
    for (seed, len) in [(11u64, 300usize), (12, 120), (13, 57)] {
        let seq = random_dna(len, seed);
        for k in [17, 21, 31] {
            for l in [4, 5, 7, 11] {
                if k > len {
                    continue;
                }
                let stream = extract_with(&seq, k, l, Scorer::NtHash).unwrap();
                let (naive, naive_verbose) = extract_superkmers(&seq, k, l).unwrap();
                assert_eq!(stream, naive);
                let a: HashSet<SuperkmerVerbose> =
                    stream.iter().map(|sk| superkmer_to_verbose(*sk, &seq, l)).collect();
                let b: HashSet<SuperkmerVerbose> = naive_verbose.into_iter().collect();
                assert_eq!(a, b);
            }
        }
    }
}

#[test]
fn tied_window_is_its_own_span() {
    // ACG, the smallest 3-mer here, occurs at 4 and 9: window 4 (k = 8) holds it twice
    let seq = b"TTTTACGTTACGTTTT";
    let sks = extract_with(seq, 8, 3, Scorer::Lexicographic).unwrap();
    assert!(sks.iter().any(|sk| sk.start == 4 && sk.size == 8), "{:?}", sks);
    assert_tiles(&sks, seq.len(), 8);
}

#[test]
fn reverse_complement_gives_same_minimizers() {
    for seed in [21u64, 22, 23] {
        let seq = random_dna(250, seed);
        let rc = revcomp_bytes(&seq);
        let (k, l) = (21, 7);
        let mut a: Vec<String> = extract_with(&seq, k, l, Scorer::NtHash)
            .unwrap()
            .into_iter()
            .map(|sk| superkmer_to_verbose(sk, &seq, l).minimizer)
            .collect();
        let mut b: Vec<String> = extract_with(&rc, k, l, Scorer::NtHash)
            .unwrap()
            .into_iter()
            .map(|sk| superkmer_to_verbose(sk, &rc, l).minimizer)
            .collect();
        a.sort();
        b.sort();
        assert_eq!(a, b);
    }
}

#[test]
fn iterator_yields_then_stops() {
    let seq = random_dna(80, 5);
    let mut it = SuperkmersIterator::new(&seq, 21, 7).unwrap();
    let mut n = 0;
    while let Some(sk) = it.next() {
        assert!(sk.size >= 21);
        n += 1;
    }
    assert!(n >= 1);
    assert!(it.next().is_none());
    let all = extract_with(&seq, 21, 7, Scorer::NtHash).unwrap();
    assert_eq!(all.len(), n);
}

#[test]
fn single_kmer_sequence_is_one_span() {
    let seq = b"ACGTTGCAAGT";
    let sks = extract_with(seq, 11, 4, Scorer::Lexicographic).unwrap();
    assert_eq!(sks.len(), 1);
    assert_eq!(sks[0].start, 0);
    assert_eq!(sks[0].size, 11);
}

#[test]
fn k_equal_l_windows_of_one() {
    let seq = random_dna(30, 9);
    let sks = extract_with(&seq, 5, 5, Scorer::NtHash).unwrap();
    assert_tiles(&sks, 30, 5);
    // one l-mer a window: every span is a single k-mer unless two neighbours
    // share a minimizer offset, which cannot happen
    assert_eq!(sks.len(), 26);
}

#[test]
fn lexicographic_spans_exact() {
    let seq = b"CATGCAATG";
    let sks = extract_with(seq, 5, 3, Scorer::Lexicographic).unwrap();
    // 3-mers: CAT ATG TGC GCA CAA AAT ATG; packed: 19 14 57 36 16 3 14
    // windows of 3 l-mers: [0..2] min ATG@1, [1..3] ATG@1, [2..4] CAA@4, [3..5] AAT@5, [4..6] AAT@5
    // spans: windows 0-1, window 2, windows 3-4
    let starts: Vec<usize> = sks.iter().map(|sk| sk.start).collect();
    let sizes: Vec<u8> = sks.iter().map(|sk| sk.size).collect();
    assert_eq!(starts, vec![0, 2, 3]);
    assert_eq!(sizes, vec![6, 5, 6]);
    // span 0: CATGCA, minimizer ATG at 1, mirror 6-(1+3)=2 > 1, forward;
    // ATG < CAT = rc(ATG), so it stays
    assert_eq!((sks[0].mpos, sks[0].rc), (1, false));
    // span 1: TGCAA, minimizer CAA at 2, mirror 0 < 2: rc strand at 0 (TTG);
    // rc(TTG)=CAA < TTG, flips back: forward at 2
    assert_eq!((sks[1].mpos, sks[1].rc), (2, false));
    // span 2: GCAATG, minimizer AAT at 2, mirror 1 < 2: rc strand CATTGC at 1 (ATT);
    // rc(ATT)=AAT < ATT, flips back: forward at 2
    assert_eq!((sks[2].mpos, sks[2].rc), (2, false));
    assert_eq!(superkmer_to_verbose(sks[0], seq, 3).sequence, "CATGCA");
    assert_eq!(superkmer_to_verbose(sks[0], seq, 3).minimizer, "ATG");
}

#[test]
fn syncmer_scorer_runs() {
    let seq = random_dna(200, 31);
    let table = SyncmerTable::new(8).unwrap();
    let sks = extract_with(&seq, 21, 8, Scorer::Syncmer(table)).unwrap();
    assert_tiles(&sks, 200, 21);
    let other = SyncmerTable::new(8).unwrap();
    assert!(matches!(
        extract_with(&seq, 21, 10, Scorer::Syncmer(other)),
        Err(ParamError::UnsupportedMinimizerLength)
    ));
}

#[test]
fn parameter_errors() {
    let seq = random_dna(300, 41);
    assert!(matches!(extract_with(&seq, 21, 0, Scorer::NtHash), Err(ParamError::InvalidLengths)));
    assert!(matches!(extract_with(&seq, 5, 7, Scorer::NtHash), Err(ParamError::InvalidLengths)));
    assert!(matches!(extract_with(&seq[..10], 21, 7, Scorer::NtHash), Err(ParamError::InvalidLengths)));
    assert!(matches!(extract_with(&seq, 200, 10, Scorer::NtHash), Err(ParamError::SpanTooLong)));
    assert!(extract_with(&seq, 128, 1, Scorer::NtHash).is_ok());
    assert!(matches!(extract_with(&seq, 129, 2, Scorer::NtHash), Err(ParamError::SpanTooLong)));
    assert!(matches!(
        extract_with(&seq, 40, 33, Scorer::Lexicographic),
        Err(ParamError::UnsupportedMinimizerLength)
    ));
    assert!(extract_with(&seq, 40, 32, Scorer::Lexicographic).is_ok());
    assert!(matches!(extract_with(b"ACGTXACGTACGT", 5, 3, Scorer::NtHash), Err(ParamError::InvalidBase)));
    assert!(matches!(extract_with(b"acgtacgtacgt", 5, 3, Scorer::NtHash), Err(ParamError::InvalidBase)));
    assert!(extract_with(b"ACGTNACGTACGT", 5, 3, Scorer::NtHash).is_ok());
    assert!(extract_with(b"acgtacgtacgt", 5, 3, Scorer::Lexicographic).is_ok());
    assert!(matches!(SuperkmersIterator::new(&seq, 0, 0), Err(ParamError::InvalidLengths)));
    assert!(matches!(extract_superkmers(&seq, 5, 7), Err(ParamError::InvalidLengths)));
}

#[test]
fn nthash_score_matches_published_value() {
    assert_eq!(Scorer::NtHash.score_at(b"TGCAG", 0, 5), 0xbafa6728fc6dabf);
    // the hash is canonical: a k-mer and its reverse complement agree
    assert_eq!(Scorer::NtHash.score_at(b"CTGCA", 0, 5), 0xbafa6728fc6dabf);
    assert_eq!(Scorer::NtHash.score_at(b"AACTGCAG", 3, 5), Scorer::NtHash.score_at(b"TGCAG", 0, 5));
}

#[test]
fn lexicographic_score_values() {
    let s = Scorer::Lexicographic;
    assert_eq!(s.score_at(b"ACGT", 0, 4), 0b00_01_10_11);
    assert_eq!(s.score_at(b"AAAA", 0, 4), u64::MAX);
    assert_eq!(s.score_at(b"TTTT", 0, 4), 255);
    assert_eq!(s.score_at(b"acgt", 0, 4), 27);
}

#[test]
fn base_codes() {
    assert_eq!(base_to_bits(b'A'), 0);
    assert_eq!(base_to_bits(b'c'), 1);
    assert_eq!(base_to_bits(b'G'), 2);
    assert_eq!(base_to_bits(b't'), 3);
    assert_eq!(base_to_bits(b'N'), 0);
}

#[test]
fn complement_bit_trick() {
    for (x, y) in [(b'A', b'T'), (b'C', b'G'), (b'G', b'C'), (b'T', b'A'), (b'a', b't'), (b'N', b'N')] {
        let mut c = x;
        complement(&mut c);
        assert_eq!(c, y);
    }
}

#[test]
fn revcomp_min_strand() {
    assert!(!is_revcomp_min(b"AAAC")); // rc GTTT is larger
    assert!(is_revcomp_min(b"TTTG")); // rc CAAA is smaller
    assert!(!is_revcomp_min(b"ACGT")); // its own reverse complement
    assert!(!is_revcomp_min(b"AAAA")); // rc TTTT is larger
    assert!(is_revcomp_min(b"TTTT")); // rc AAAA is smaller
}

#[test]
fn reverse_complement_strings() {
    assert_eq!(revcomp("ACGTTN"), "NAACGT");
    assert_eq!(revcomp("acgu"), "acgt");
    assert_eq!(revcomp(""), "");
    assert_eq!(switch_base('U'), 'A');
    assert_eq!(switch_base('x'), 'N');
}

fn strings(s: &str, mpos: usize, l: usize) -> (String, String, String, String) {
    let m = s[mpos..mpos + l].to_string();
    (s.to_string(), revcomp(s), m.clone(), revcomp(&m))
}

#[test]
fn normalize_keeps_near_left_minimizer() {
    // minimizer CCA at 1 of GCCATTTT: mirror 4 > 1, and CCA < TGG: unchanged
    let (s, r, m, mr) = strings("GCCATTTT", 1, 3);
    let out = normalize_mpos(s, r, m, mr, 1, 3, false);
    assert_eq!(out, ("GCCATTTT".to_string(), "AAAATGGC".to_string(), "CCA".to_string(), "TGG".to_string(), 1));
}

#[test]
fn normalize_mirrors_right_minimizer() {
    // minimizer CCA at 4 of TTTTCCAG: mirror 1 < 4, take the reverse complement
    // CTGGAAAA at 1: TGG; its rc CCA is smaller, so back to forward at 4
    let (s, r, m, mr) = strings("TTTTCCAG", 4, 3);
    let out = normalize_mpos(s, r, m, mr, 4, 3, false);
    assert_eq!(out.4, 4);
    assert_eq!(out.0, "TTTTCCAG");
    assert_eq!(out.2, "CCA");
    // a minimizer that is already canonical on the reverse strand stays there
    let (s, r, m, mr) = strings("TTTTTGGC", 4, 3);
    let out = normalize_mpos(s, r, m, mr, 4, 3, false);
    assert_eq!(out, ("GCCAAAAA".to_string(), "TTTTTGGC".to_string(), "CCA".to_string(), "TGG".to_string(), 1));
}

#[test]
fn normalize_tied_takes_leftmost_occurrence() {
    // GGA at 5, its rc TCC at 1 on both strands (ATCCAGGAT, ATCCTGGAT): the
    // leftmost occurrence wins, on the smaller strand (the forward one); TCC is
    // not canonical, so the record flips to the reverse strand, GGA at 5
    let (s, r, m, mr) = strings("ATCCAGGAT", 5, 3);
    let out = normalize_mpos(s, r, m, mr, 5, 3, true);
    assert_eq!(out.4, 5);
    assert_eq!(out.0, "ATCCTGGAT");
    assert_eq!(out.2, "GGA");
    // ACC at 10 of TACCTTTTTTACCTT also sits at 1 on the forward strand, left
    // of every occurrence on the reverse one (AAGGTAAAAAAGGTA, GGT at 2)
    let (s, r, m, mr) = strings("TACCTTTTTTACCTT", 10, 3);
    let out = normalize_mpos(s, r, m, mr, 10, 3, true);
    assert_eq!(out.4, 1);
    assert_eq!(out.0, "TACCTTTTTTACCTT");
    assert_eq!(out.2, "ACC");
}

#[test]
fn normalize_is_a_fixed_point() {
    let cases = [("GCCATTTT", 1, false), ("TTTTCCAG", 4, false), ("TTTTTGGC", 4, false), ("ACGTACGT", 2, false), ("ATCCAGGAT", 5, true)];
    for (seq, mpos, tied) in cases {
        let (s, r, m, mr) = strings(seq, mpos, 3);
        let once = normalize_mpos(s, r, m, mr, mpos, 3, tied);
        let twice = normalize_mpos(once.0.clone(), once.1.clone(), once.2.clone(), once.3.clone(), once.4, 3, tied);
        assert_eq!(once, twice, "{}", seq);
    }
}

#[test]
fn verbose_ordering_and_fields() {
    let seq = b"ACGTTGCA";
    let sk = Superkmer { start: 1, mint: 0, size: 5, mpos: 1, rc: true };
    let v = superkmer_to_verbose(sk, seq, 2);
    // CGTTG reverse complemented: CAACG, minimizer at 1: AA
    assert_eq!(v.sequence, "CAACG");
    assert_eq!(v.minimizer, "AA");
    assert_eq!(v.mpos, 1);
    let a = Superkmer { start: 0, mint: 9, size: 5, mpos: 0, rc: false };
    let b = Superkmer { start: 2, mint: 0, size: 5, mpos: 0, rc: false };
    assert!(a < b);
}

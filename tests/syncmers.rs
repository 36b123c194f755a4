use rust_superkmers::syncmers::{find_syncmers, find_syncmers_pos, SyncmerTable};
use rust_superkmers::ParamError;

#[test]
pub fn test_syncmers_fig1b() {
    let sequence = b"CCAGTGTTTACGG";
    let syncmer_positions = find_syncmers_pos(5, 2, &[2], sequence);
    println!("{:?}", syncmer_positions);
    assert!(syncmer_positions == vec![0, 7]);

    let sequence = b"CCAGTGTTTACGG";
    let syncmers = find_syncmers(5, 2, &[2], None, sequence);
    assert!(syncmers == vec![b"CCAGT", b"TTACG"]);
    println!("{:?}", syncmers);

    let sequence = b"CCAGTGTTTACGG";
    let syncmer_positions = find_syncmers_pos(5, 2, &[2, 3], sequence);
    println!("{:?}", syncmer_positions);
    assert!(syncmer_positions == vec![0, 6, 7]);
}

#[test]
fn syncmer_substrings_of_the_figure() {
    let sequence = b"CCAGTGTTTACGG";
    let mers = find_syncmers(5, 2, &[2], None, sequence);
    let texts: Vec<Vec<u8>> = mers.iter().map(|m| m.to_vec()).collect();
    assert_eq!(texts, vec![b"CCAGT".to_vec(), b"TTACG".to_vec()]);
}

#[test]
fn no_target_offsets_means_no_syncmers() {
    let sequence = b"CCAGTGTTTACGG";
    let ts: [usize; 0] = [];
    assert!(find_syncmers_pos(5, 2, &ts, sequence).is_empty());
}

#[test]
fn whole_sequence_is_one_window() {
    // the smallest 2-mer of CCAGT is AG at offset 2
    assert_eq!(find_syncmers_pos(5, 2, &[2], b"CCAGT"), vec![0]);
    assert!(find_syncmers_pos(5, 2, &[0], b"CCAGT").is_empty());
}

#[test]
fn first_of_equal_smallest_smers_counts() {
    // AC occurs at offsets 0 and 2 of ACACG: the first one is the minimum
    assert_eq!(find_syncmers_pos(5, 2, &[0], b"ACACG"), vec![0]);
    assert!(find_syncmers_pos(5, 2, &[2], b"ACACG").is_empty());
}

#[test]
fn downsampling_threshold_filters_by_hash() {
    let sequence = b"CCAGTGTTTACGGATTACAGGACCTTAGACAT";
    let all = find_syncmers(5, 2, &[2], None, sequence);
    assert!(!all.is_empty());
    let none = find_syncmers(5, 2, &[2], Some(0), sequence);
    assert!(none.is_empty());
    let threshold = u64::MAX / 2;
    let kept = find_syncmers(5, 2, &[2], Some(threshold), sequence);
    let expected: Vec<&[u8]> = all
        .iter()
        .copied()
        .filter(|m| twox_hash::XxHash64::oneshot(42, m) < threshold)
        .collect();
    assert_eq!(kept, expected);
}

#[test]
fn syncmer_table_lengths() {
    assert!(SyncmerTable::new(8).is_ok());
    assert!(matches!(SyncmerTable::new(9), Err(ParamError::UnsupportedMinimizerLength)));
    assert!(matches!(SyncmerTable::new(4), Err(ParamError::UnsupportedMinimizerLength)));
}

#[test]
fn syncmer_table_marks_closed_syncmers() {
    let table = SyncmerTable::new(8).unwrap();
    assert_eq!(table.len(), 8);
    // ACGTTTTT: smallest 2-mer AC at offset 0, a closed syncmer
    let acgttttt: u64 = 0b00_01_10_11_11_11_11_11;
    assert!(table.contains(acgttttt));
    // TTTACTTT: smallest 2-mer AC at offset 3, not closed
    let tttacttt: u64 = 0b11_11_11_00_01_11_11_11;
    assert!(!table.contains(tttacttt));
    // TTTTTTAC: smallest 2-mer AC at the last offset
    let ttttttac: u64 = 0b11_11_11_11_11_11_00_01;
    assert!(table.contains(ttttttac));
    // out of the table's range
    assert!(!table.contains(1 << 16));
}

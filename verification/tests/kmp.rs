use string_matching::kmp::{build_next_table, init_kmp, kmp};
use string_matching::run::PatternData;

fn count_by_search(pattern: &[u8], sequence: &[u8]) -> i32 {
    let mut count = 0;
    let mut end = pattern.len();
    while end <= sequence.len() {
        if &sequence[end - pattern.len()..end] == pattern {
            count += 1;
        }
        end += 1;
    }
    count
}

#[test]
fn next_table_of_a_classic_pattern() {
    // The table of the handbook's example pattern.
    assert_eq!(build_next_table(b"GCAGAGAG\0", 8), vec![-1, 0, 0, -1, 1, -1, 1, -1, 1]);
}

#[test]
fn next_table_of_repeated_symbols() {
    assert_eq!(build_next_table(b"AAAA\0", 4), vec![-1, -1, -1, -1, 3]);
    assert_eq!(build_next_table(b"ABAB\0", 4), vec![-1, 0, -1, 0, 2]);
    assert_eq!(build_next_table(b"A\0", 1), vec![-1, 0]);
    assert_eq!(build_next_table(b"\0", 0), vec![-1]);
}

#[test]
fn next_table_looks_at_the_first_symbols_only() {
    assert_eq!(build_next_table(b"ABABXYZ", 4), vec![-1, 0, -1, 0, 2]);
}

#[test]
fn prepared_pattern_ends_with_a_zero_byte() {
    let data = init_kmp(b"ABAB");
    assert_eq!(data.len(), 2);
    match &data[0] {
        PatternData::PatternU8Vec(pattern) => assert_eq!(pattern, &b"ABAB\0".to_vec()),
        _ => panic!("the pattern comes first"),
    }
    match &data[1] {
        PatternData::PatternIntVec(table) => assert_eq!(table, &vec![-1, 0, -1, 0, 2]),
        _ => panic!("the table comes second"),
    }
}

#[test]
fn kmp_counts_overlapping_occurrences() {
    assert_eq!(kmp(&init_kmp(b"AA"), b"AAAA"), 3);
    assert_eq!(kmp(&init_kmp(b"ABA"), b"ABABABA"), 3);
    assert_eq!(kmp(&init_kmp(b"GATTACA"), b"GATTACA"), 1);
    assert_eq!(kmp(&init_kmp(b"GATTACA"), b"GATTAC"), 0);
    assert_eq!(kmp(&init_kmp(b"A"), b""), 0);
}

#[test]
fn kmp_agrees_with_search_by_hand() {
    let patterns: Vec<&[u8]> = vec![b"A", b"AC", b"ACA", b"CACA", b"GCAGAGAG", b"TTT", b"ACGTACGT"];
    let sequences: Vec<&[u8]> = vec![
        b"GCATCGCAGAGAGTATACAGTACG",
        b"ACACACACACACA",
        b"TTTTTTTTT",
        b"ACGTACGTACGTACGT",
        b"G",
    ];
    for pattern in &patterns {
        let data = init_kmp(pattern);
        for sequence in &sequences {
            assert_eq!(kmp(&data, sequence), count_by_search(pattern, sequence));
        }
    }
}

#[test]
fn kmp_takes_zero_bytes_as_symbols() {
    assert_eq!(kmp(&init_kmp(&[0, 1, 0]), &[0, 1, 0, 1, 0, 0]), 2);
}

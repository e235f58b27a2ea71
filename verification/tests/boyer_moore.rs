use string_matching::boyer_moore::{
    boyer_moore, calc_bad_char, calc_good_suffix, calc_suffixes, init_boyer_moore,
};
use string_matching::run::PatternData;
use string_matching::trie::ASIZE;

fn count_by_search(pattern: &[u8], sequence: &[u8]) -> i32 {
    let mut count = 0;
    let mut end = pattern.len();
    while end <= sequence.len() {
        if &sequence[end - pattern.len()..end] == pattern {
            count += 1;
        }
        end += 1;
    }
    count
}

#[test]
fn bad_char_of_a_classic_pattern() {
    let table = calc_bad_char(b"GCAGAGAG\0", 8);
    assert_eq!(table.len(), ASIZE);
    assert_eq!(table[b'A' as usize], 1);
    assert_eq!(table[b'C' as usize], 6);
    assert_eq!(table[b'G' as usize], 2);
    assert_eq!(table[b'T' as usize], 8);
    assert_eq!(table[0], 8);
    assert_eq!(table[255], 8);
}

#[test]
fn bad_char_passes_over_the_last_symbol() {
    let table = calc_bad_char(b"AAT", 3);
    assert_eq!(table[b'A' as usize], 1);
    assert_eq!(table[b'T' as usize], 3);
    let table = calc_bad_char(b"T", 1);
    assert_eq!(table[b'T' as usize], 1);
    assert_eq!(table[b'A' as usize], 1);
}

#[test]
fn suffixes_of_a_classic_pattern() {
    assert_eq!(calc_suffixes(b"GCAGAGAG\0", 8), vec![1, 0, 0, 2, 0, 4, 0, 8]);
}

#[test]
fn suffixes_of_repeated_symbols() {
    assert_eq!(calc_suffixes(b"AAAA", 4), vec![1, 2, 3, 4]);
    assert_eq!(calc_suffixes(b"ABAB", 4), vec![0, 2, 0, 4]);
    assert_eq!(calc_suffixes(b"A", 1), vec![1]);
    assert_eq!(calc_suffixes(b"ABCD", 4), vec![0, 0, 0, 4]);
}

#[test]
fn good_suffix_of_a_classic_pattern() {
    assert_eq!(calc_good_suffix(b"GCAGAGAG\0", 8), vec![7, 7, 7, 2, 7, 4, 7, 1]);
}

#[test]
fn good_suffix_of_short_and_repeated_patterns() {
    assert_eq!(calc_good_suffix(b"A", 1), vec![1]);
    assert_eq!(calc_good_suffix(b"AA", 2), vec![1, 2]);
    assert_eq!(calc_good_suffix(b"AB", 2), vec![2, 1]);
    assert_eq!(calc_good_suffix(b"AAAA", 4), vec![1, 2, 3, 4]);
    assert_eq!(calc_good_suffix(b"ABAB", 4), vec![2, 2, 4, 1]);
}

#[test]
fn prepared_data_holds_pattern_and_both_tables() {
    let data = init_boyer_moore(b"AB");
    assert_eq!(data.len(), 3);
    match &data[0] {
        PatternData::PatternU8Vec(pattern) => assert_eq!(pattern, &b"AB\0".to_vec()),
        _ => panic!("the pattern comes first"),
    }
    match &data[1] {
        PatternData::PatternIntVec(table) => assert_eq!(table, &vec![2, 1]),
        _ => panic!("the good-suffix shifts come second"),
    }
    match &data[2] {
        PatternData::PatternIntVec(table) => {
            assert_eq!(table.len(), ASIZE);
            assert_eq!(table[b'A' as usize], 1);
            assert_eq!(table[b'B' as usize], 2);
        }
        _ => panic!("the bad-character shifts come third"),
    }
}

#[test]
fn boyer_moore_counts_overlapping_occurrences() {
    assert_eq!(boyer_moore(&init_boyer_moore(b"AA"), b"AAAA"), 3);
    assert_eq!(boyer_moore(&init_boyer_moore(b"ABA"), b"ABABABA"), 3);
    assert_eq!(boyer_moore(&init_boyer_moore(b"GATTACA"), b"GATTACA"), 1);
    assert_eq!(boyer_moore(&init_boyer_moore(b"GATTACA"), b"GATTAC"), 0);
    assert_eq!(boyer_moore(&init_boyer_moore(b"AC"), b""), 0);
}

#[test]
fn boyer_moore_takes_a_pattern_of_one_symbol() {
    assert_eq!(boyer_moore(&init_boyer_moore(b"A"), b"ABAA"), 3);
    assert_eq!(boyer_moore(&init_boyer_moore(b"A"), b""), 0);
}

#[test]
fn boyer_moore_finds_the_handbook_occurrence() {
    let data = init_boyer_moore(b"GCAGAGAG");
    assert_eq!(boyer_moore(&data, b"GCATCGCAGAGAGTATACAGTACG"), 1);
}

#[test]
fn boyer_moore_agrees_with_search_by_hand() {
    let patterns: Vec<&[u8]> =
        vec![b"A", b"AC", b"ACA", b"CACA", b"GCAGAGAG", b"TTT", b"ACGTACGT", b"TATA", b"GG"];
    let sequences: Vec<&[u8]> = vec![
        b"GCATCGCAGAGAGTATACAGTACG",
        b"ACACACACACACA",
        b"TTTTTTTTT",
        b"ACGTACGTACGTACGT",
        b"TATATATATTATATA",
        b"G",
        &[0xff, b'A', 0x00, b'A', b'C', 0x80, b'A', b'C', b'A'],
    ];
    for pattern in &patterns {
        let data = init_boyer_moore(pattern);
        for sequence in &sequences {
            assert_eq!(boyer_moore(&data, sequence), count_by_search(pattern, sequence));
        }
    }
}

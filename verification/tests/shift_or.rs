use string_matching::run::PatternData;
use string_matching::shift_or::{calc_s_positions, init_shift_or, shift_or};
use string_matching::trie::ASIZE;

fn count_by_search(pattern: &[u8], sequence: &[u8]) -> i32 {
    let mut count = 0;
    let mut end = pattern.len();
    while end <= sequence.len() {
        if &sequence[end - pattern.len()..end] == pattern {
            count += 1;
        }
        end += 1;
    }
    count
}

#[test]
fn positions_clear_one_bit_for_each_place() {
    let mut table: Vec<u64> = vec![!0; ASIZE];
    let lim = calc_s_positions(b"GCAGAGAG", 8, &mut table);
    assert_eq!(lim, !0x7f);
    assert_eq!(table[b'G' as usize], !0b1010_1001);
    assert_eq!(table[b'C' as usize], !0b0000_0010);
    assert_eq!(table[b'A' as usize], !0b0101_0100);
    assert_eq!(table[b'T' as usize], !0);
}

#[test]
fn positions_keep_what_was_clear_before() {
    let mut table: Vec<u64> = vec![0xff00; ASIZE];
    let lim = calc_s_positions(b"ABA", 2, &mut table);
    assert_eq!(lim, !1);
    assert_eq!(table[b'A' as usize], 0xff00);
    let mut table: Vec<u64> = vec![0xff03; ASIZE];
    calc_s_positions(b"ABA", 2, &mut table);
    assert_eq!(table[b'A' as usize], 0xff02);
    assert_eq!(table[b'B' as usize], 0xff01);
    assert_eq!(table[b'C' as usize], 0xff03);
}

#[test]
fn limit_of_short_and_long_patterns() {
    let mut table: Vec<u64> = vec![!0; ASIZE];
    assert_eq!(calc_s_positions(b"", 0, &mut table), !0);
    assert_eq!(calc_s_positions(b"A", 1, &mut table), !0);
    assert_eq!(calc_s_positions(b"AC", 2, &mut table), !1);
    let long = [b'A'; 64];
    assert_eq!(calc_s_positions(&long, 64, &mut table), 1 << 63);
    assert_eq!(calc_s_positions(&long, 63, &mut table), 3 << 62);
}

#[test]
fn prepared_data_holds_limit_and_table() {
    let data = init_shift_or(b"AB");
    assert_eq!(data.len(), 2);
    match &data[0] {
        PatternData::PatternWord(lim) => assert_eq!(*lim, !1),
        _ => panic!("the limit comes first"),
    }
    match &data[1] {
        PatternData::PatternWordVec(table) => {
            assert_eq!(table.len(), ASIZE);
            assert_eq!(table[b'A' as usize], !1);
            assert_eq!(table[b'B' as usize], !2);
            assert_eq!(table[0], !0);
        }
        _ => panic!("the table comes second"),
    }
}

#[test]
fn shift_or_counts_overlapping_occurrences() {
    assert_eq!(shift_or(&init_shift_or(b"AA"), b"AAAA"), 3);
    assert_eq!(shift_or(&init_shift_or(b"ABA"), b"ABABABA"), 3);
    assert_eq!(shift_or(&init_shift_or(b"GATTACA"), b"GATTACA"), 1);
    assert_eq!(shift_or(&init_shift_or(b"GATTACA"), b"GATTAC"), 0);
    assert_eq!(shift_or(&init_shift_or(b"A"), b"AXA"), 2);
    assert_eq!(shift_or(&init_shift_or(b"A"), b""), 0);
}

#[test]
fn shift_or_finds_nothing_for_the_empty_pattern() {
    assert_eq!(shift_or(&init_shift_or(b""), b"ACGT"), 0);
}

#[test]
fn shift_or_takes_a_pattern_of_a_full_word() {
    let pattern: Vec<u8> = (0..64).map(|i| b"ACGT"[i % 4]).collect();
    let mut sequence: Vec<u8> = Vec::new();
    for i in 0..200 {
        sequence.push(b"ACGT"[i % 4]);
    }
    let data = init_shift_or(&pattern);
    assert_eq!(shift_or(&data, &sequence), count_by_search(&pattern, &sequence));
    assert_eq!(shift_or(&data, &sequence), 35);
    assert_eq!(shift_or(&data, &sequence[..63]), 0);
}

#[test]
fn shift_or_agrees_with_search_by_hand() {
    let patterns: Vec<&[u8]> = vec![b"A", b"AC", b"ACA", b"CACA", b"GCAGAGAG", b"TTT", b"ACGTACGT"];
    let sequences: Vec<&[u8]> = vec![
        b"GCATCGCAGAGAGTATACAGTACG",
        b"ACACACACACACA",
        b"TTTTTTTTT",
        b"ACGTACGTACGTACGT",
        b"G",
        &[0xff, b'A', 0x00, b'A', b'C'],
    ];
    for pattern in &patterns {
        let data = init_shift_or(pattern);
        for sequence in &sequences {
            assert_eq!(shift_or(&data, sequence), count_by_search(pattern, sequence));
        }
    }
}

use string_matching::dfa_gap::{create_dfa, dfa_gap, init_dfa_gap};
use string_matching::regexp::{init_regexp, regexp};
use string_matching::run::ApproxPatternData;
use string_matching::trie::{ASIZE, FAIL};

fn is_base(c: u8) -> bool {
    c == b'A' || c == b'C' || c == b'G' || c == b'T'
}

fn occurs_by_hand(pattern: &[u8], k: usize, text: &[u8], start: usize) -> bool {
    if text[start] != pattern[0] {
        return false;
    }
    let mut pos = start + 1;
    for t in 1..pattern.len() {
        let mut gap = 0;
        loop {
            if pos >= text.len() {
                return false;
            }
            if text[pos] == pattern[t] {
                pos += 1;
                break;
            }
            if gap == k || !is_base(text[pos]) {
                return false;
            }
            gap += 1;
            pos += 1;
        }
    }
    true
}

fn count_by_hand(pattern: &[u8], k: usize, text: &[u8]) -> i32 {
    (0..text.len()).filter(|&start| occurs_by_hand(pattern, k, text, start)).count() as i32
}

#[test]
fn table_of_two_symbols_and_two_gaps() {
    let mut dfa: Vec<Vec<i32>> = Vec::new();
    let terminal = create_dfa(b"AC", 2, 2, &mut dfa);
    assert_eq!(terminal, 2);
    assert_eq!(dfa.len(), 5);
    let mut expected = vec![vec![FAIL; ASIZE]; 5];
    expected[0][b'A' as usize] = 1;
    expected[1][b'C' as usize] = 2;
    expected[1][b'A' as usize] = 3;
    expected[1][b'G' as usize] = 3;
    expected[1][b'T' as usize] = 3;
    expected[3][b'C' as usize] = 2;
    expected[3][b'A' as usize] = 4;
    expected[3][b'G' as usize] = 4;
    expected[3][b'T' as usize] = 4;
    expected[4][b'C' as usize] = 2;
    assert_eq!(dfa, expected);
}

#[test]
fn table_of_three_symbols_and_one_gap() {
    let mut dfa: Vec<Vec<i32>> = Vec::new();
    let terminal = create_dfa(b"GAT", 3, 1, &mut dfa);
    assert_eq!(terminal, 4);
    assert_eq!(dfa.len(), 6);
    assert_eq!(dfa[0][b'G' as usize], 1);
    assert_eq!(dfa[1][b'A' as usize], 2);
    assert_eq!(dfa[1][b'C' as usize], 3);
    assert_eq!(dfa[3][b'A' as usize], 2);
    assert_eq!(dfa[3][b'C' as usize], FAIL);
    assert_eq!(dfa[2][b'T' as usize], 4);
    assert_eq!(dfa[2][b'G' as usize], 5);
    assert_eq!(dfa[5][b'T' as usize], 4);
    assert_eq!(dfa[5][b'G' as usize], FAIL);
    assert!(dfa[4].iter().all(|&t| t == FAIL));
}

#[test]
fn table_of_one_symbol_has_two_states() {
    let mut dfa: Vec<Vec<i32>> = Vec::new();
    let terminal = create_dfa(b"T", 1, 7, &mut dfa);
    assert_eq!(terminal, 1);
    assert_eq!(dfa.len(), 2);
    assert_eq!(dfa[0][b'T' as usize], 1);
    assert!(dfa[1].iter().all(|&t| t == FAIL));
}

#[test]
fn table_without_gaps_is_a_chain() {
    let mut dfa: Vec<Vec<i32>> = Vec::new();
    let terminal = create_dfa(b"ACGT", 3, 0, &mut dfa);
    assert_eq!(terminal, 3);
    assert_eq!(dfa.len(), 4);
    assert_eq!(dfa[0][b'A' as usize], 1);
    assert_eq!(dfa[1][b'C' as usize], 2);
    assert_eq!(dfa[2][b'G' as usize], 3);
    assert_eq!(dfa[1][b'A' as usize], FAIL);
}

#[test]
fn prepared_data_holds_table_terminal_and_length() {
    let data = init_dfa_gap(b"GAT", 1);
    assert_eq!(data.len(), 3);
    match &data[0] {
        ApproxPatternData::PatternIntVecVec(dfa) => assert_eq!(dfa.len(), 6),
        _ => panic!("the table comes first"),
    }
    match &data[1] {
        ApproxPatternData::PatternUsize(terminal) => assert_eq!(*terminal, 4),
        _ => panic!("the terminal state comes second"),
    }
    match &data[2] {
        ApproxPatternData::PatternUsize(m) => assert_eq!(*m, 3),
        _ => panic!("the length comes third"),
    }
}

#[test]
fn gaps_of_bases_are_passed_over() {
    let data = init_dfa_gap(b"AC", 1);
    assert_eq!(dfa_gap(&data, b"ATCAC"), 2);
    assert_eq!(dfa_gap(&data, b"ATTCAGC"), 1);
    let data = init_dfa_gap(b"ACG", 2);
    assert_eq!(dfa_gap(&data, b"ATTCGATCTTGACG"), 3);
    assert_eq!(dfa_gap(&data, b"ATTTCG"), 0);
}

#[test]
fn gaps_hold_bases_only() {
    let data = init_dfa_gap(b"AC", 1);
    assert_eq!(dfa_gap(&data, b"AXC"), 0);
    assert_eq!(dfa_gap(&data, b"AGC"), 1);
}

#[test]
fn without_gaps_occurrences_are_exact() {
    let data = init_dfa_gap(b"AA", 0);
    assert_eq!(dfa_gap(&data, b"AAAA"), 3);
    let data = init_dfa_gap(b"GATTACA", 0);
    assert_eq!(dfa_gap(&data, b"GATTACA"), 1);
}

#[test]
fn sequence_shorter_than_the_pattern_holds_nothing() {
    let data = init_dfa_gap(b"ACGT", 3);
    assert_eq!(dfa_gap(&data, b"ACG"), 0);
    assert_eq!(dfa_gap(&data, b""), 0);
}

#[test]
fn occurrence_may_end_with_the_sequence() {
    let data = init_dfa_gap(b"ACG", 1);
    assert_eq!(dfa_gap(&data, b"TTACTG"), 1);
    assert_eq!(dfa_gap(&data, b"TTACT"), 0);
}

#[test]
fn scan_agrees_with_search_by_hand_and_with_the_expression() {
    let patterns: Vec<&[u8]> = vec![b"A", b"AC", b"ACG", b"GATTACA", b"TTT", b"CGCG"];
    let sequences: Vec<&[u8]> = vec![
        b"GCATCGCAGAGAGTATACAGTACG",
        b"ACACACACACACA",
        b"TTTTTTTTT",
        b"ACGTACGTACGTACGT",
        b"GATCTACATTTACGCAGCGTTACGCG",
        b"G",
    ];
    for pattern in &patterns {
        for k in 0..4u32 {
            let data = init_dfa_gap(pattern, k);
            let expression = init_regexp(pattern, k);
            for sequence in &sequences {
                let counted = dfa_gap(&data, sequence);
                assert_eq!(counted, count_by_hand(pattern, k as usize, sequence));
                assert_eq!(counted, regexp(&expression, sequence));
            }
        }
    }
}

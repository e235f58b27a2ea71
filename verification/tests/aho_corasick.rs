use string_matching::aho_corasick::{
    aho_corasick, build_failure, build_goto, create_new_state, enter_pattern, init_aho_corasick,
    pattern_alphabet, scan_parts, Automaton, BuildError,
};
use string_matching::run::MultiPatternData;
use string_matching::symbol_set::SymbolSet;
use string_matching::trie::{ASIZE, FAIL};

fn count_by_search(pattern: &[u8], sequence: &[u8]) -> u32 {
    let mut count = 0;
    let mut end = pattern.len();
    while end <= sequence.len() {
        if &sequence[end - pattern.len()..end] == pattern {
            count += 1;
        }
        end += 1;
    }
    count
}

fn elements(set: &SymbolSet) -> Vec<usize> {
    set.iter().copied().collect()
}

#[test]
fn new_state_has_no_transition() {
    let row = create_new_state();
    assert_eq!(row.len(), ASIZE);
    assert!(row.iter().all(|&t| t == FAIL));
}

#[test]
fn overlapping_patterns_in_abab() {
    let patterns: Vec<&[u8]> = vec![b"A", b"AB", b"BAB"];
    let automaton = init_aho_corasick(&patterns);
    assert_eq!(aho_corasick(&automaton, b"ABAB"), vec![2, 2, 1]);
}

#[test]
fn suffix_pattern_is_counted_with_the_longer_one() {
    let patterns: Vec<&[u8]> = vec![b"CA", b"A"];
    let automaton = init_aho_corasick(&patterns);
    assert_eq!(aho_corasick(&automaton, b"ACA"), vec![1, 2]);
}

#[test]
fn overlapping_occurrences_of_one_pattern() {
    let patterns: Vec<&[u8]> = vec![b"AA"];
    let automaton = init_aho_corasick(&patterns);
    assert_eq!(aho_corasick(&automaton, b"AAAA"), vec![3]);
}

#[test]
fn pattern_equal_to_the_sequence_counts_once() {
    let patterns: Vec<&[u8]> = vec![b"GATTACA"];
    let automaton = init_aho_corasick(&patterns);
    assert_eq!(aho_corasick(&automaton, b"GATTACA"), vec![1]);
}

#[test]
fn prefix_and_duplicate_patterns_are_counted_each() {
    let patterns: Vec<&[u8]> = vec![b"ACGT", b"AC", b"ACGT", b"A"];
    let automaton = init_aho_corasick(&patterns);
    assert_eq!(aho_corasick(&automaton, b"ACGTACACGT"), vec![2, 3, 2, 3]);
}

#[test]
fn empty_sequence_has_no_match() {
    let patterns: Vec<&[u8]> = vec![b"A", b"CG"];
    let automaton = init_aho_corasick(&patterns);
    assert_eq!(aho_corasick(&automaton, b""), vec![0, 0]);
}

#[test]
fn no_pattern_gives_no_count() {
    let patterns: Vec<&[u8]> = vec![];
    let automaton = init_aho_corasick(&patterns);
    assert_eq!(aho_corasick(&automaton, b"ACGT"), Vec::<u32>::new());
}

#[test]
fn symbols_outside_the_dna_alphabet_match_too() {
    let patterns: Vec<&[u8]> = vec![b"XA", b"A", &[0xff, 0x00], &[0x00]];
    let automaton = init_aho_corasick(&patterns);
    let sequence: &[u8] = &[b'X', b'A', 0xff, 0x00, b'A', 0x00, 0x80];
    assert_eq!(aho_corasick(&automaton, sequence), vec![1, 2, 1, 2]);
}

#[test]
fn symbols_that_no_pattern_holds_lead_to_the_root() {
    let patterns: Vec<&[u8]> = vec![b"AB"];
    let automaton = init_aho_corasick(&patterns);
    assert_eq!(aho_corasick(&automaton, b"AxBAB"), vec![1]);
}

#[test]
fn scan_agrees_with_search_by_hand() {
    let patterns: Vec<&[u8]> =
        vec![b"A", b"AC", b"ACG", b"CGT", b"GT", b"T", b"TT", b"GATTACA", b"CA", b"ACA"];
    let sequences: Vec<&[u8]> = vec![
        b"ACGTACGTTTGATTACAGATTACA",
        b"TTTTTTTT",
        b"CACACACACA",
        b"GGGGGG",
        b"ACGACGACGTGTGTCGTCGT",
        b"A",
    ];
    let automaton = init_aho_corasick(&patterns);
    for sequence in sequences {
        let counts = aho_corasick(&automaton, sequence);
        assert_eq!(counts.len(), patterns.len());
        for (i, pattern) in patterns.iter().enumerate() {
            assert_eq!(counts[i], count_by_search(pattern, sequence));
        }
    }
}

#[test]
fn scanning_twice_gives_the_same_counts() {
    let patterns: Vec<&[u8]> = vec![b"ACG", b"CG", b"G"];
    let automaton = init_aho_corasick(&patterns);
    let first = aho_corasick(&automaton, b"ACGCGGACG");
    let second = aho_corasick(&automaton, b"ACGCGGACG");
    assert_eq!(first, vec![2, 3, 4]);
    assert_eq!(first, second);
}

#[test]
fn building_twice_gives_the_same_tables() {
    let patterns: Vec<&[u8]> = vec![b"ACG", b"CG", b"G", b"ACT"];
    let first = init_aho_corasick(&patterns);
    let second = init_aho_corasick(&patterns);
    assert_eq!(first.len(), 4);
    assert_eq!(second.len(), 4);
    match (&first[0], &second[0]) {
        (MultiPatternData::PatternCount(a), MultiPatternData::PatternCount(b)) => {
            assert_eq!(*a, 4);
            assert_eq!(a, b);
        }
        _ => panic!("the pattern count comes first"),
    }
    match (&first[1], &second[1]) {
        (MultiPatternData::PatternIntVecVec(a), MultiPatternData::PatternIntVecVec(b)) => {
            assert_eq!(a, b)
        }
        _ => panic!("the transition table comes second"),
    }
    match (&first[2], &second[2]) {
        (MultiPatternData::PatternUsizeVec(a), MultiPatternData::PatternUsizeVec(b)) => {
            assert_eq!(a, b)
        }
        _ => panic!("the failure links come third"),
    }
    match (&first[3], &second[3]) {
        (MultiPatternData::PatternTypeVec(a), MultiPatternData::PatternTypeVec(b)) => {
            assert_eq!(a.len(), b.len());
            for (x, y) in a.iter().zip(b.iter()) {
                assert_eq!(elements(x), elements(y));
            }
        }
        _ => panic!("the outputs come last"),
    }
    assert_eq!(aho_corasick(&first, b"ACGACT"), aho_corasick(&second, b"ACGACT"));
}

#[test]
fn enter_pattern_numbers_new_states_in_order() {
    let mut goto_fn: Vec<Vec<i32>> = vec![create_new_state()];
    let mut output_fn: Vec<SymbolSet> = vec![SymbolSet::new()];
    let mut new_state: usize = 0;

    enter_pattern(&mut new_state, b"AB", 0, &mut goto_fn, &mut output_fn);
    assert_eq!(new_state, 2);
    assert_eq!(goto_fn.len(), 3);
    assert_eq!(goto_fn[0][b'A' as usize], 1);
    assert_eq!(goto_fn[1][b'B' as usize], 2);
    assert_eq!(elements(&output_fn[2]), vec![0]);

    // A pattern that is a prefix of an earlier one ends in an old state.
    enter_pattern(&mut new_state, b"A", 1, &mut goto_fn, &mut output_fn);
    assert_eq!(new_state, 2);
    assert_eq!(goto_fn.len(), 3);
    assert_eq!(elements(&output_fn[1]), vec![1]);

    // So does a pattern that was entered before.
    enter_pattern(&mut new_state, b"AB", 2, &mut goto_fn, &mut output_fn);
    assert_eq!(new_state, 2);
    assert_eq!(elements(&output_fn[2]), vec![0, 2]);

    // A number that the state holds already is not recorded again.
    enter_pattern(&mut new_state, b"AB", 0, &mut goto_fn, &mut output_fn);
    assert_eq!(new_state, 2);
    assert_eq!(goto_fn.len(), 3);
    assert_eq!(elements(&output_fn[2]), vec![0, 2]);

    enter_pattern(&mut new_state, b"AC", 3, &mut goto_fn, &mut output_fn);
    assert_eq!(new_state, 3);
    assert_eq!(goto_fn[1][b'C' as usize], 3);
    assert_eq!(goto_fn[0][b'C' as usize], FAIL);
    assert_eq!(elements(&output_fn[3]), vec![3]);
    assert_eq!(elements(&output_fn[0]), Vec::<usize>::new());
}

#[test]
fn build_goto_makes_the_root_total() {
    let patterns: Vec<&[u8]> = vec![b"AB", b"C"];
    let mut goto_fn: Vec<Vec<i32>> = Vec::new();
    let mut output_fn: Vec<SymbolSet> = Vec::new();
    build_goto(&patterns, &mut goto_fn, &mut output_fn);
    assert_eq!(goto_fn.len(), 4);
    assert_eq!(output_fn.len(), 4);
    for symbol in 0..ASIZE {
        let expected = match symbol as u8 {
            b'A' => 1,
            b'C' => 3,
            _ => 0,
        };
        assert_eq!(goto_fn[0][symbol], expected);
    }
    assert_eq!(goto_fn[1][b'B' as usize], 2);
    assert_eq!(goto_fn[1][b'A' as usize], FAIL);
    assert_eq!(elements(&output_fn[2]), vec![0]);
    assert_eq!(elements(&output_fn[3]), vec![1]);
}

#[test]
fn build_failure_links_to_the_longest_suffix() {
    // States: 1 = A, 2 = AB, 3 = ABC, 4 = B, 5 = BC, 6 = C.
    let patterns: Vec<&[u8]> = vec![b"ABC", b"BC", b"C"];
    let mut goto_fn: Vec<Vec<i32>> = Vec::new();
    let mut output_fn: Vec<SymbolSet> = Vec::new();
    build_goto(&patterns, &mut goto_fn, &mut output_fn);
    let alphabet = pattern_alphabet(&patterns);
    assert_eq!(elements(&alphabet), vec![65, 66, 67]);
    let failure_fn = build_failure(&goto_fn, &mut output_fn, &alphabet);
    assert_eq!(failure_fn, vec![0, 0, 4, 5, 0, 6, 0]);
    assert_eq!(elements(&output_fn[3]), vec![0, 1, 2]);
    assert_eq!(elements(&output_fn[5]), vec![1, 2]);
    assert_eq!(elements(&output_fn[6]), vec![2]);
    assert_eq!(elements(&output_fn[2]), Vec::<usize>::new());
}

#[test]
fn build_refuses_the_first_empty_pattern() {
    let patterns: Vec<&[u8]> = vec![b"AC", b"", b"G", b""];
    assert_eq!(Automaton::build(&patterns).err(), Some(BuildError::EmptyPattern(1)));
    let patterns: Vec<&[u8]> = vec![b""];
    assert_eq!(Automaton::build(&patterns).err(), Some(BuildError::EmptyPattern(0)));
}

#[test]
fn built_automaton_counts_as_the_packed_one_does() {
    let patterns: Vec<&[u8]> = vec![b"A", b"AB", b"BAB"];
    let automaton = match Automaton::build(&patterns) {
        Ok(automaton) => automaton,
        Err(error) => panic!("patterns refused: {:?}", error),
    };
    assert_eq!(automaton.pattern_count(), 3);
    assert_eq!(automaton.state_count(), 6);
    assert_eq!(automaton.scan(b"ABAB"), Some(vec![2, 2, 1]));
    assert_eq!(automaton.scan(b""), Some(vec![0, 0, 0]));
    let counts = automaton.scan(b"ABABBAB");
    let packed = automaton.pack();
    assert_eq!(Some(aho_corasick(&packed, b"ABABBAB")), counts);
    let plain = init_aho_corasick(&patterns);
    assert_eq!(Some(aho_corasick(&plain, b"ABABBAB")), counts);
}

#[test]
fn build_takes_an_empty_list() {
    let patterns: Vec<&[u8]> = vec![];
    let automaton = Automaton::build(&patterns).ok().unwrap();
    assert_eq!(automaton.pattern_count(), 0);
    assert_eq!(automaton.state_count(), 1);
    assert_eq!(automaton.scan(b"ACGT"), Some(Vec::<u32>::new()));
}

#[test]
fn two_builds_scan_alike() {
    let patterns: Vec<&[u8]> = vec![b"GAT", b"AT", b"TTA", b"GATTACA"];
    let first = Automaton::build(&patterns).ok().unwrap();
    let second = Automaton::build(&patterns).ok().unwrap();
    let sequence = b"GATTACAGATTATTAGAT";
    assert_eq!(first.scan(sequence), Some(vec![3, 4, 3, 1]));
    assert_eq!(first.scan(sequence), second.scan(sequence));
    assert_eq!(first.scan(sequence), first.scan(sequence));
}

#[test]
fn build_refuses_more_symbols_than_states_can_be_numbered() {
    let long = vec![b'A'; 1 << 20];
    let patterns: Vec<&[u8]> = vec![&long; 2049];
    assert_eq!(Automaton::build(&patterns).err(), Some(BuildError::TooManySymbols));
    // An empty pattern is reported first.
    let mut patterns: Vec<&[u8]> = vec![&long; 2049];
    patterns.push(b"");
    assert_eq!(Automaton::build(&patterns).err(), Some(BuildError::EmptyPattern(2049)));
}

#[test]
fn scan_over_the_four_tables_counts_as_the_packed_scan_does() {
    let patterns: Vec<&[u8]> = vec![b"A", b"AB", b"BAB"];
    let mut goto_fn: Vec<Vec<i32>> = Vec::new();
    let mut output_fn: Vec<SymbolSet> = Vec::new();
    build_goto(&patterns, &mut goto_fn, &mut output_fn);
    let alphabet = pattern_alphabet(&patterns);
    let failure_fn = build_failure(&goto_fn, &mut output_fn, &alphabet);
    assert_eq!(scan_parts(3, &goto_fn, &failure_fn, &output_fn, b"ABAB"), Some(vec![2, 2, 1]));
    assert_eq!(scan_parts(3, &goto_fn, &failure_fn, &output_fn, b""), Some(vec![0, 0, 0]));
    let packed = init_aho_corasick(&patterns);
    assert_eq!(
        scan_parts(3, &goto_fn, &failure_fn, &output_fn, b"BABABBA"),
        Some(aho_corasick(&packed, b"BABABBA"))
    );
}

use string_matching::regexp::{init_regexp, push_decimal, regexp, report_matches};

#[test]
fn expression_of_a_short_pattern() {
    assert_eq!(init_regexp(b"ACG", 1), b"(?=(A[^C]{0,1}C[^G]{0,1}G))".to_vec());
    assert_eq!(init_regexp(b"A", 3), b"(?=(A))".to_vec());
    assert_eq!(init_regexp(b"TT", 0), b"(?=(T[^T]{0,0}T))".to_vec());
    assert_eq!(init_regexp(b"GA", 4294967295), b"(?=(G[^A]{0,4294967295}A))".to_vec());
}

#[test]
fn expression_keeps_characters_of_several_bytes_whole() {
    let pattern = "aéb€".as_bytes();
    let expected = "(?=(a[^é]{0,12}é[^b]{0,12}b[^€]{0,12}€))".as_bytes().to_vec();
    assert_eq!(init_regexp(pattern, 12), expected);
    let pattern = "éa".as_bytes();
    let expected = "(?=(é[^a]{0,2}a))".as_bytes().to_vec();
    assert_eq!(init_regexp(pattern, 2), expected);
}

#[test]
fn decimal_digits_are_appended() {
    let mut out = b"k=".to_vec();
    push_decimal(&mut out, 0);
    push_decimal(&mut out, 7);
    push_decimal(&mut out, 10);
    push_decimal(&mut out, 4294967295);
    assert_eq!(out, b"k=07104294967295".to_vec());
}

#[test]
fn regexp_counts_exact_matches_without_gaps() {
    let expression = init_regexp(b"AA", 0);
    assert_eq!(regexp(&expression, b"AAAA"), 3);
    let expression = init_regexp(b"ACG", 0);
    assert_eq!(regexp(&expression, b"ACGTACGACG"), 3);
    assert_eq!(regexp(&expression, b""), 0);
}

#[test]
fn regexp_counts_matches_with_gaps() {
    let expression = init_regexp(b"AC", 1);
    assert_eq!(regexp(&expression, b"AXCAC"), 2);
    assert_eq!(regexp(&expression, b"AXXCAGC"), 1);
    let expression = init_regexp(b"ACG", 2);
    assert_eq!(regexp(&expression, b"ATTCGATCTTGACG"), 3);
    assert_eq!(regexp(&expression, b"ATTTCG"), 0);
}

#[test]
fn regexp_reports_an_expression_that_does_not_compile() {
    assert_eq!(regexp(b"(?=(A", b"AAAA"), -1);
    assert_eq!(regexp(&[0x28, 0xff, 0x29], b"AAAA"), -1);
}

#[test]
fn report_is_the_count_where_it_fits() {
    assert_eq!(report_matches(Some(0)), 0);
    assert_eq!(report_matches(Some(17)), 17);
    assert_eq!(report_matches(Some(i32::MAX as usize)), i32::MAX);
    assert_eq!(report_matches(Some(i32::MAX as usize + 1)), -1);
    assert_eq!(report_matches(None), -1);
}

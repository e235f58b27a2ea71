use string_matching::input::{
    parse_u32, read_answers, read_header, read_patterns, read_sequences, split_fields, InputError,
};

fn lines(items: &[&str]) -> Vec<Vec<u8>> {
    items.iter().map(|s| s.as_bytes().to_vec()).collect()
}

#[test]
fn header_numbers_are_read() {
    assert_eq!(read_header(b"3 17\n"), vec![3, 17]);
    assert_eq!(read_header(b"3 17\r\n"), vec![3, 17]);
    assert_eq!(read_header(b"42"), vec![42]);
}

#[test]
fn header_passes_over_what_is_no_number() {
    assert_eq!(read_header(b"3  x 17 -4 +5 4294967296 4294967295 \t\n"), vec![3, 17, 5, 4294967295]);
    assert_eq!(read_header(b""), Vec::<u32>::new());
    assert_eq!(read_header(b" \n"), Vec::<u32>::new());
    assert_eq!(read_header(b"1\t2\n"), Vec::<u32>::new());
}

#[test]
fn numbers_are_parsed_as_decimal() {
    assert_eq!(parse_u32(b"0"), Some(0));
    assert_eq!(parse_u32(b"007"), Some(7));
    assert_eq!(parse_u32(b"+12"), Some(12));
    assert_eq!(parse_u32(b"4294967295"), Some(u32::MAX));
    assert_eq!(parse_u32(b"4294967296"), None);
    assert_eq!(parse_u32(b"99999999999"), None);
    assert_eq!(parse_u32(b""), None);
    assert_eq!(parse_u32(b"+"), None);
    assert_eq!(parse_u32(b"-1"), None);
    assert_eq!(parse_u32(b"1 "), None);
    assert_eq!(parse_u32(b"1+"), None);
    assert_eq!(parse_u32(b"12a"), None);
}

#[test]
fn fields_keep_empty_pieces() {
    assert_eq!(split_fields(b"a,b,,c", b','), lines(&["a", "b", "", "c"]));
    assert_eq!(split_fields(b"", b','), lines(&[""]));
    assert_eq!(split_fields(b",", b','), lines(&["", ""]));
    assert_eq!(split_fields(b"abc", b','), lines(&["abc"]));
}

#[test]
fn sequences_are_the_lines_after_the_header() {
    assert_eq!(read_sequences(b"2 4\nACGT\nTTGA\n"), Ok(lines(&["ACGT", "TTGA"])));
    assert_eq!(read_sequences(b"2 4\nACGT\nTTGA"), Ok(lines(&["ACGT", "TTGA"])));
    assert_eq!(read_sequences(b"2 4\r\nACGT\r\nTTGA\r\n"), Ok(lines(&["ACGT", "TTGA"])));
    assert_eq!(read_sequences(b"3 4\nACGT\n\nTTGA\n"), Ok(lines(&["ACGT", "", "TTGA"])));
    assert_eq!(read_sequences(b"1 0\n\n"), Ok(lines(&[""])));
    assert_eq!(read_sequences(b"0 0\n"), Ok(lines(&[])));
    assert_eq!(read_sequences(b"0"), Ok(lines(&[])));
}

#[test]
fn sequences_must_be_as_many_as_the_header_says() {
    assert_eq!(read_sequences(b"3 4\nACGT\nTTGA\n"), Err(InputError::LineCount));
    assert_eq!(read_sequences(b"1 4\nACGT\nTTGA\n"), Err(InputError::LineCount));
    assert_eq!(read_sequences(b"1 4\nACGT\n\n"), Err(InputError::LineCount));
}

#[test]
fn sequences_need_a_count_in_the_header() {
    assert_eq!(read_sequences(b""), Err(InputError::MissingHeader));
    assert_eq!(read_sequences(b"ACGT\nTTGA\n"), Err(InputError::MissingHeader));
}

#[test]
fn patterns_are_read_as_sequences_are() {
    assert_eq!(read_patterns(b"2 3\nACG\nTT\n"), Ok(lines(&["ACG", "TT"])));
    assert_eq!(read_patterns(b"2 3\nACG\n"), Err(InputError::LineCount));
    assert_eq!(read_patterns(b"\nACG\n"), Err(InputError::MissingHeader));
}

#[test]
fn answers_are_rows_of_numbers() {
    assert_eq!(read_answers(b"2 3\n1,0,2\n0,0,7\n"), Ok(vec![vec![1, 0, 2], vec![0, 0, 7]]));
    assert_eq!(read_answers(b"1 1\r\n5\r\n"), Ok(vec![vec![5]]));
    assert_eq!(read_answers(b"0 3\n"), Ok(Vec::<Vec<u32>>::new()));
}

#[test]
fn answers_need_both_header_numbers() {
    assert_eq!(read_answers(b"2\n1,0\n0,0\n"), Err(InputError::MissingHeader));
    assert_eq!(read_answers(b""), Err(InputError::MissingHeader));
}

#[test]
fn answers_must_be_as_many_lines_as_the_header_says() {
    assert_eq!(read_answers(b"3 2\n1,0\n0,0\n"), Err(InputError::LineCount));
}

#[test]
fn answers_report_the_first_line_that_is_wrong() {
    assert_eq!(read_answers(b"3 2\n1,0\n0,x\n1\n"), Err(InputError::Parse(1)));
    assert_eq!(read_answers(b"3 2\n1,0\n0\n1,x\n"), Err(InputError::AnswerCount(1)));
    assert_eq!(read_answers(b"2 2\n1,0,x\n0,0\n"), Err(InputError::Parse(0)));
    assert_eq!(read_answers(b"2 2\n1,0,\n0,0\n"), Err(InputError::Parse(0)));
    assert_eq!(read_answers(b"2 2\n1, 0\n0,0\n"), Err(InputError::Parse(0)));
    assert_eq!(read_answers(b"1 2\n\n"), Err(InputError::Parse(0)));
    assert_eq!(read_answers(b"2 2\n1,0\n0,0,0\n"), Err(InputError::AnswerCount(1)));
}

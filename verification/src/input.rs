//! The format of the data files: a header line of numbers, then one line
//! for each sequence, pattern or row of expected counts.

use vstd::prelude::*;

verus! {

/// Why the contents of a data file were not accepted.
#[derive(Debug, PartialEq, Eq)]
pub enum InputError {
    /// The header line lacks a number that the file needs.
    MissingHeader,
    /// The file does not have as many data lines as its header says.
    LineCount,
    /// A value on the data line with this index, counted from 0, is no
    /// number.
    Parse(usize),
    /// The data line with this index, counted from 0, does not have as
    /// many values as the header says.
    AnswerCount(usize),
}

/// The symbol that ends a line.
pub const NEWLINE: u8 = 0x0a;

/// The symbol that may stand before the end of a line.
pub const CARRIAGE_RETURN: u8 = 0x0d;

/// ASCII white space: the space and the control characters from tab to
/// carriage return.
pub open spec fn is_space(b: u8) -> bool {
    b == 0x20 || (0x09 <= b && b <= 0x0d)
}

/// `line` without the white space at its end.
pub open spec fn trim_end(line: Seq<u8>) -> Seq<u8>
    decreases line.len(),
{
    if line.len() > 0 && is_space(line.last()) {
        trim_end(line.drop_last())
    } else {
        line
    }
}

/// The pieces of `text` between the occurrences of `sep`: one more than
/// there are occurrences, empty pieces included.
pub open spec fn fields(text: Seq<u8>, sep: u8) -> Seq<Seq<u8>>
    decreases text.len(),
{
    if text.len() == 0 {
        seq![Seq::<u8>::empty()]
    } else {
        let front = fields(text.drop_last(), sep);
        if text.last() == sep {
            front.push(Seq::<u8>::empty())
        } else {
            front.drop_last().push(front.last().push(text.last()))
        }
    }
}

/// The number that a sequence of decimal digits writes.
pub open spec fn digits_value(digits: Seq<u8>) -> nat
    decreases digits.len(),
{
    if digits.len() == 0 {
        0
    } else {
        digits_value(digits.drop_last()) * 10 + (digits.last() - 0x30) as nat
    }
}

/// `digits` holds decimal digits only, and at least one.
pub open spec fn is_digits(digits: Seq<u8>) -> bool {
    digits.len() > 0 && forall|i: int| 0 <= i < digits.len() ==> 0x30 <= #[trigger] digits[i] <= 0x39
}

/// The number that `token` writes: decimal digits, after a plus sign or
/// without one, whose value fits 32 bits. Anything else writes no number.
pub open spec fn parsed_u32(token: Seq<u8>) -> Option<u32> {
    let digits = if token.len() > 0 && token[0] == 0x2b {
        token.skip(1)
    } else {
        token
    };
    if is_digits(digits) && digits_value(digits) <= u32::MAX {
        Some(digits_value(digits) as u32)
    } else {
        None
    }
}

/// The numbers that the tokens write, without the tokens that write none.
pub open spec fn parsed_numbers(tokens: Seq<Seq<u8>>) -> Seq<u32>
    decreases tokens.len(),
{
    if tokens.len() == 0 {
        Seq::<u32>::empty()
    } else {
        let front = parsed_numbers(tokens.drop_last());
        match parsed_u32(tokens.last()) {
            Some(value) => front.push(value),
            None => front,
        }
    }
}

/// The numbers on a header line: what is written between single spaces,
/// where it is a number.
pub open spec fn header_numbers(line: Seq<u8>) -> Seq<u32> {
    parsed_numbers(fields(trim_end(line), 0x20))
}

/// The contents of each vector.
pub open spec fn views<T>(rows: Seq<Vec<T>>) -> Seq<Seq<T>> {
    Seq::new(rows.len(), |i: int| rows[i]@)
}

/// `line` without a carriage return at its end.
pub open spec fn strip_cr(line: Seq<u8>) -> Seq<u8> {
    if line.len() > 0 && line.last() == CARRIAGE_RETURN {
        line.drop_last()
    } else {
        line
    }
}

/// The first line of a file, without the newline.
pub open spec fn header_line(content: Seq<u8>) -> Seq<u8> {
    fields(content, NEWLINE)[0]
}

/// The lines of a file after the first, each without its newline and
/// without a carriage return before it. A newline at the end of the file
/// starts no further line.
pub open spec fn data_lines(content: Seq<u8>) -> Seq<Seq<u8>> {
    let rest = fields(content, NEWLINE).skip(1);
    let kept = if rest.len() > 0 && rest.last().len() == 0 {
        rest.drop_last()
    } else {
        rest
    };
    Seq::new(kept.len(), |i: int| strip_cr(kept[i]))
}

/// What a file of sequences or patterns holds: its data lines, if the
/// first number of the header is their number.
pub open spec fn sequences_of(content: Seq<u8>) -> Result<Seq<Seq<u8>>, InputError> {
    let header = header_numbers(header_line(content));
    if header.len() < 1 {
        Err(InputError::MissingHeader)
    } else if data_lines(content).len() != header[0] {
        Err(InputError::LineCount)
    } else {
        Ok(data_lines(content))
    }
}

/// There is always a first field.
pub proof fn lemma_fields_len(text: Seq<u8>, sep: u8)
    ensures
        1 <= fields(text, sep).len() <= text.len() + 1,
    decreases text.len(),
{
    if text.len() > 0 {
        lemma_fields_len(text.drop_last(), sep);
    }
}

/// More digits do not write a smaller number.
pub proof fn lemma_digits_value_grows(digits: Seq<u8>, n: int)
    requires
        0 <= n <= digits.len(),
        forall|i: int| 0 <= i < digits.len() ==> 0x30 <= #[trigger] digits[i] <= 0x39,
    ensures
        digits_value(digits.take(n)) <= digits_value(digits),
    decreases digits.len() - n,
{
    if n == digits.len() {
        assert(digits.take(n) =~= digits);
    } else {
        lemma_digits_value_grows(digits, n + 1);
        assert(digits.take(n + 1).drop_last() =~= digits.take(n));
    }
}

/// Splits `text` at every occurrence of `sep`.
pub fn split_fields(text: &[u8], sep: u8) -> (tokens: Vec<Vec<u8>>)
    ensures
        views(tokens@) == fields(text@, sep),
{
    let mut tokens: Vec<Vec<u8>> = Vec::new();
    let mut current: Vec<u8> = Vec::new();
    let mut i: usize = 0;
    while i < text.len()
        invariant
            i <= text@.len(),
            views(tokens@).push(current@) == fields(text@.take(i as int), sep),
        decreases text@.len() - i,
    {
        let ghost front = fields(text@.take(i as int), sep);
        proof {
            assert(text@.take(i + 1).drop_last() =~= text@.take(i as int));
            assert(front.last() == current@);
            assert(front.drop_last() =~= views(tokens@));
        }
        if text[i] == sep {
            tokens.push(current);
            current = Vec::new();
            proof {
                assert(views(tokens@) =~= front);
            }
        } else {
            current.push(text[i]);
        }
        i += 1;
    }
    let ghost before = views(tokens@);
    tokens.push(current);
    proof {
        assert(text@.take(i as int) =~= text@);
        assert(views(tokens@) =~= before.push(current@));
    }
    tokens
}

/// Reads `token` as a decimal number of 32 bits.
pub fn parse_u32(token: &[u8]) -> (value: Option<u32>)
    ensures
        value == parsed_u32(token@),
{
    let start: usize = if token.len() > 0 && token[0] == 0x2b {
        1
    } else {
        0
    };
    let ghost digits = if token@.len() > 0 && token@[0] == 0x2b {
        token@.skip(1)
    } else {
        token@
    };
    proof {
        assert(digits =~= token@.skip(start as int));
    }
    if start == token.len() {
        return None;
    }
    let mut value: u32 = 0;
    let mut i: usize = start;
    while i < token.len()
        invariant
            start <= i <= token@.len(),
            start < token@.len(),
            digits == token@.skip(start as int),
            digits == if token@.len() > 0 && token@[0] == 0x2b {
                token@.skip(1)
            } else {
                token@
            },
            forall|k: int| 0 <= k < i - start ==> 0x30 <= #[trigger] digits[k] <= 0x39,
            value == digits_value(digits.take(i - start)),
        decreases token@.len() - i,
    {
        let b = token[i];
        assert(digits[i - start] == b);
        if b < 0x30 || b > 0x39 {
            return None;
        }
        let digit = (b - 0x30) as u32;
        proof {
            assert(digits.take(i - start + 1).drop_last() =~= digits.take(i - start));
            assert(digits.take(i - start + 1).last() == b);
        }
        if value > (u32::MAX - digit) / 10 {
            proof {
                assert(digits_value(digits.take(i - start + 1)) > u32::MAX);
                if is_digits(digits) {
                    lemma_digits_value_grows(digits, i - start + 1);
                }
            }
            return None;
        }
        value = value * 10 + digit;
        i += 1;
    }
    proof {
        assert(digits.take(i - start) =~= digits);
    }
    Some(value)
}

/// The length of `line` without the white space at its end.
fn trimmed_len(line: &[u8]) -> (n: usize)
    ensures
        n <= line@.len(),
        line@.take(n as int) == trim_end(line@),
{
    let mut n = line.len();
    proof {
        assert(line@.take(n as int) =~= line@);
    }
    while n > 0 && (line[n - 1] == 0x20 || (0x09 <= line[n - 1] && line[n - 1] <= 0x0d))
        invariant
            n <= line@.len(),
            trim_end(line@.take(n as int)) == trim_end(line@),
        decreases n,
    {
        proof {
            assert(line@.take(n as int).drop_last() =~= line@.take(n - 1));
        }
        n -= 1;
    }
    n
}

/// Reads the numbers of a header line. What stands between two spaces and
/// is no number is passed over.
pub fn read_header(line: &[u8]) -> (ints: Vec<u32>)
    ensures
        ints@ == header_numbers(line@),
{
    let n = trimmed_len(line);
    let mut trimmed: Vec<u8> = Vec::new();
    let mut k: usize = 0;
    while k < n
        invariant
            k <= n <= line@.len(),
            trimmed@ == line@.take(k as int),
        decreases n - k,
    {
        trimmed.push(line[k]);
        proof {
            assert(line@.take(k + 1) =~= line@.take(k as int).push(line@[k as int]));
        }
        k += 1;
    }
    let tokens = split_fields(trimmed.as_slice(), 0x20);
    let mut ints: Vec<u32> = Vec::new();
    let mut i: usize = 0;
    while i < tokens.len()
        invariant
            i <= tokens@.len(),
            ints@ == parsed_numbers(views(tokens@).take(i as int)),
        decreases tokens@.len() - i,
    {
        proof {
            assert(views(tokens@).take(i + 1).drop_last() =~= views(tokens@).take(i as int));
            assert(views(tokens@).take(i + 1).last() == tokens@[i as int]@);
        }
        match parse_u32(tokens[i].as_slice()) {
            Some(value) => {
                ints.push(value);
            },
            None => {},
        }
        i += 1;
    }
    proof {
        assert(views(tokens@).take(i as int) =~= views(tokens@));
    }
    ints
}

/// The data lines of a file whose lines `parts` are.
fn lines_after_header(parts: &Vec<Vec<u8>>) -> (lines: Vec<Vec<u8>>)
    requires
        parts@.len() >= 1,
    ensures
        views(lines@) == {
            let rest = views(parts@).skip(1);
            let kept = if rest.len() > 0 && rest.last().len() == 0 {
                rest.drop_last()
            } else {
                rest
            };
            Seq::new(kept.len(), |i: int| strip_cr(kept[i]))
        },
{
    let ghost rest = views(parts@).skip(1);
    let mut end = parts.len();
    if end > 1 && parts[end - 1].len() == 0 {
        end -= 1;
    }
    let ghost kept = if rest.len() > 0 && rest.last().len() == 0 {
        rest.drop_last()
    } else {
        rest
    };
    assert(kept =~= views(parts@).subrange(1, end as int));
    let mut lines: Vec<Vec<u8>> = Vec::new();
    let mut i: usize = 1;
    while i < end
        invariant
            1 <= i <= end <= parts@.len(),
            kept == views(parts@).subrange(1, end as int),
            views(lines@) == Seq::new((i - 1) as nat, |k: int| strip_cr(kept[k])),
        decreases end - i,
    {
        let part = &parts[i];
        let mut n = part.len();
        if n > 0 && part[n - 1] == CARRIAGE_RETURN {
            n -= 1;
        }
        let mut line: Vec<u8> = Vec::new();
        let mut k: usize = 0;
        while k < n
            invariant
                k <= n <= part@.len(),
                line@ == part@.take(k as int),
            decreases n - k,
        {
            line.push(part[k]);
            proof {
                assert(part@.take(k + 1) =~= part@.take(k as int).push(part@[k as int]));
            }
            k += 1;
        }
        let ghost before = views(lines@);
        proof {
            assert(kept[i - 1] == part@);
            assert(line@ =~= strip_cr(part@));
        }
        lines.push(line);
        proof {
            assert(views(lines@) =~= before.push(line@));
            assert(views(lines@) =~= Seq::new(i as nat, |k: int| strip_cr(kept[k])));
        }
        i += 1;
    }
    lines
}

/// Reads the contents of a file of sequences: the header line, whose
/// first number says how many lines follow, and those lines.
pub fn read_sequences(content: &[u8]) -> (sequences: Result<Vec<Vec<u8>>, InputError>)
    ensures
        match sequences {
            Ok(lines) => sequences_of(content@) == Ok::<Seq<Seq<u8>>, InputError>(views(lines@)),
            Err(error) => sequences_of(content@) == Err::<Seq<Seq<u8>>, InputError>(error),
        },
{
    let parts = split_fields(content, NEWLINE);
    proof {
        lemma_fields_len(content@, NEWLINE);
        assert(views(parts@)[0] == parts@[0]@);
    }
    let ints = read_header(parts[0].as_slice());
    if ints.len() < 1 {
        return Err(InputError::MissingHeader);
    }
    let sequences_count: u32 = ints[0];
    let sequences = lines_after_header(&parts);
    if sequences.len() != sequences_count as usize {
        return Err(InputError::LineCount);
    }
    Ok(sequences)
}

/// Reads the contents of a file of patterns, which is laid out as a file
/// of sequences is.
pub fn read_patterns(content: &[u8]) -> (patterns: Result<Vec<Vec<u8>>, InputError>)
    ensures
        match patterns {
            Ok(lines) => sequences_of(content@) == Ok::<Seq<Seq<u8>>, InputError>(views(lines@)),
            Err(error) => sequences_of(content@) == Err::<Seq<Seq<u8>>, InputError>(error),
        },
{
    read_sequences(content)
}

/// The numbers that the tokens write, if every token writes one.
pub open spec fn all_numbers(tokens: Seq<Seq<u8>>) -> Option<Seq<u32>>
    decreases tokens.len(),
{
    if tokens.len() == 0 {
        Some(Seq::<u32>::empty())
    } else {
        match (all_numbers(tokens.drop_last()), parsed_u32(tokens.last())) {
            (Some(front), Some(value)) => Some(front.push(value)),
            _ => None,
        }
    }
}

/// The expected counts on one line: the numbers between its commas, if
/// there is a number between every two and there are `ans_count` of them.
/// `row` is the index of the line among the data lines.
pub open spec fn answer_row(line: Seq<u8>, row: usize, ans_count: u32) -> Result<
    Seq<u32>,
    InputError,
> {
    match all_numbers(fields(line, 0x2c)) {
        None => Err(InputError::Parse(row)),
        Some(values) => if values.len() != ans_count {
            Err(InputError::AnswerCount(row))
        } else {
            Ok(values)
        },
    }
}

/// The expected counts on all lines, or what is wrong with the first line
/// that is not in order.
pub open spec fn answer_rows(lines: Seq<Seq<u8>>, ans_count: u32) -> Result<
    Seq<Seq<u32>>,
    InputError,
>
    decreases lines.len(),
{
    if lines.len() == 0 {
        Ok(Seq::<Seq<u32>>::empty())
    } else {
        match answer_rows(lines.drop_last(), ans_count) {
            Err(error) => Err(error),
            Ok(rows) => match answer_row(lines.last(), (lines.len() - 1) as usize, ans_count) {
                Err(error) => Err(error),
                Ok(values) => Ok(rows.push(values)),
            },
        }
    }
}

/// What a file of expected counts holds: one row of numbers for each data
/// line, if the header says how many lines and how many numbers on each
/// there are, and the lines are so.
pub open spec fn answers_of(content: Seq<u8>) -> Result<Seq<Seq<u32>>, InputError> {
    let header = header_numbers(header_line(content));
    if header.len() < 2 {
        Err(InputError::MissingHeader)
    } else if data_lines(content).len() != header[0] {
        Err(InputError::LineCount)
    } else {
        answer_rows(data_lines(content), header[1])
    }
}

/// What is wrong with one of the first lines is wrong with the file.
pub proof fn lemma_answer_rows_error(lines: Seq<Seq<u8>>, ans_count: u32, n: int)
    requires
        0 <= n <= lines.len(),
        answer_rows(lines.take(n), ans_count) is Err,
    ensures
        answer_rows(lines, ans_count) == answer_rows(lines.take(n), ans_count),
    decreases lines.len() - n,
{
    if n == lines.len() {
        assert(lines.take(n) =~= lines);
    } else {
        assert(lines.take(n + 1).drop_last() =~= lines.take(n));
        lemma_answer_rows_error(lines, ans_count, n + 1);
    }
}

/// Reads the numbers between the commas of `line`.
fn parse_row(line: &[u8]) -> (values: Option<Vec<u32>>)
    ensures
        match values {
            Some(row) => all_numbers(fields(line@, 0x2c)) == Some(row@),
            None => all_numbers(fields(line@, 0x2c)) is None,
        },
{
    let tokens = split_fields(line, 0x2c);
    let mut values: Vec<u32> = Vec::new();
    let mut failed = false;
    let mut i: usize = 0;
    while i < tokens.len()
        invariant
            i <= tokens@.len(),
            failed ==> all_numbers(views(tokens@).take(i as int)) is None,
            !failed ==> all_numbers(views(tokens@).take(i as int)) == Some(values@),
        decreases tokens@.len() - i,
    {
        proof {
            assert(views(tokens@).take(i + 1).drop_last() =~= views(tokens@).take(i as int));
            assert(views(tokens@).take(i + 1).last() == tokens@[i as int]@);
        }
        match parse_u32(tokens[i].as_slice()) {
            Some(value) => {
                if !failed {
                    values.push(value);
                }
            },
            None => {
                failed = true;
            },
        }
        i += 1;
    }
    proof {
        assert(views(tokens@).take(i as int) =~= views(tokens@));
    }
    if failed {
        None
    } else {
        Some(values)
    }
}

/// Reads the contents of a file of expected counts: the header line,
/// whose numbers say how many lines follow and how many values stand on
/// each, and those lines, the values on each divided by commas.
pub fn read_answers(content: &[u8]) -> (answers: Result<Vec<Vec<u32>>, InputError>)
    ensures
        match answers {
            Ok(rows) => answers_of(content@) == Ok::<Seq<Seq<u32>>, InputError>(views(rows@)),
            Err(error) => answers_of(content@) == Err::<Seq<Seq<u32>>, InputError>(error),
        },
{
    let parts = split_fields(content, NEWLINE);
    proof {
        lemma_fields_len(content@, NEWLINE);
        assert(views(parts@)[0] == parts@[0]@);
    }
    let ints = read_header(parts[0].as_slice());
    if ints.len() < 2 {
        return Err(InputError::MissingHeader);
    }
    let lines_count: u32 = ints[0];
    let ans_count: u32 = ints[1];
    let strings = lines_after_header(&parts);
    if strings.len() != lines_count as usize {
        return Err(InputError::LineCount);
    }
    let mut answers: Vec<Vec<u32>> = Vec::new();
    let mut i: usize = 0;
    proof {
        assert(views(answers@) =~= Seq::<Seq<u32>>::empty());
    }
    while i < strings.len()
        invariant
            i <= strings@.len(),
            answers_of(content@) == answer_rows(views(strings@), ans_count),
            answer_rows(views(strings@).take(i as int), ans_count) == Ok::<
                Seq<Seq<u32>>,
                InputError,
            >(views(answers@)),
        decreases strings@.len() - i,
    {
        proof {
            assert(views(strings@).take(i + 1).drop_last() =~= views(strings@).take(i as int));
            assert(views(strings@).take(i + 1).last() == strings@[i as int]@);
        }
        match parse_row(strings[i].as_slice()) {
            None => {
                proof {
                    lemma_answer_rows_error(views(strings@), ans_count, i + 1);
                }
                return Err(InputError::Parse(i));
            },
            Some(line) => {
                if line.len() != ans_count as usize {
                    proof {
                        lemma_answer_rows_error(views(strings@), ans_count, i + 1);
                    }
                    return Err(InputError::AnswerCount(i));
                }
                let ghost before = views(answers@);
                answers.push(line);
                proof {
                    assert(views(answers@) =~= before.push(line@));
                }
            },
        }
        i += 1;
    }
    proof {
        assert(views(strings@).take(i as int) =~= views(strings@));
    }
    Ok(answers)
}

} // verus!

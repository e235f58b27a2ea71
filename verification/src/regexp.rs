//! Matching one pattern with gaps by a regular expression of PCRE2.

use vstd::prelude::*;

verus! {

/// A byte that goes on a character of several bytes.
pub open spec fn is_continuation(b: u8) -> bool {
    0x80 <= b < 0xc0
}

/// The index behind the character that begins at `start`: that of the
/// next byte that goes on no character, or the length of the pattern.
pub open spec fn char_end(pattern: Seq<u8>, start: int) -> int
    decreases pattern.len() - start,
{
    if start + 1 < pattern.len() && is_continuation(pattern[start + 1]) {
        char_end(pattern, start + 1)
    } else {
        start + 1
    }
}

/// The decimal digits of `n`.
pub open spec fn decimal(n: nat) -> Seq<u8>
    decreases n,
{
    if n < 10 {
        seq![(0x30 + n) as u8]
    } else {
        decimal(n / 10).push((0x30 + n % 10) as u8)
    }
}

/// What the expression holds for one character `ch` of the pattern after
/// the first: up to `k` characters other than `ch`, then `ch`.
pub open spec fn gap_then(ch: Seq<u8>, k: nat) -> Seq<u8> {
    seq![0x5bu8, 0x5e] + ch + seq![0x5du8, 0x7b, 0x30, 0x2c] + decimal(k) + seq![0x7du8] + ch
}

/// What the expression holds for the character that begins at index
/// `i`, and nothing where no character begins there.
pub open spec fn piece_at(pattern: Seq<u8>, k: nat, i: int) -> Seq<u8> {
    let ch = pattern.subrange(i, char_end(pattern, i));
    if i == 0 {
        ch
    } else if is_continuation(pattern[i]) {
        Seq::<u8>::empty()
    } else {
        gap_then(ch, k)
    }
}

/// What the expression holds for the characters of the pattern that begin
/// at index `start` or later.
pub open spec fn expression_from(pattern: Seq<u8>, k: nat, start: int) -> Seq<u8>
    decreases pattern.len() - start,
{
    if 0 <= start < pattern.len() {
        piece_at(pattern, k, start) + expression_from(pattern, k, start + 1)
    } else {
        Seq::<u8>::empty()
    }
}

/// The expression for `pattern` with gaps of up to `k` characters: a
/// lookahead, so that matches may overlap, that holds the first character
/// and then, for every further character, a gap and the character.
pub open spec fn gap_expression(pattern: Seq<u8>, k: nat) -> Seq<u8> {
    seq![0x28u8, 0x3f, 0x3d, 0x28] + expression_from(pattern, k, 0) + seq![0x29u8, 0x29]
}

/// The number of matches that PCRE2 finds for the expression `source` in
/// `subject`, one after another from the left. There is none where
/// `source` is no valid text, where it does not compile, and where the
/// matching ends in an error.
pub uninterp spec fn captures_count(source: Seq<u8>, subject: Seq<u8>) -> Option<usize>;

/// The bytes that go on a character add nothing of their own.
pub proof fn lemma_skip_continuations(pattern: Seq<u8>, k: nat, from: int, end: int)
    requires
        0 < from <= end <= pattern.len(),
        forall|j: int| from <= j < end ==> is_continuation(#[trigger] pattern[j]),
    ensures
        expression_from(pattern, k, from) == expression_from(pattern, k, end),
    decreases end - from,
{
    if from < end {
        lemma_skip_continuations(pattern, k, from + 1, end);
        assert(piece_at(pattern, k, from) + expression_from(pattern, k, from + 1)
            =~= expression_from(pattern, k, from + 1));
    }
}

/// Appends the decimal digits of `n` to `out`.
pub fn push_decimal(out: &mut Vec<u8>, n: u32)
    ensures
        final(out)@ == old(out)@ + decimal(n as nat),
    decreases n,
{
    if n >= 10 {
        push_decimal(out, n / 10);
    }
    let digit = (n % 10) as u8;
    out.push(0x30 + digit);
    proof {
        assert(out@ =~= old(out)@ + decimal(n as nat));
    }
}

/// Appends the bytes of `pattern` from `start` up to `end` to `out`.
fn push_range(out: &mut Vec<u8>, pattern: &[u8], start: usize, end: usize)
    requires
        start <= end <= pattern@.len(),
    ensures
        final(out)@ == old(out)@ + pattern@.subrange(start as int, end as int),
{
    let mut i = start;
    proof {
        assert(out@ =~= old(out)@ + pattern@.subrange(start as int, i as int));
    }
    while i < end
        invariant
            start <= i <= end <= pattern@.len(),
            out@ == old(out)@ + pattern@.subrange(start as int, i as int),
        decreases end - i,
    {
        out.push(pattern[i]);
        proof {
            assert(out@ =~= old(out)@ + pattern@.subrange(start as int, i + 1));
        }
        i += 1;
    }
}

/// Builds the expression for `pattern` with gaps of up to `k` characters.
pub fn init_regexp(pattern: &[u8], k: u32) -> (built_re: Vec<u8>)
    requires
        pattern@.len() > 0,
    ensures
        built_re@ == gap_expression(pattern@, k as nat),
{
    let m = pattern.len();
    let mut built_re: Vec<u8> = Vec::new();
    built_re.push(0x28);
    built_re.push(0x3f);
    built_re.push(0x3d);
    built_re.push(0x28);
    let ghost head = built_re@;
    proof {
        assert(head =~= seq![0x28u8, 0x3f, 0x3d, 0x28]);
    }

    let mut start: usize = 0;
    while start < m
        invariant
            start <= m == pattern@.len(),
            start > 0 && start < m ==> !is_continuation(pattern@[start as int]),
            head == seq![0x28u8, 0x3f, 0x3d, 0x28],
            built_re@ + expression_from(pattern@, k as nat, start as int) == head
                + expression_from(pattern@, k as nat, 0),
        decreases m - start,
    {
        let ghost before = built_re@;
        let mut end = start + 1;
        while end < m && 0x80 <= pattern[end] && pattern[end] < 0xc0
            invariant
                start < end <= m == pattern@.len(),
                char_end(pattern@, start as int) == char_end(pattern@, end - 1),
                forall|j: int| start < j < end ==> is_continuation(#[trigger] pattern@[j]),
            decreases m - end,
        {
            end += 1;
        }
        let ghost ch = pattern@.subrange(start as int, end as int);
        proof {
            assert(char_end(pattern@, start as int) == end);
            assert(start > 0 ==> !is_continuation(pattern@[start as int]));
            lemma_skip_continuations(pattern@, k as nat, start + 1, end as int);
        }
        if start > 0 {
            built_re.push(0x5b);
            built_re.push(0x5e);
            push_range(&mut built_re, pattern, start, end);
            built_re.push(0x5d);
            built_re.push(0x7b);
            built_re.push(0x30);
            built_re.push(0x2c);
            push_decimal(&mut built_re, k);
            built_re.push(0x7d);
            push_range(&mut built_re, pattern, start, end);
            proof {
                assert(built_re@ =~= before + gap_then(ch, k as nat));
            }
        } else {
            push_range(&mut built_re, pattern, start, end);
        }
        proof {
            let rest = expression_from(pattern@, k as nat, end as int);
            let piece = if start == 0 {
                ch
            } else {
                gap_then(ch, k as nat)
            };
            assert(built_re@ =~= before + piece);
            assert(piece == piece_at(pattern@, k as nat, start as int));
            assert(expression_from(pattern@, k as nat, start as int) == piece + rest);
            assert(built_re@ + rest =~= before + (piece + rest));
        }
        start = end;
    }
    let ghost body = built_re@;
    built_re.push(0x29);
    built_re.push(0x29);
    proof {
        assert(expression_from(pattern@, k as nat, m as int) =~= Seq::<u8>::empty());
        assert(body =~= head + expression_from(pattern@, k as nat, 0));
        assert(built_re@ =~= gap_expression(pattern@, k as nat));
    }
    built_re
}

/// Reads `source` as text with `std::str::from_utf8`, compiles it with
/// `pcre2::bytes::Regex::new` and counts what `Regex::captures_iter` finds
/// in `subject`. Trusted, not proved: that the count is the same whenever
/// the expression and the subject are, and that there is none where the
/// expression is no valid text or does not compile, or where a step of the
/// matching returns an error.
#[verifier::external_body]
fn count_captures(source: &[u8], subject: &[u8]) -> (count: Option<usize>)
    ensures
        count == captures_count(source@, subject@),
{
    let text = std::str::from_utf8(source).ok()?;
    let regex = pcre2::bytes::Regex::new(text).ok()?;
    let found: Result<Vec<pcre2::bytes::Captures>, pcre2::Error> =
        regex.captures_iter(subject).collect();
    found.ok().map(|all| all.len())
}

/// What a scan reports for a count of matches: the count, or -1 where
/// there is none or it does not fit.
pub open spec fn match_result(count: Option<usize>) -> i32 {
    match count {
        Some(n) => if n <= i32::MAX {
            n as i32
        } else {
            -1i32
        },
        None => -1i32,
    }
}

/// Turns a count of matches into what a scan reports.
pub fn report_matches(count: Option<usize>) -> (matches: i32)
    ensures
        matches == match_result(count),
{
    match count {
        Some(n) => {
            if n <= i32::MAX as usize {
                n as i32
            } else {
                -1
            }
        },
        None => -1,
    }
}

/// Counts the matches of the expression `built_re` in `sequence`.
pub fn regexp(built_re: &[u8], sequence: &[u8]) -> (matches: i32)
    ensures
        matches == match_result(captures_count(built_re@, sequence@)),
{
    report_matches(count_captures(built_re, sequence))
}

} // verus!

//! Matching one pattern by the method of Knuth, Morris and Pratt: a table
//! says how far the pattern may be moved on after a mismatch.

use crate::occurrence::{
    count_occurrences, is_suffix, lemma_count_in_empty_text, lemma_count_push, lemma_suffix_push,
    lemma_suffix_transitive, lemma_suffixes_nest,
};
use crate::run::PatternData;
use vstd::prelude::*;

verus! {

/// The first `b` symbols of the pattern are also the last `b` of its first
/// `i` symbols, and `b` is less than `i`.
pub open spec fn is_border(pat: Seq<u8>, i: int, b: int) -> bool {
    0 <= b < i <= pat.len() && is_suffix(pat.take(b), pat.take(i))
}

/// `v` is the entry of the table for `i` matched symbols. Below the length
/// of the pattern it is the longest border of the first `i` symbols that is
/// followed by another symbol than they are; at the length of the pattern
/// it is the longest border of the pattern. Where there is none it is -1.
pub open spec fn is_next_entry(pat: Seq<u8>, i: int, v: int) -> bool {
    if i < pat.len() {
        &&& -1 <= v < pat.len()
        &&& (v >= 0 ==> is_border(pat, i, v) && pat[v] != pat[i])
        &&& forall|b: int| #[trigger] is_border(pat, i, b) && pat[b] != pat[i] ==> b <= v
    } else {
        &&& -1 <= v < pat.len()
        &&& (v >= 0 ==> is_border(pat, i, v))
        &&& forall|b: int| #[trigger] is_border(pat, i, b) ==> b <= v
    }
}

/// `table` is the table of the pattern: one entry for each number of
/// matched symbols, from none to all.
pub open spec fn is_next_table(table: Seq<i32>, pat: Seq<u8>) -> bool {
    &&& table.len() == pat.len() + 1
    &&& forall|i: int| 0 <= i <= pat.len() ==> is_next_entry(pat, i, #[trigger] table[i] as int)
}

/// The first `i` symbols of the pattern end `text`, and no more than `i`
/// do, among the numbers up to `limit`.
pub open spec fn is_longest_match(pat: Seq<u8>, limit: int, text: Seq<u8>, i: int) -> bool {
    &&& 0 <= i <= limit <= pat.len()
    &&& is_suffix(pat.take(i), text)
    &&& forall|k: int| 0 <= k <= limit && is_suffix(#[trigger] pat.take(k), text) ==> k <= i
}

/// While the scan looks for the match after the next symbol `c`: the first
/// `i` symbols end `text`, unless `i` is -1, and no longer start of the
/// pattern that ends `text` is followed by `c`.
pub open spec fn is_candidate_match(pat: Seq<u8>, text: Seq<u8>, c: u8, i: int) -> bool {
    &&& -1 <= i < pat.len()
    &&& (i >= 0 ==> is_suffix(pat.take(i), text))
    &&& forall|k: int|
        0 <= k < pat.len() && is_suffix(#[trigger] pat.take(k), text) && pat[k] == c ==> k <= i
}

/// A candidate that is followed by another symbol than `c` hands over to
/// its table entry.
pub proof fn lemma_candidate_shift(pat: Seq<u8>, text: Seq<u8>, c: u8, i: int, v: int)
    requires
        is_candidate_match(pat, text, c, i),
        i >= 0,
        pat[i] != c,
        is_next_entry(pat, i, v),
    ensures
        is_candidate_match(pat, text, c, v),
        v < i,
{
    if v >= 0 {
        lemma_suffix_transitive(pat.take(v), pat.take(i), text);
    }
    assert forall|k: int|
        0 <= k < pat.len() && is_suffix(#[trigger] pat.take(k), text) && pat[k] == c implies k
        <= v by {
        assert(k <= i);
        lemma_suffixes_nest(pat.take(k), pat.take(i), text);
        assert(is_border(pat, i, k));
    }
}

/// A candidate that is followed by `c`, or no candidate at all, ends the
/// search: one symbol more is matched.
pub proof fn lemma_candidate_found(pat: Seq<u8>, text: Seq<u8>, c: u8, i: int)
    requires
        is_candidate_match(pat, text, c, i),
        i == -1 || pat[i] == c,
    ensures
        is_longest_match(pat, pat.len() as int, text.push(c), i + 1),
{
    let longer = text.push(c);
    lemma_suffix_push(pat.take(i + 1), text, c);
    if i >= 0 {
        assert(pat.take(i + 1).drop_last() =~= pat.take(i));
    }
    assert forall|k: int| 0 <= k <= pat.len() && is_suffix(#[trigger] pat.take(k), longer) implies k
        <= i + 1 by {
        lemma_suffix_push(pat.take(k), text, c);
        if k > 0 {
            assert(pat.take(k).drop_last() =~= pat.take(k - 1));
            assert(pat.take(k).last() == pat[k - 1]);
        }
    }
}

/// The longest match below the length of the pattern is a candidate under
/// every symbol.
pub proof fn lemma_candidate_first(pat: Seq<u8>, text: Seq<u8>, c: u8, i: int)
    requires
        pat.len() > 0,
        is_longest_match(pat, pat.len() - 1, text, i),
    ensures
        is_candidate_match(pat, text, c, i),
{
}

/// The borders of the first `i` symbols are the starts of the pattern that
/// end those symbols without the first.
pub proof fn lemma_border_text(pat: Seq<u8>, i: int, b: int)
    requires
        1 <= i <= pat.len(),
        0 <= b <= pat.len(),
    ensures
        is_border(pat, i, b) <==> is_suffix(pat.take(b), pat.take(i).skip(1)),
{
    let whole = pat.take(i);
    let rest = whole.skip(1);
    if b < i {
        assert(whole.skip(whole.len() - b) =~= rest.skip(rest.len() - b));
    }
}

/// Where the longest border of the first `i` symbols is followed by the
/// symbol that follows them, the table entry of the border serves for `i`
/// too.
pub proof fn lemma_entry_inherited(pat: Seq<u8>, i: int, j: int, v: int)
    requires
        0 < i < pat.len(),
        is_border(pat, i, j),
        forall|b: int| #[trigger] is_border(pat, i, b) ==> b <= j,
        pat[j] == pat[i],
        is_next_entry(pat, j, v),
    ensures
        is_next_entry(pat, i, v),
{
    if v >= 0 {
        lemma_suffix_transitive(pat.take(v), pat.take(j), pat.take(i));
    }
    assert forall|b: int| #[trigger] is_border(pat, i, b) && pat[b] != pat[i] implies b <= v by {
        assert(b <= j);
        lemma_suffixes_nest(pat.take(b), pat.take(j), pat.take(i));
        assert(is_border(pat, j, b));
    }
}

/// Computes the table for the first `m` symbols of `pat`.
pub fn build_next_table(pat: &[u8], m: usize) -> (next_table: Vec<i32>)
    requires
        m <= pat@.len(),
        m < i32::MAX,
    ensures
        is_next_table(next_table@, pat@.take(m as int)),
{
    let ghost p = pat@.take(m as int);
    let mut next_table: Vec<i32> = vec![0; m + 1];
    let mut i: usize = 0;
    let mut j: i32 = -1;
    next_table[0] = -1;

    while i < m
        invariant
            i <= m <= pat@.len(),
            m < i32::MAX,
            p == pat@.take(m as int),
            next_table@.len() == m + 1,
            -1 <= j < i || (i == 0 && j == -1),
            i == 0 <==> j == -1,
            forall|t: int| 0 <= t <= i ==> is_next_entry(p, t, #[trigger] next_table@[t] as int),
            i > 0 ==> is_border(p, i as int, j as int),
            i > 0 ==> forall|b: int| #[trigger] is_border(p, i as int, b) ==> b <= j,
        decreases m - i,
    {
        let ghost text = p.take(i as int).skip(1);
        let ghost c = p[i as int];
        proof {
            if i > 0 {
                lemma_border_text(p, i as int, j as int);
                assert forall|k: int|
                    0 <= k < p.len() && is_suffix(#[trigger] p.take(k), text) && p[k]
                        == c implies k <= j by {
                    lemma_border_text(p, i as int, k);
                }
            }
        }
        while j > -1 && pat[i] != pat[j as usize]
            invariant
                i < m <= pat@.len(),
                p == pat@.take(m as int),
                c == p[i as int],
                next_table@.len() == m + 1,
                -1 <= j < i,
                i == 0 ==> j == -1,
                forall|t: int| 0 <= t <= i ==> is_next_entry(p, t, #[trigger] next_table@[t] as int),
                i > 0 ==> is_candidate_match(p, text, c, j as int),
            decreases j + 1,
        {
            proof {
                lemma_candidate_shift(p, text, c, j as int, next_table@[j as int] as int);
            }
            j = next_table[j as usize];
        }
        proof {
            if i > 0 {
                lemma_candidate_found(p, text, c, j as int);
                assert(text.push(c) =~= p.take(i + 1).skip(1));
                lemma_border_text(p, i + 1, j + 1);
                assert forall|b: int| #[trigger] is_border(p, i + 1, b) implies b <= j + 1 by {
                    lemma_border_text(p, i + 1, b);
                }
            } else {
                assert(is_border(p, 1, 0)) by {
                    assert(p.take(1).skip(1) =~= p.take(0));
                }
            }
        }
        i += 1;
        j += 1;
        if i < m && pat[i] == pat[j as usize] {
            proof {
                lemma_entry_inherited(p, i as int, j as int, next_table@[j as int] as int);
            }
            let entry = next_table[j as usize];
            next_table[i] = entry;
        } else {
            next_table[i] = j;
        }
    }
    proof {
        if m == 0 {
            assert forall|b: int| !is_border(p, 0, b) by {}
        }
    }
    next_table
}

/// `pat_data` is what preparing a pattern yields: the pattern followed by
/// one zero byte, and the table of the pattern.
pub open spec fn is_kmp_data(pat_data: Seq<PatternData>) -> bool {
    &&& pat_data.len() == 2
    &&& pat_data[0] matches PatternData::PatternU8Vec(pattern)
    &&& pat_data[1] matches PatternData::PatternIntVec(table)
    &&& pattern@.len() >= 1
    &&& pattern@.last() == 0
    &&& is_next_table(table@, pattern@.drop_last())
}

/// The pattern that `pat_data` was prepared for.
pub open spec fn kmp_pattern(pat_data: Seq<PatternData>) -> Seq<u8> {
    pat_data[0]->PatternU8Vec_0@.drop_last()
}

/// Prepares `pat` for the scan: the pattern with a zero byte behind it,
/// and its table.
pub fn init_kmp(pat: &[u8]) -> (pattern_data: Vec<PatternData>)
    requires
        pat@.len() < i32::MAX,
    ensures
        is_kmp_data(pattern_data@),
        kmp_pattern(pattern_data@) == pat@,
{
    let m = pat.len();
    let mut pattern_data: Vec<PatternData> = Vec::with_capacity(2);

    let mut new_vec: Vec<u8> = Vec::new();
    let mut k: usize = 0;
    while k < m
        invariant
            k <= m == pat@.len(),
            new_vec@ == pat@.take(k as int),
        decreases m - k,
    {
        new_vec.push(pat[k]);
        proof {
            assert(pat@.take(k + 1) =~= pat@.take(k as int).push(pat@[k as int]));
        }
        k += 1;
    }
    new_vec.push(0);
    proof {
        assert(pat@.take(m as int) =~= pat@);
        assert(new_vec@.drop_last() =~= pat@);
        assert(new_vec@.take(m as int) =~= pat@);
    }

    let next_table = build_next_table(new_vec.as_slice(), m);

    pattern_data.push(PatternData::PatternU8Vec(new_vec));
    pattern_data.push(PatternData::PatternIntVec(next_table));

    pattern_data
}

/// Counts the occurrences of the prepared pattern in `sequence`.
pub fn kmp(pat_data: &[PatternData], sequence: &[u8]) -> (matches: i32)
    requires
        is_kmp_data(pat_data@),
        kmp_pattern(pat_data@).len() > 0,
        kmp_pattern(pat_data@).len() < i32::MAX,
        sequence@.len() <= i32::MAX,
    ensures
        matches == count_occurrences(kmp_pattern(pat_data@), sequence@),
{
    let mut i: i32 = 0;
    let mut j: usize = 0;
    let mut matches: i32 = 0;

    let pattern = match &pat_data[0] {
        PatternData::PatternU8Vec(pat_as_vec) => pat_as_vec,
        _ => unreached(),
    };
    let next_table = match &pat_data[1] {
        PatternData::PatternIntVec(table) => table,
        _ => unreached(),
    };
    let ghost p = kmp_pattern(pat_data@);

    let m = pattern.len() - 1;
    let n = sequence.len();

    proof {
        assert(sequence@.take(0) =~= Seq::<u8>::empty());
        lemma_count_in_empty_text(p);
        assert(is_suffix(p.take(0), sequence@.take(0))) by {
            assert(sequence@.take(0).skip(0) =~= p.take(0));
        }
    }

    while j < n
        invariant
            j <= n == sequence@.len(),
            n <= i32::MAX,
            pattern@.len() == m + 1,
            p == pattern@.drop_last(),
            m == p.len(),
            0 < m < i32::MAX,
            is_next_table(next_table@, p),
            is_longest_match(p, m - 1, sequence@.take(j as int), i as int),
            matches == count_occurrences(p, sequence@.take(j as int)),
            matches <= j,
        decreases n - j,
    {
        let ghost text = sequence@.take(j as int);
        let c = sequence[j];
        proof {
            lemma_candidate_first(p, text, c, i as int);
        }
        while i > -1 && pattern[i as usize] != sequence[j]
            invariant
                j < n == sequence@.len(),
                c == sequence@[j as int],
                pattern@.len() == m + 1,
                p == pattern@.drop_last(),
                m == p.len(),
                is_next_table(next_table@, p),
                is_candidate_match(p, text, c, i as int),
            decreases i + 1,
        {
            proof {
                assert(pattern@[i as int] == p[i as int]);
                lemma_candidate_shift(p, text, c, i as int, next_table@[i as int] as int);
            }
            i = next_table[i as usize];
        }
        proof {
            if i > -1 {
                assert(pattern@[i as int] == p[i as int]);
            }
            lemma_candidate_found(p, text, c, i as int);
            lemma_count_push(p, text, c);
            assert(text.push(c) =~= sequence@.take(j + 1));
            assert(p.take(m as int) =~= p);
        }
        i += 1;
        j += 1;
        if i >= m as i32 {
            proof {
                let longer = sequence@.take(j as int);
                let v = next_table@[i as int] as int;
                assert(is_next_entry(p, m as int, v));
                assert(is_border(p, m as int, 0)) by {
                    assert(p.take(m as int).skip(p.take(m as int).len() - 0) =~= p.take(0));
                }
                lemma_suffix_transitive(p.take(v), p, longer);
                assert forall|k: int|
                    0 <= k <= m - 1 && is_suffix(#[trigger] p.take(k), longer) implies k <= v by {
                    lemma_suffixes_nest(p.take(k), p, longer);
                    assert(is_border(p, m as int, k));
                }
            }
            matches += 1;
            i = next_table[i as usize];
        }
    }
    proof {
        assert(sequence@.take(j as int) =~= sequence@);
    }
    matches
}

} // verus!

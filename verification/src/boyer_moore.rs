//! Matching one pattern by the method of Boyer and Moore: the pattern is
//! compared from its right end, and two tables say how far it may be moved
//! on after a mismatch.

use crate::occurrence::{count_occurrences, end_positions, lemma_end_positions_bounded, occurs_at};
use crate::run::PatternData;
use crate::trie::ASIZE;
use vstd::prelude::*;

verus! {

/// `v` is the bad-character shift of the symbol `c` when the first `limit`
/// symbols of the pattern are looked at: the distance from the last place
/// of `c` among them to the last symbol of the pattern, or the length of
/// the pattern where `c` is not among them.
pub open spec fn is_bad_char_entry(pat: Seq<u8>, limit: int, c: int, v: int) -> bool {
    &&& 1 <= v <= pat.len()
    &&& v < pat.len() ==> pat.len() - 1 - v < limit && pat[pat.len() - 1 - v] == c
    &&& forall|r: int| 0 <= r < limit && #[trigger] pat[r] == c ==> pat.len() - 1 - r >= v
}

/// `table` holds the bad-character shift of every symbol: the last symbol
/// of the pattern is not looked at.
pub open spec fn is_bad_char_table(table: Seq<i32>, pat: Seq<u8>) -> bool {
    &&& table.len() == ASIZE
    &&& forall|c: int|
        0 <= c < ASIZE ==> is_bad_char_entry(pat, pat.len() - 1, c, #[trigger] table[c] as int)
}

/// The `l` symbols of the pattern that end at index `i` are its last `l`
/// symbols.
pub open spec fn is_common_suffix(pat: Seq<u8>, i: int, l: int) -> bool {
    &&& 0 <= l <= i + 1
    &&& forall|d: int| 0 <= d < l ==> #[trigger] pat[i - d] == pat[pat.len() - 1 - d]
}

/// `l` is the greatest such number: the symbol before is another one, or
/// there is none.
pub open spec fn is_suffix_length(pat: Seq<u8>, i: int, l: int) -> bool {
    &&& is_common_suffix(pat, i, l)
    &&& l <= i ==> pat[i - l] != pat[pat.len() - 1 - l]
}

/// `table` holds for every index of the pattern the length of the longest
/// piece that ends there and is a suffix of the pattern.
pub open spec fn is_suffix_table(table: Seq<i32>, pat: Seq<u8>) -> bool {
    &&& table.len() == pat.len()
    &&& forall|i: int| 0 <= i < pat.len() ==> is_suffix_length(pat, i, #[trigger] table[i] as int)
}

/// The pattern may be moved on by `s` after a mismatch at index `i`: the
/// symbols behind `i`, which matched, meet equal symbols again, as far as
/// they meet any, and the symbol at `i` meets another one than itself.
pub open spec fn is_shift(pat: Seq<u8>, i: int, s: int) -> bool {
    &&& 1 <= s <= pat.len()
    &&& forall|x: int| i < x < pat.len() && x >= s ==> #[trigger] pat[x - s] == pat[x]
    &&& s <= i ==> pat[i - s] != pat[i]
}

/// `v` is the good-suffix shift for a mismatch at index `i`: the least
/// shift.
pub open spec fn is_good_suffix_entry(pat: Seq<u8>, i: int, v: int) -> bool {
    &&& is_shift(pat, i, v)
    &&& forall|s: int| 1 <= s < v ==> !#[trigger] is_shift(pat, i, s)
}

/// `table` holds the good-suffix shift for every index of the pattern.
pub open spec fn is_good_suffix_table(table: Seq<i32>, pat: Seq<u8>) -> bool {
    &&& table.len() == pat.len()
    &&& forall|i: int|
        0 <= i < pat.len() ==> is_good_suffix_entry(pat, i, #[trigger] table[i] as int)
}

/// There is one suffix length only.
pub proof fn lemma_suffix_length_unique(pat: Seq<u8>, i: int, a: int, b: int)
    requires
        0 <= i < pat.len(),
        is_suffix_length(pat, i, a),
        is_suffix_length(pat, i, b),
    ensures
        a == b,
{
    if a < b {
        assert(pat[i - a] == pat[pat.len() - 1 - a]);
    }
    if b < a {
        assert(pat[i - b] == pat[pat.len() - 1 - b]);
    }
}

/// Computes the bad-character shifts of the first `m` symbols of `pat`.
pub fn calc_bad_char(pat: &[u8], m: usize) -> (bad_char: Vec<i32>)
    requires
        1 <= m <= pat@.len(),
        m <= i32::MAX,
    ensures
        is_bad_char_table(bad_char@, pat@.take(m as int)),
{
    let ghost p = pat@.take(m as int);
    let mut bad_char: Vec<i32> = vec![m as i32; ASIZE];

    let mut i: usize = 0;
    while i < m - 1
        invariant
            i <= m - 1,
            1 <= m <= pat@.len(),
            m <= i32::MAX,
            p == pat@.take(m as int),
            bad_char@.len() == ASIZE,
            forall|c: int|
                0 <= c < ASIZE ==> is_bad_char_entry(p, i as int, c, #[trigger] bad_char@[c] as int),
        decreases m - 1 - i,
    {
        let ghost before = bad_char@;
        let symbol = pat[i] as usize;
        bad_char[symbol] = (m - i - 1) as i32;
        proof {
            assert forall|c: int| 0 <= c < ASIZE implies is_bad_char_entry(
                p,
                i + 1,
                c,
                #[trigger] bad_char@[c] as int,
            ) by {
                assert(is_bad_char_entry(p, i as int, c, before[c] as int));
            }
        }
        i += 1;
    }

    bad_char
}

/// Computes for every index of the first `m` symbols of `pat` the length
/// of the longest piece that ends there and is a suffix of those symbols.
pub fn calc_suffixes(pat: &[u8], m: usize) -> (suffix_list: Vec<i32>)
    requires
        1 <= m <= pat@.len(),
        m <= i32::MAX,
    ensures
        is_suffix_table(suffix_list@, pat@.take(m as int)),
{
    let ghost p = pat@.take(m as int);
    let mut suffix_list: Vec<i32> = vec![0; m];
    let mut f: i32 = 0;
    let mut g: i32;
    let mut i: i32;

    suffix_list[m - 1] = m as i32;

    g = m as i32 - 1;
    i = m as i32 - 2;
    while i >= 0
        invariant
            -1 <= i <= m - 2,
            1 <= m <= pat@.len(),
            m <= i32::MAX,
            p == pat@.take(m as int),
            suffix_list@.len() == m,
            forall|x: int| i < x < m ==> is_suffix_length(p, x, #[trigger] suffix_list@[x] as int),
            -1 <= g <= m - 1,
            g < m - 1 ==> i < f <= m - 2 && g <= f,
            g < m - 1 ==> forall|x: int| g < x <= f ==> #[trigger] p[x] == p[x + m - 1 - f],
        decreases i + 1,
    {
        if i > g && suffix_list[(m as i32 - 1 - f + i) as usize] < i - g {
            let other = (m as i32 - 1 - f + i) as usize;
            let length = suffix_list[other];
            proof {
                assert(is_suffix_length(p, other as int, length as int));
                assert forall|d: int| 0 <= d < length implies #[trigger] p[i - d] == p[m - 1 - d] by {
                    assert(p[i - d] == p[(i - d) + m - 1 - f]);
                    assert(p[other - d] == p[m - 1 - d]);
                }
                assert(p[i - length] == p[(i - length) + m - 1 - f]);
            }
            suffix_list[i as usize] = length;
        } else {
            proof {
                if i > g {
                    let other = i + m - 1 - f;
                    let length = suffix_list@[other] as int;
                    assert(is_suffix_length(p, other, length));
                    assert forall|x: int| g < x <= i implies #[trigger] p[x] == p[x + m - 1 - i] by {
                        let d = i - x;
                        assert(p[i - d] == p[(i - d) + m - 1 - f]);
                        assert(p[other - d] == p[m - 1 - d]);
                    }
                }
            }
            if i < g {
                g = i;
            }
            f = i;
            while g >= 0 && pat[g as usize] == pat[(m as i32 - 1 - f + g) as usize]
                invariant
                    -1 <= g <= f == i,
                    0 <= i <= m - 2,
                    1 <= m <= pat@.len(),
                    m <= i32::MAX,
                    p == pat@.take(m as int),
                    forall|x: int| g < x <= f ==> #[trigger] p[x] == p[x + m - 1 - f],
                decreases g + 1,
            {
                g -= 1;
            }
            proof {
                assert forall|d: int| 0 <= d < f - g implies #[trigger] p[i - d] == p[m - 1 - d] by {
                    assert(p[i - d] == p[(i - d) + m - 1 - f]);
                }
            }
            suffix_list[i as usize] = f - g;
        }

        i -= 1;
    }

    suffix_list
}

/// Whether `s`, less than the length of the pattern, is a shift after a
/// mismatch at `i` shows in the suffix length `l` at the index that meets
/// the last symbol of the pattern after the shift.
pub proof fn lemma_shift_by_suffix(pat: Seq<u8>, i: int, s: int, l: int)
    requires
        0 <= i < pat.len(),
        1 <= s < pat.len(),
        is_suffix_length(pat, pat.len() - 1 - s, l),
    ensures
        is_shift(pat, i, s) <==> if s <= i {
            l == pat.len() - 1 - i
        } else {
            l == pat.len() - s
        },
{
    let m = pat.len() as int;
    let t = m - 1 - s;
    let wanted = if s <= i {
        m - 1 - i
    } else {
        m - s
    };
    if is_shift(pat, i, s) {
        assert forall|d: int| 0 <= d < wanted implies #[trigger] pat[t - d] == pat[m - 1 - d] by {
            let x = m - 1 - d;
            assert(pat[x - s] == pat[x]);
        }
        assert(is_suffix_length(pat, t, wanted));
        lemma_suffix_length_unique(pat, t, l, wanted);
    }
    if l == wanted {
        assert forall|x: int| i < x < m && x >= s implies #[trigger] pat[x - s] == pat[x] by {
            let d = m - 1 - x;
            assert(pat[t - d] == pat[m - 1 - d]);
        }
    }
}

/// `v` is the least shift after a mismatch at `i` among the shifts that
/// move the pattern beyond `i`.
pub open spec fn is_least_far_shift(pat: Seq<u8>, i: int, v: int) -> bool {
    &&& i < v
    &&& is_shift(pat, i, v)
    &&& forall|s: int| i < s < v ==> !#[trigger] is_shift(pat, i, s)
}

/// `v` is the least shift after a mismatch at `i` but for the shifts up to
/// `bound`, which are still to be looked at.
pub open spec fn is_least_shift_above(pat: Seq<u8>, i: int, v: int, bound: int) -> bool {
    &&& is_shift(pat, i, v)
    &&& forall|s: int| i < s < v ==> !#[trigger] is_shift(pat, i, s)
    &&& forall|s: int| 1 <= s < v && bound < s ==> !#[trigger] is_shift(pat, i, s)
}

/// A shift beyond one index is a shift beyond every index that it moves
/// the pattern beyond.
pub proof fn lemma_far_shift(pat: Seq<u8>, i: int, j: int, s: int)
    requires
        0 <= i < pat.len(),
        0 <= j < pat.len(),
        i < s,
        j < s,
    ensures
        is_shift(pat, i, s) == is_shift(pat, j, s),
{
    if 1 <= s < pat.len() {
        let m = pat.len() as int;
        if is_shift(pat, i, s) {
            assert forall|x: int| j < x < m && x >= s implies #[trigger] pat[x - s] == pat[x] by {}
        }
        if is_shift(pat, j, s) {
            assert forall|x: int| i < x < m && x >= s implies #[trigger] pat[x - s] == pat[x] by {}
        }
    }
}

/// Computes the good-suffix shifts of the first `m` symbols of `pat`.
pub fn calc_good_suffix(pat: &[u8], m: usize) -> (good_suffix: Vec<i32>)
    requires
        1 <= m <= pat@.len(),
        m <= i32::MAX - 1,
    ensures
        is_good_suffix_table(good_suffix@, pat@.take(m as int)),
{
    let ghost p = pat@.take(m as int);
    let mut i: i32;
    let mut j: i32;
    let suffixes = calc_suffixes(pat, m);
    let mut good_suffix: Vec<i32> = vec![m as i32; m];

    j = 0;
    i = m as i32 - 1;
    while i >= -1
        invariant
            -2 <= i <= m - 1,
            1 <= m == p.len(),
            m <= i32::MAX - 1,
            is_suffix_table(suffixes@, p),
            good_suffix@.len() == m,
            0 <= j <= m - 1 - i,
            j <= m,
            i == -2 ==> j == m,
            forall|x: int| 0 <= x < j ==> is_least_far_shift(p, x, #[trigger] good_suffix@[x] as int),
            forall|x: int| j <= x < m ==> #[trigger] good_suffix@[x] == m,
            forall|s: int| j < s < m - 1 - i && s <= m ==> !#[trigger] is_shift(p, 0, s),
        decreases i + 2,
    {
        let ghost shift = m - 1 - i;
        proof {
            if 1 <= shift < m {
                lemma_shift_by_suffix(p, 0, shift, suffixes@[i as int] as int);
            }
        }
        if i == -1 || suffixes[i as usize] == i + 1 {
            proof {
                if 1 <= shift < m {
                    lemma_border_shift(p, shift, suffixes@[i as int] as int);
                }
            }
            while j < m as i32 - 1 - i
                invariant
                    -1 <= i <= m - 1,
                    shift == m - 1 - i,
                    1 <= m == p.len(),
                    m <= i32::MAX - 1,
                    good_suffix@.len() == m,
                    0 <= j <= shift,
                    shift >= 1 ==> is_shift(p, shift - 1, shift),
                    forall|x: int|
                        0 <= x < j ==> is_least_far_shift(p, x, #[trigger] good_suffix@[x] as int),
                    forall|x: int| j <= x < m ==> #[trigger] good_suffix@[x] == m,
                    forall|s: int| j < s < shift && s <= m ==> !#[trigger] is_shift(p, 0, s),
                decreases shift - j,
            {
                let ghost before = good_suffix@;
                if good_suffix[j as usize] == m as i32 {
                    good_suffix[j as usize] = m as i32 - 1 - i;
                }
                proof {
                    lemma_far_shift(p, shift - 1, j as int, shift);
                    assert forall|s: int| j < s < shift implies !#[trigger] is_shift(p, j as int, s) by {
                        lemma_far_shift(p, 0, j as int, s);
                    }
                    assert forall|x: int| 0 <= x < j + 1 implies is_least_far_shift(
                        p,
                        x,
                        #[trigger] good_suffix@[x] as int,
                    ) by {
                        if x < j {
                            assert(is_least_far_shift(p, x, before[x] as int));
                        }
                    }
                }
                j += 1;
            }
        }
        i -= 1;
    }

    proof {
        assert forall|x: int| 0 <= x < m implies is_least_shift_above(
            p,
            x,
            #[trigger] good_suffix@[x] as int,
            m - 1,
        ) by {
            assert(is_least_far_shift(p, x, good_suffix@[x] as int));
        }
    }

    let mut t: usize = 0;
    while t + 2 <= m
        invariant
            t <= m - 1,
            1 <= m == p.len(),
            m <= i32::MAX - 1,
            is_suffix_table(suffixes@, p),
            good_suffix@.len() == m,
            forall|x: int|
                0 <= x < m ==> is_least_shift_above(
                    p,
                    x,
                    #[trigger] good_suffix@[x] as int,
                    m - 1 - t,
                ),
        decreases m - t,
    {
        let ghost before = good_suffix@;
        let ghost length = suffixes@[t as int] as int;
        let ghost shift = m - 1 - t;
        proof {
            assert(is_suffix_length(p, t as int, length));
        }
        let target = m - 1 - suffixes[t] as usize;
        good_suffix[target] = (m - 1 - t) as i32;
        proof {
            assert forall|x: int| 0 <= x < m implies is_least_shift_above(
                p,
                x,
                #[trigger] good_suffix@[x] as int,
                m - 1 - (t + 1),
            ) by {
                lemma_shift_by_suffix(p, x, shift, length);
                if x != target {
                    assert(is_least_shift_above(p, x, before[x] as int, m - 1 - t));
                }
            }
        }
        t += 1;
    }

    good_suffix
}

/// A shift that moves the pattern onto a border of itself is a shift after
/// a mismatch just before it.
pub proof fn lemma_border_shift(pat: Seq<u8>, s: int, l: int)
    requires
        1 <= s < pat.len(),
        is_suffix_length(pat, pat.len() - 1 - s, l),
        l == pat.len() - s,
    ensures
        is_shift(pat, s - 1, s),
{
    lemma_shift_by_suffix(pat, s - 1, s, l);
}

/// `pat_data` is what preparing a pattern yields: the pattern followed by
/// one zero byte, its good-suffix shifts and its bad-character shifts.
pub open spec fn is_bm_data(pat_data: Seq<PatternData>) -> bool {
    &&& pat_data.len() == 3
    &&& pat_data[0] matches PatternData::PatternU8Vec(pattern)
    &&& pat_data[1] matches PatternData::PatternIntVec(good_suffix)
    &&& pat_data[2] matches PatternData::PatternIntVec(bad_char)
    &&& 2 <= pattern@.len() <= i32::MAX
    &&& pattern@.last() == 0
    &&& is_good_suffix_table(good_suffix@, pattern@.drop_last())
    &&& is_bad_char_table(bad_char@, pattern@.drop_last())
}

/// The pattern that `pat_data` was prepared for.
pub open spec fn bm_pattern(pat_data: Seq<PatternData>) -> Seq<u8> {
    pat_data[0]->PatternU8Vec_0@.drop_last()
}

/// Prepares `pat` for the scan: the pattern with a zero byte behind it,
/// and its two tables of shifts.
pub fn init_boyer_moore(pat: &[u8]) -> (pattern_data: Vec<PatternData>)
    requires
        1 <= pat@.len() <= i32::MAX - 1,
    ensures
        is_bm_data(pattern_data@),
        bm_pattern(pattern_data@) == pat@,
{
    let m = pat.len();
    let mut pattern_data: Vec<PatternData> = Vec::with_capacity(3);

    let mut new_vec: Vec<u8> = Vec::new();
    let mut k: usize = 0;
    while k < m
        invariant
            k <= m == pat@.len(),
            new_vec@ == pat@.take(k as int),
        decreases m - k,
    {
        new_vec.push(pat[k]);
        proof {
            assert(pat@.take(k + 1) =~= pat@.take(k as int).push(pat@[k as int]));
        }
        k += 1;
    }
    new_vec.push(0);
    proof {
        assert(pat@.take(m as int) =~= pat@);
        assert(new_vec@.drop_last() =~= pat@);
        assert(new_vec@.take(m as int) =~= pat@);
    }

    let good_suffix: Vec<i32> = calc_good_suffix(new_vec.as_slice(), m);
    let bad_char: Vec<i32> = calc_bad_char(new_vec.as_slice(), m);

    pattern_data.push(PatternData::PatternU8Vec(new_vec));
    pattern_data.push(PatternData::PatternIntVec(good_suffix));
    pattern_data.push(PatternData::PatternIntVec(bad_char));

    pattern_data
}

/// The end positions of the occurrences that end before `bound`.
pub open spec fn ends_below(pat: Seq<u8>, text: Seq<u8>, bound: int) -> Set<int> {
    Set::new(|end: int| occurs_at(pat, text, end) && end < bound)
}

/// Where no occurrence ends between two bounds, the occurrences below the
/// higher bound are those below the lower one and the one that ends at the
/// lower bound, if there is one.
pub proof fn lemma_ends_below_step(pat: Seq<u8>, text: Seq<u8>, low: int, high: int)
    requires
        low < high,
        forall|end: int| low < end < high ==> !#[trigger] occurs_at(pat, text, end),
    ensures
        ends_below(pat, text, low).finite(),
        ends_below(pat, text, low).len() <= count_occurrences(pat, text),
        ends_below(pat, text, high).len() == ends_below(pat, text, low).len() + if occurs_at(
            pat,
            text,
            low,
        ) {
            1nat
        } else {
            0nat
        },
{
    let lower = ends_below(pat, text, low);
    let higher = ends_below(pat, text, high);
    lemma_end_positions_bounded(pat, text);
    assert(lower.subset_of(end_positions(pat, text)));
    vstd::set_lib::lemma_len_subset(lower, end_positions(pat, text));
    if occurs_at(pat, text, low) {
        assert(higher =~= lower.insert(low));
    } else {
        assert(higher =~= lower);
    }
}

/// An occurrence after the place of a mismatch shows a shift of the
/// pattern: what matched behind the mismatch meets equal symbols, and the
/// symbol of the text at the mismatch meets its like.
pub proof fn lemma_occurrence_is_shift(pat: Seq<u8>, text: Seq<u8>, j: int, i: int, s: int)
    requires
        0 <= i < pat.len(),
        0 <= j,
        j + pat.len() <= text.len(),
        forall|x: int| i < x < pat.len() ==> #[trigger] pat[x] == text[j + x],
        pat[i] != text[j + i],
        1 <= s < pat.len(),
        occurs_at(pat, text, j + s + pat.len()),
    ensures
        is_shift(pat, i, s),
        s <= i ==> pat[i - s] == text[j + i],
{
    let m = pat.len() as int;
    let piece = text.subrange(j + s, j + s + m);
    assert forall|x: int| i < x < m && x >= s implies #[trigger] pat[x - s] == pat[x] by {
        assert(piece[x - s] == text[j + x]);
    }
    if s <= i {
        assert(piece[i - s] == text[j + i]);
    }
}

/// After a full match an occurrence further on shows a shift of the
/// pattern onto itself.
pub proof fn lemma_occurrence_is_period(pat: Seq<u8>, text: Seq<u8>, j: int, s: int)
    requires
        0 <= j,
        occurs_at(pat, text, j + pat.len()),
        1 <= s < pat.len(),
        occurs_at(pat, text, j + s + pat.len()),
    ensures
        is_shift(pat, 0, s),
{
    let m = pat.len() as int;
    let here = text.subrange(j, j + m);
    let there = text.subrange(j + s, j + s + m);
    assert forall|x: int| 0 < x < m && x >= s implies #[trigger] pat[x - s] == pat[x] by {
        assert(there[x - s] == text[j + x]);
        assert(here[x] == text[j + x]);
    }
}

/// Counts the occurrences of the prepared pattern in `sequence`.
pub fn boyer_moore(pat_data: &[PatternData], sequence: &[u8]) -> (matches: i32)
    requires
        is_bm_data(pat_data@),
        sequence@.len() <= i32::MAX,
    ensures
        matches == count_occurrences(bm_pattern(pat_data@), sequence@),
{
    let mut i: i32;
    let mut j: i32;
    let mut matches: i32 = 0;

    let pattern = match &pat_data[0] {
        PatternData::PatternU8Vec(pat_as_vec) => pat_as_vec,
        _ => unreached(),
    };
    let good_suffix = match &pat_data[1] {
        PatternData::PatternIntVec(arr) => arr,
        _ => unreached(),
    };
    let bad_char = match &pat_data[2] {
        PatternData::PatternIntVec(arr) => arr,
        _ => unreached(),
    };
    let ghost p = bm_pattern(pat_data@);
    let ghost text = sequence@;

    let m = pattern.len() as i32 - 1;
    let n = sequence.len() as i32;

    j = 0;
    proof {
        lemma_end_positions_bounded(p, text);
        assert(ends_below(p, text, m as int) =~= Set::<int>::empty());
    }
    while j <= n - m
        invariant
            0 <= j <= n == text.len(),
            text == sequence@,
            n <= i32::MAX,
            pattern@.len() == m + 1,
            p == pattern@.drop_last(),
            1 <= m == p.len(),
            is_good_suffix_table(good_suffix@, p),
            is_bad_char_table(bad_char@, p),
            matches == ends_below(p, text, j + m).len(),
            matches <= j,
        decreases n - j,
    {
        i = m - 1;
        while i >= 0 && pattern[i as usize] == sequence[(i + j) as usize]
            invariant
                -1 <= i <= m - 1,
                0 <= j <= n - m,
                n == text.len(),
                text == sequence@,
                pattern@.len() == m + 1,
                p == pattern@.drop_last(),
                m == p.len(),
                forall|x: int| i < x < m ==> #[trigger] p[x] == text[j + x],
            decreases i + 1,
        {
            i -= 1;
        }
        let ghost low = j + m;
        let shift: i32;
        if i < 0 {
            shift = good_suffix[0];
            proof {
                assert(is_good_suffix_entry(p, 0, shift as int));
                assert(text.subrange(j as int, j + m) =~= p);
                assert forall|end: int| low < end < low + shift implies !#[trigger] occurs_at(
                    p,
                    text,
                    end,
                ) by {
                    let s = end - low;
                    if occurs_at(p, text, end) {
                        lemma_occurrence_is_period(p, text, j as int, s);
                    }
                }
                lemma_ends_below_step(p, text, low, low + shift);
            }
            matches += 1;
        } else {
            let symbol = sequence[(i + j) as usize];
            let by_suffix = good_suffix[i as usize];
            let by_symbol = bad_char[symbol as usize] - m + 1 + i;
            shift = if by_suffix > by_symbol {
                by_suffix
            } else {
                by_symbol
            };
            proof {
                assert(is_good_suffix_entry(p, i as int, by_suffix as int));
                assert(is_bad_char_entry(p, m - 1, symbol as int, bad_char@[symbol as int] as int));
                assert(pattern@[i as int] == p[i as int]);
                assert(!occurs_at(p, text, low)) by {
                    if occurs_at(p, text, low) {
                        assert(text.subrange(j as int, j + m)[i as int] == text[j + i]);
                    }
                }
                assert forall|end: int| low < end < low + shift implies !#[trigger] occurs_at(
                    p,
                    text,
                    end,
                ) by {
                    let s = end - low;
                    if occurs_at(p, text, end) {
                        lemma_occurrence_is_shift(p, text, j as int, i as int, s);
                        if s <= i {
                            assert(p[i - s] == symbol);
                        }
                    }
                }
                lemma_ends_below_step(p, text, low, low + shift);
            }
        }
        j += shift;
    }

    proof {
        lemma_end_positions_bounded(p, text);
        assert(ends_below(p, text, j + m) =~= end_positions(p, text));
    }
    matches
}

} // verus!

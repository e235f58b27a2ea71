//! Matching one pattern of at most 64 symbols by the Shift-Or method: one
//! bit of a machine word for each start of the pattern that ends the text.

use crate::occurrence::{
    count_occurrences, is_suffix, lemma_count_in_empty_text, lemma_count_push, lemma_suffix_push,
};
use crate::run::{PatternData, WordType};
use crate::trie::ASIZE;
use vstd::prelude::*;

verus! {

/// The longest pattern that the method takes: the number of bits of a
/// word.
pub const WORD: usize = 64;

/// Bit `k` of `x` is set.
pub open spec fn bit(x: u64, k: u64) -> bool {
    (x >> k) & 1 == 1
}

/// The word with the `m` lowest bits set.
pub open spec fn low_mask(m: nat) -> u64 {
    if m >= 64 {
        u64::MAX
    } else {
        ((1u64 << (m as u64)) - 1) as u64
    }
}

/// The word that tells a match: a state below it has bit `m - 1` clear.
pub open spec fn limit_word(m: nat) -> u64 {
    !(low_mask(m) >> 1)
}

/// The word with bit `k` set for every `k` below `m` at which the pattern
/// holds the symbol `c`.
pub open spec fn positions(pat: Seq<u8>, c: int, m: nat) -> u64
    decreases m,
{
    if m == 0 {
        0
    } else {
        let lower = positions(pat, c, (m - 1) as nat);
        if pat[m - 1] == c {
            lower | (1u64 << ((m - 1) as u64))
        } else {
            lower
        }
    }
}

/// Setting one bit sets that bit only, the zero word has no bit set, and
/// the complement turns every bit over.
proof fn lemma_bit_or(x: u64, j: u64, k: u64)
    by (bit_vector)
    requires
        j < 64,
        k < 64,
    ensures
        bit(x | (1u64 << j), k) == (bit(x, k) || k == j),
        !bit(0, k),
        bit(!x, k) == !bit(x, k),
{
}

/// A bit of the next state is set where the table says so or where the
/// bit below it was set in the state before.
proof fn lemma_bit_shift_or(x: u64, y: u64, k: u64)
    by (bit_vector)
    requires
        k < 64,
    ensures
        bit((x << 1) | y, k) == (bit(y, k) || (k > 0 && bit(x, (k - 1) as u64))),
{
}

/// Clearing bits one after another clears them all at once.
proof fn lemma_clear(a: u64, p: u64, q: u64)
    by (bit_vector)
    ensures
        (a & !p) & !q == a & !(p | q),
        a & !0 == a,
{
}

/// One more low bit makes the next low mask, and the bit above is the
/// bit shifted by one.
proof fn lemma_low_mask_step(k: u64)
    by (bit_vector)
    requires
        k < 64,
    ensures
        k < 63 ==> (((1u64 << k) - 1) as u64) | (1u64 << k) == ((1u64 << ((k + 1) as u64)) - 1) as u64,
        k == 63 ==> (((1u64 << k) - 1) as u64) | (1u64 << k) == u64::MAX,
        k < 63 ==> (1u64 << k) << 1 == 1u64 << ((k + 1) as u64),
        (1u64 << 0) == 1,
        (((1u64 << 0) - 1) as u64) == 0,
{
}

/// A state whose bits from `m` on are set lies below the limit if and
/// only if its bit `m - 1` is clear.
proof fn lemma_limit(state: u64, m: u64)
    by (bit_vector)
    requires
        1 <= m <= 64,
        m < 64 ==> state | (((1u64 << m) - 1) as u64) == u64::MAX,
    ensures
        m < 64 ==> (state < !((((1u64 << m) - 1) as u64) >> 1)) == !bit(state, (m - 1) as u64),
        m == 64 ==> (state < !(u64::MAX >> 1)) == !bit(state, 63),
{
}

/// The bits above the pattern stay set from one state to the next.
proof fn lemma_high_bits(x: u64, y: u64, mask: u64, p: u64)
    by (bit_vector)
    requires
        p & !mask == 0,
    ensures
        !p | mask == u64::MAX,
        y | mask == u64::MAX ==> ((x << 1) | y) | mask == u64::MAX,
        u64::MAX | mask == u64::MAX,
{
}

/// A word within a low mask stays within every longer one, with one of
/// the bits it adds or without.
proof fn lemma_mask_grows(p: u64, k: u64, m: u64)
    by (bit_vector)
    requires
        k < m <= 64,
        k < 63 ==> p & !(((1u64 << k) - 1) as u64) == 0,
    ensures
        m < 64 ==> (p | (1u64 << k)) & !(((1u64 << m) - 1) as u64) == 0,
        m < 64 ==> p & !(((1u64 << m) - 1) as u64) == 0,
{
}

/// Bit `k` of `positions` is set where the pattern holds `c` at `k`, below
/// `m`.
pub proof fn lemma_positions_bit(pat: Seq<u8>, c: int, m: nat, k: u64)
    requires
        m <= 64,
        k < 64,
    ensures
        bit(positions(pat, c, m), k) == (k < m && pat[k as int] == c),
    decreases m,
{
    if m == 0 {
        lemma_bit_or(0, 0, k);
    } else {
        let lower = positions(pat, c, (m - 1) as nat);
        lemma_positions_bit(pat, c, (m - 1) as nat, k);
        lemma_bit_or(lower, (m - 1) as u64, k);
    }
}

/// `positions` has no bit set at `m` or above.
pub proof fn lemma_positions_low(pat: Seq<u8>, c: int, m: nat)
    requires
        m <= 64,
    ensures
        positions(pat, c, m) & !low_mask(m) == 0,
    decreases m,
{
    if m == 0 {
        lemma_low_mask_step(0);
        assert(0u64 & !0u64 == 0) by (bit_vector);
    } else {
        let lower = positions(pat, c, (m - 1) as nat);
        lemma_positions_low(pat, c, (m - 1) as nat);
        lemma_mask_grows(lower, (m - 1) as u64, m as u64);
        if m == 64 {
            let p = positions(pat, c, m);
            assert(p & !u64::MAX == 0) by (bit_vector);
        }
    }
}

/// Clears in the table, for each of the first `m` symbols of `pat`, the
/// bit of its place in the word of that symbol, and returns the word below
/// which a state tells a match.
pub fn calc_s_positions(pat: &[u8], m: usize, s_positions: &mut [WordType]) -> (lim: WordType)
    requires
        m <= pat@.len(),
        m <= WORD,
        forall|i: int| 0 <= i < m ==> (#[trigger] pat@[i]) < old(s_positions)@.len(),
    ensures
        lim == limit_word(m as nat),
        final(s_positions)@.len() == old(s_positions)@.len(),
        forall|c: int|
            0 <= c < old(s_positions)@.len() ==> #[trigger] final(s_positions)@[c] == old(
                s_positions,
            )@[c] & !positions(pat@, c, m as nat),
{
    let mut j: WordType = 1;
    let mut lim: WordType = 0;

    proof {
        lemma_low_mask_step(0);
        assert forall|c: int| 0 <= c < s_positions@.len() implies #[trigger] s_positions@[c]
            == old(s_positions)@[c] & !positions(pat@, c, 0) by {
            lemma_clear(old(s_positions)@[c], 0, 0);
        }
    }
    let mut i: usize = 0;
    while i < m
        invariant
            i <= m <= pat@.len(),
            m <= WORD,
            s_positions@.len() == old(s_positions)@.len(),
            forall|k: int| 0 <= k < m ==> (#[trigger] pat@[k]) < s_positions@.len(),
            i < 64 ==> j == 1u64 << (i as u64),
            lim == low_mask(i as nat),
            forall|c: int|
                0 <= c < s_positions@.len() ==> #[trigger] s_positions@[c] == old(s_positions)@[c]
                    & !positions(pat@, c, i as nat),
        decreases m - i,
    {
        let symbol = pat[i] as usize;
        s_positions[symbol] &= !j;
        lim |= j;
        proof {
            lemma_low_mask_step(i as u64);
            assert forall|c: int| 0 <= c < s_positions@.len() implies #[trigger] s_positions@[c]
                == old(s_positions)@[c] & !positions(pat@, c, (i + 1) as nat) by {
                if c == symbol {
                    lemma_clear(old(s_positions)@[c], positions(pat@, c, i as nat), j);
                }
            }
        }
        j <<= 1;
        i += 1;
    }
    lim = !(lim >> 1);

    lim
}

/// `pat_data` is what preparing `pat` yields: the word below which a state
/// tells a match, and the table with one word for each symbol, in which
/// the bits of the places of the symbol in the pattern are clear.
pub open spec fn is_shift_or_data(pat_data: Seq<PatternData>, pat: Seq<u8>) -> bool {
    &&& pat_data.len() == 2
    &&& pat_data[0] matches PatternData::PatternWord(lim)
    &&& pat_data[1] matches PatternData::PatternWordVec(table)
    &&& pat.len() <= WORD
    &&& lim == limit_word(pat.len())
    &&& table@.len() == ASIZE
    &&& forall|c: int| 0 <= c < ASIZE ==> #[trigger] table@[c] == !positions(pat, c, pat.len())
}

/// Tables are prepared for one pattern only.
pub proof fn lemma_shift_or_pattern_unique(
    pat_data: Seq<PatternData>,
    first: Seq<u8>,
    second: Seq<u8>,
)
    requires
        is_shift_or_data(pat_data, first),
        is_shift_or_data(pat_data, second),
    ensures
        first == second,
{
    let table = pat_data[1]->PatternWordVec_0@;
    if first.len() > 0 {
        lemma_same_symbol(table, first, second, first.len() - 1);
    }
    if second.len() > 0 {
        lemma_same_symbol(table, second, first, second.len() - 1);
    }
    assert forall|k: int| 0 <= k < first.len() implies first[k] == second[k] by {
        lemma_same_symbol(table, first, second, k);
    }
    assert(first =~= second);
}

/// Two patterns with the same table hold the same symbol wherever the
/// first holds one.
proof fn lemma_same_symbol(table: Seq<u64>, first: Seq<u8>, second: Seq<u8>, k: int)
    requires
        first.len() <= 64,
        second.len() <= 64,
        table.len() == ASIZE,
        forall|c: int| 0 <= c < ASIZE ==> #[trigger] table[c] == !positions(first, c, first.len()),
        forall|c: int| 0 <= c < ASIZE ==> #[trigger] table[c] == !positions(second, c, second.len()),
        0 <= k < first.len(),
    ensures
        k < second.len(),
        first[k] == second[k],
{
    let c = first[k] as int;
    let one = positions(first, c, first.len());
    let other = positions(second, c, second.len());
    assert(table[c] == !one);
    assert(table[c] == !other);
    assert(one == other) by (bit_vector)
        requires
            !one == !other,
    ;
    lemma_positions_bit(first, c, first.len(), k as u64);
    lemma_positions_bit(second, c, second.len(), k as u64);
}

/// Prepares `pat`, of at most 64 symbols, for the scan.
pub fn init_shift_or(pat: &[u8]) -> (pattern_data: Vec<PatternData>)
    requires
        pat@.len() <= WORD,
    ensures
        is_shift_or_data(pattern_data@, pat@),
{
    let mut pattern_data: Vec<PatternData> = Vec::with_capacity(2);
    let mut s_positions: Vec<WordType> = vec![!0; ASIZE];
    let m = pat.len();

    let lim: WordType = calc_s_positions(pat, m, &mut s_positions);
    proof {
        assert forall|c: int| 0 <= c < ASIZE implies #[trigger] s_positions@[c] == !positions(
            pat@,
            c,
            pat@.len(),
        ) by {
            let p = positions(pat@, c, m as nat);
            assert(!0u64 & !p == !p) by (bit_vector);
        }
    }

    pattern_data.push(PatternData::PatternWord(lim));
    pattern_data.push(PatternData::PatternWordVec(s_positions));

    pattern_data
}

/// What the scan for `pat` returns: the number of its occurrences, and
/// nothing for the empty pattern.
pub open spec fn shift_or_count(pat: Seq<u8>, text: Seq<u8>) -> nat {
    if pat.len() == 0 {
        0
    } else {
        count_occurrences(pat, text)
    }
}

/// Counts the occurrences of the prepared pattern in `sequence`.
pub fn shift_or(pat_data: &[PatternData], sequence: &[u8]) -> (matches: i32)
    requires
        exists|pat: Seq<u8>| is_shift_or_data(pat_data@, pat),
        sequence@.len() <= i32::MAX,
    ensures
        forall|pat: Seq<u8>| #[trigger]
            is_shift_or_data(pat_data@, pat) ==> matches == shift_or_count(pat, sequence@),
{
    let mut matches: i32 = 0;
    let mut state: WordType = !0;
    let ghost pat: Seq<u8> = choose|pat: Seq<u8>| is_shift_or_data(pat_data@, pat);
    let ghost m = pat.len();

    let lim = match &pat_data[0] {
        PatternData::PatternWord(val) => *val,
        _ => unreached(),
    };
    let s_positions = match &pat_data[1] {
        PatternData::PatternWordVec(arr) => arr,
        _ => unreached(),
    };

    let n = sequence.len();

    proof {
        assert(sequence@.take(0) =~= Seq::<u8>::empty());
        if m > 0 {
            lemma_count_in_empty_text(pat);
        }
        assert(state == u64::MAX) by (bit_vector)
            requires
                state == !0u64,
        ;
        let mask = low_mask(m);
        assert(u64::MAX | mask == u64::MAX) by (bit_vector);
        assert forall|k: u64| k < 64 implies #[trigger] bit(state, k) == !(k < m && is_suffix(
            pat.take(k + 1),
            sequence@.take(0),
        )) by {
            assert(bit(u64::MAX, k)) by (bit_vector)
                requires
                    k < 64,
            ;
        }
    }

    let mut j: usize = 0;
    while j < n
        invariant
            j <= n == sequence@.len(),
            n <= i32::MAX,
            is_shift_or_data(pat_data@, pat),
            m == pat.len(),
            pat_data@[0] == PatternData::PatternWord(lim),
            pat_data@[1] == PatternData::PatternWordVec(*s_positions),
            state | low_mask(m) == u64::MAX,
            forall|k: u64|
                k < 64 ==> #[trigger] bit(state, k) == !(k < m && is_suffix(
                    pat.take(k + 1),
                    sequence@.take(j as int),
                )),
            matches == shift_or_count(pat, sequence@.take(j as int)),
            matches <= j,
        decreases n - j,
    {
        let ghost text = sequence@.take(j as int);
        let ghost before = state;
        let c = sequence[j];
        state = (state << 1) | s_positions[c as usize];
        proof {
            let word = s_positions@[c as int];
            let longer = sequence@.take(j + 1);
            assert(text.push(c) =~= longer);
            lemma_positions_low(pat, c as int, m);
            lemma_high_bits(before, word, low_mask(m), positions(pat, c as int, m));
            assert forall|k: u64| k < 64 implies #[trigger] bit(state, k) == !(k < m && is_suffix(
                pat.take(k + 1),
                longer,
            )) by {
                lemma_bit_shift_or(before, word, k);
                lemma_positions_bit(pat, c as int, m, k);
                lemma_bit_or(positions(pat, c as int, m), 0, k);
                if k < m {
                    lemma_suffix_push(pat.take(k + 1), text, c);
                    assert(pat.take(k + 1).drop_last() =~= pat.take(k as int));
                    assert(pat.take(k + 1).last() == pat[k as int]);
                    if k > 0 {
                        assert(bit(before, (k - 1) as u64) == !is_suffix(
                            pat.take((k - 1) as u64 + 1),
                            text,
                        ));
                    } else {
                        assert(is_suffix(pat.take(0), text)) by {
                            assert(text.skip(text.len() - 0) =~= pat.take(0));
                        }
                    }
                }
            }
            if m > 0 {
                lemma_limit(state, m as u64);
                lemma_count_push(pat, text, c);
                assert(pat.take((m - 1) as u64 + 1) =~= pat);
                assert(bit(state, (m - 1) as u64) == !is_suffix(pat.take((m - 1) as u64 + 1), longer));
            } else {
                lemma_low_mask_step(0);
                assert(!(state < lim)) by (bit_vector)
                    requires
                        word == !0u64,
                        state == (before << 1) | word,
                        lim == !(0u64 >> 1),
                ;
            }
        }
        if state < lim {
            matches += 1;
        }
        j += 1;
    }

    proof {
        assert(sequence@.take(j as int) =~= sequence@);
        assert forall|other: Seq<u8>| #[trigger] is_shift_or_data(pat_data@, other) implies matches
            == shift_or_count(other, sequence@) by {
            lemma_shift_or_pattern_unique(pat_data@, pat, other);
        }
    }
    matches
}

} // verus!

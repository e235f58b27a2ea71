//! Matching one pattern with gaps: between two symbols of the pattern the
//! text may hold up to `k` bases other than the symbol that comes next.

use crate::run::ApproxPatternData;
use crate::trie::{ASIZE, FAIL};
use vstd::prelude::*;

verus! {

/// The symbols that may stand in a gap.
pub const ALPHABET: [usize; 4] = [65, 67, 71, 84];

/// `c` is one of the four bases.
pub open spec fn is_base(c: int) -> bool {
    c == 65 || c == 67 || c == 71 || c == 84
}

/// `places` are the places of the symbols of one occurrence of `pat` in
/// `text` with gaps of at most `k`: each symbol of the pattern stands at its
/// place, the places rise, and between two of them stand at most `k`
/// symbols, all of them bases other than the symbol of the pattern that
/// follows them.
pub open spec fn is_gapped_occurrence(
    pat: Seq<u8>,
    k: nat,
    text: Seq<u8>,
    places: Seq<int>,
) -> bool {
    &&& places.len() == pat.len()
    &&& forall|t: int|
        0 <= t < pat.len() ==> 0 <= #[trigger] places[t] < text.len() && text[places[t]] == pat[t]
    &&& forall|t: int|
        1 <= t < pat.len() ==> places[t - 1] < #[trigger] places[t] <= places[t - 1] + 1 + k
    &&& forall|t: int, r: int|
        1 <= t < pat.len() && places[t - 1] < r < places[t] ==> is_base(#[trigger] text[r] as int)
            && text[r] != #[trigger] pat[t]
}

/// An occurrence of `pat` with gaps of at most `k` begins at `start`.
pub open spec fn occurs_with_gaps_at(pat: Seq<u8>, k: nat, text: Seq<u8>, start: int) -> bool {
    &&& pat.len() > 0
    &&& exists|places: Seq<int>| #[trigger]
        is_gapped_occurrence(pat, k, text, places) && places[0] == start
}

/// The text from `pos` on goes on with an occurrence of which `t` symbols
/// are matched, `g` symbols of a gap having passed since the last of them.
/// This is `is_completion` read from left to right.
pub open spec fn continues(pat: Seq<u8>, k: nat, text: Seq<u8>, t: nat, g: nat, pos: nat) -> bool
    decreases text.len() - pos,
{
    if t >= pat.len() {
        true
    } else if pos >= text.len() {
        false
    } else if text[pos as int] == pat[t as int] {
        continues(pat, k, text, t + 1, 0, pos + 1)
    } else if g < k && is_base(text[pos as int] as int) {
        continues(pat, k, text, t, g + 1, pos + 1)
    } else {
        false
    }
}

/// `places` holds, from index `t` on, the places of the symbols that are
/// left of an occurrence of which `t` symbols are matched before `pos`,
/// `g` symbols of a gap having passed since the last of them.
pub open spec fn is_completion(
    pat: Seq<u8>,
    k: nat,
    text: Seq<u8>,
    t: nat,
    g: nat,
    pos: nat,
    places: Seq<int>,
) -> bool {
    &&& places.len() == pat.len()
    &&& t < pat.len() ==> pos <= places[t as int] <= pos + k - g
    &&& forall|r: int|
        t < pat.len() && pos <= r < places[t as int] ==> is_base(#[trigger] text[r] as int)
            && text[r] != pat[t as int]
    &&& forall|u: int|
        t <= u < pat.len() ==> 0 <= #[trigger] places[u] < text.len() && text[places[u]] == pat[u]
    &&& forall|u: int|
        t < u < pat.len() ==> places[u - 1] < #[trigger] places[u] <= places[u - 1] + 1 + k
    &&& forall|u: int, r: int|
        t < u < pat.len() && places[u - 1] < r < places[u] ==> is_base(#[trigger] text[r] as int)
            && text[r] != #[trigger] pat[u]
}

/// Where the text goes on with an occurrence, the symbols that are left
/// have their places.
pub proof fn lemma_continues_has_places(
    pat: Seq<u8>,
    k: nat,
    text: Seq<u8>,
    t: nat,
    g: nat,
    pos: nat,
) -> (places: Seq<int>)
    requires
        continues(pat, k, text, t, g, pos),
        g <= k,
    ensures
        is_completion(pat, k, text, t, g, pos, places),
    decreases text.len() - pos,
{
    if t >= pat.len() {
        Seq::new(pat.len(), |i: int| 0int)
    } else if text[pos as int] == pat[t as int] {
        let rest = lemma_continues_has_places(pat, k, text, t + 1, 0, pos + 1);
        let places = rest.update(t as int, pos as int);
        assert forall|u: int, r: int|
            t < u < pat.len() && places[u - 1] < r < places[u] implies is_base(
            #[trigger] text[r] as int,
        ) && text[r] != #[trigger] pat[u] by {
            if u > t + 1 {
                assert(places[u - 1] == rest[u - 1]);
            }
        }
        assert forall|u: int| t < u < pat.len() implies places[u - 1] < #[trigger] places[u]
            <= places[u - 1] + 1 + k by {
            if u > t + 1 {
                assert(rest[u - 1] < rest[u] <= rest[u - 1] + 1 + k);
            }
        }
        places
    } else {
        lemma_continues_has_places(pat, k, text, t, g + 1, pos + 1)
    }
}

/// Where the symbols that are left have their places, the text goes on
/// with the occurrence.
pub proof fn lemma_places_continue(
    pat: Seq<u8>,
    k: nat,
    text: Seq<u8>,
    t: nat,
    g: nat,
    pos: nat,
    places: Seq<int>,
)
    requires
        is_completion(pat, k, text, t, g, pos, places),
    ensures
        continues(pat, k, text, t, g, pos),
    decreases text.len() - pos,
{
    if t < pat.len() {
        assert(0 <= places[t as int] < text.len());
        if text[pos as int] == pat[t as int] {
            assert(places[t as int] == pos) by {
                if places[t as int] > pos {
                    assert(text[pos as int] != pat[t as int]);
                }
            }
            if t + 1 < pat.len() {
                let u = t as int + 1;
                assert(places[u - 1] < places[u] <= places[u - 1] + 1 + k);
            }
            lemma_places_continue(pat, k, text, t + 1, 0, pos + 1, places);
        } else {
            assert(is_base(text[pos as int] as int));
            lemma_places_continue(pat, k, text, t, g + 1, pos + 1, places);
        }
    }
}

/// An occurrence begins at `start` if and only if the first symbol of the
/// pattern stands there and the text goes on with the occurrence.
pub proof fn lemma_occurrence_continues(pat: Seq<u8>, k: nat, text: Seq<u8>, start: int)
    ensures
        occurs_with_gaps_at(pat, k, text, start) <==> pat.len() > 0 && 0 <= start < text.len()
            && text[start] == pat[0] && continues(pat, k, text, 1, 0, (start + 1) as nat),
{
    if occurs_with_gaps_at(pat, k, text, start) {
        let places = choose|places: Seq<int>| #[trigger]
            is_gapped_occurrence(pat, k, text, places) && places[0] == start;
        assert(0 <= places[0] < text.len() && text[places[0]] == pat[0]);
        if pat.len() > 1 {
            assert(places[0] < places[1] <= places[0] + 1 + k);
        }
        assert(is_completion(pat, k, text, 1, 0, (start + 1) as nat, places));
        lemma_places_continue(pat, k, text, 1, 0, (start + 1) as nat, places);
    }
    if pat.len() > 0 && 0 <= start < text.len() && text[start] == pat[0] && continues(
        pat,
        k,
        text,
        1,
        0,
        (start + 1) as nat,
    ) {
        let rest = lemma_continues_has_places(pat, k, text, 1, 0, (start + 1) as nat);
        let places = rest.update(0, start);
        assert forall|t: int| 1 <= t < pat.len() implies places[t - 1] < #[trigger] places[t]
            <= places[t - 1] + 1 + k by {
            if t > 1 {
                assert(rest[t - 1] < rest[t] <= rest[t - 1] + 1 + k);
            }
        }
        assert forall|t: int, r: int|
            1 <= t < pat.len() && places[t - 1] < r < places[t] implies is_base(
            #[trigger] text[r] as int,
        ) && text[r] != #[trigger] pat[t] by {
            if t > 1 {
                assert(places[t - 1] == rest[t - 1]);
            }
        }
        assert(is_gapped_occurrence(pat, k, text, places));
        assert(places[0] == start);
    }
}

/// The places at which occurrences with gaps begin.
pub open spec fn gapped_starts(pat: Seq<u8>, k: nat, text: Seq<u8>) -> Set<int> {
    Set::new(|start: int| occurs_with_gaps_at(pat, k, text, start))
}

/// The number of occurrences of `pat` in `text` with gaps of at most `k`.
pub open spec fn gapped_count(pat: Seq<u8>, k: nat, text: Seq<u8>) -> nat {
    gapped_starts(pat, k, text).len()
}

/// The state in which `t` symbols of the pattern are matched: 1, then 2,
/// then one past the `k` gap states that follow each such state.
pub open spec fn matched(k: nat, t: nat) -> nat
    decreases t,
{
    if t <= 1 {
        1
    } else if t == 2 {
        2
    } else {
        matched(k, (t - 1) as nat) + k + 1
    }
}

/// The state in which `t` symbols are matched and `g` symbols of a gap
/// have passed since: the gap states of `t` follow the state of `t + 1`.
pub open spec fn gap_state(k: nat, t: nat, g: nat) -> nat {
    if g == 0 {
        matched(k, t)
    } else {
        matched(k, t + 1) + g
    }
}

/// The number of states for a pattern of `m` symbols.
pub open spec fn state_count(k: nat, m: nat) -> nat {
    if m <= 1 {
        2
    } else {
        matched(k, m) + k + 1
    }
}

/// What a row holds under `c`: `on_symbol` under the symbol `p`, `on_base`
/// under the other bases, and no transition under the rest.
pub open spec fn row_entry(c: int, p: int, on_symbol: int, on_base: int) -> int {
    if c == p {
        on_symbol
    } else if is_base(c) {
        on_base
    } else {
        FAIL as int
    }
}

/// Row `s` of the table holds `row_entry` throughout.
pub open spec fn row_has(dfa: Seq<Vec<i32>>, s: int, p: int, on_symbol: int, on_base: int) -> bool {
    forall|c: int| 0 <= c < ASIZE ==> #[trigger] dfa[s]@[c] == row_entry(c, p, on_symbol, on_base)
}

/// Row `s` of the table holds no transition.
pub open spec fn row_fails(dfa: Seq<Vec<i32>>, s: int) -> bool {
    forall|c: int| 0 <= c < ASIZE ==> #[trigger] dfa[s]@[c] == FAIL
}

/// What the row of `t` matched symbols and `g` gap symbols holds: on to
/// the next matched state under the next symbol of the pattern, on to the
/// next gap state under another base while the gap may grow.
pub open spec fn gap_row(dfa: Seq<Vec<i32>>, pat: Seq<u8>, k: nat, t: nat, g: nat) -> bool {
    row_has(
        dfa,
        gap_state(k, t, g) as int,
        pat[t as int] as int,
        matched(k, t + 1) as int,
        if g < k {
            gap_state(k, t, g + 1) as int
        } else {
            FAIL as int
        },
    )
}

/// `dfa` is the table for `pat` with gaps of at most `k`.
pub open spec fn is_gap_table(dfa: Seq<Vec<i32>>, pat: Seq<u8>, k: nat) -> bool {
    &&& pat.len() >= 1
    &&& dfa.len() == state_count(k, pat.len())
    &&& forall|s: int| 0 <= s < dfa.len() ==> (#[trigger] dfa[s])@.len() == ASIZE
    &&& row_has(dfa, 0, pat[0] as int, 1, FAIL as int)
    &&& forall|t: nat, g: nat| 1 <= t < pat.len() && g <= k ==> #[trigger] gap_row(dfa, pat, k, t, g)
    &&& row_fails(dfa, matched(k, pat.len()) as int)
}

/// The state in which the table, begun in `state` at `pos`, comes to a
/// stop: at the end of the text or where there is no transition.
pub open spec fn run_from(dfa: Seq<Vec<i32>>, text: Seq<u8>, state: int, pos: nat) -> int
    decreases text.len() - pos,
{
    if pos < text.len() && 0 <= state < dfa.len() && dfa[state]@[text[pos as int] as int] != FAIL {
        run_from(dfa, text, dfa[state]@[text[pos as int] as int] as int, pos + 1)
    } else {
        state
    }
}

/// The matched states rise with the number of matched symbols, and the
/// gap states of one number lie between two of them.
pub proof fn lemma_matched_rises(k: nat, t: nat, u: nat)
    requires
        1 <= t < u,
    ensures
        matched(k, t) < matched(k, u),
        t + 1 < u ==> matched(k, t + 1) + k < matched(k, u),
    decreases u,
{
    if t + 1 < u {
        lemma_matched_rises(k, t, (u - 1) as nat);
    }
}

/// The state count in one formula.
pub proof fn lemma_state_count(k: nat, m: nat)
    requires
        m >= 1,
    ensures
        state_count(k, m) == 1 + m + k * (m - 1),
    decreases m,
{
    if m == 1 {
        assert(k * 0 == 0) by (nonlinear_arith);
    } else if m == 2 {
        assert(k * 1 == k) by (nonlinear_arith);
    } else {
        lemma_state_count(k, (m - 1) as nat);
        assert(k * (m - 1) == k * (m - 2) + k) by (nonlinear_arith);
    }
}

/// Every state of a pattern lies within the table, and only the state of
/// the whole pattern is the last matched state.
pub proof fn lemma_gap_state_range(k: nat, m: nat, t: nat, g: nat)
    requires
        1 <= t <= m,
        g <= k,
        t == m ==> g == 0,
    ensures
        1 <= gap_state(k, t, g) < state_count(k, m),
        gap_state(k, t, g) == matched(k, m) <==> t == m,
{
    if t < m {
        lemma_matched_rises(k, t, m);
        if t + 1 < m {
            lemma_matched_rises(k, t + 1, m);
        }
    }
}

/// From the state of `t` matched symbols and `g` gap symbols the table
/// comes to a stop in the state of the whole pattern if and only if the
/// text goes on with the occurrence.
pub proof fn lemma_run_continues(
    dfa: Seq<Vec<i32>>,
    pat: Seq<u8>,
    k: nat,
    text: Seq<u8>,
    t: nat,
    g: nat,
    pos: nat,
)
    requires
        is_gap_table(dfa, pat, k),
        1 <= t <= pat.len(),
        g <= k,
        t == pat.len() ==> g == 0,
    ensures
        run_from(dfa, text, gap_state(k, t, g) as int, pos) == matched(k, pat.len()) <==> continues(
            pat,
            k,
            text,
            t,
            g,
            pos,
        ),
    decreases text.len() - pos,
{
    let m = pat.len();
    let s = gap_state(k, t, g) as int;
    lemma_gap_state_range(k, m, t, g);
    if t == m {
        if pos < text.len() {
            assert(dfa[s]@[text[pos as int] as int] == FAIL);
        }
    } else if pos < text.len() {
        let c = text[pos as int] as int;
        assert(gap_row(dfa, pat, k, t, g));
        assert(dfa[s]@[c] == row_entry(
            c,
            pat[t as int] as int,
            matched(k, t + 1) as int,
            if g < k {
                gap_state(k, t, g + 1) as int
            } else {
                FAIL as int
            },
        ));
        if c == pat[t as int] {
            lemma_run_continues(dfa, pat, k, text, t + 1, 0, pos + 1);
        } else if g < k && is_base(c) {
            lemma_run_continues(dfa, pat, k, text, t, g + 1, pos + 1);
        }
    }
}

/// From the first state at `start` the table comes to a stop in the state
/// of the whole pattern if and only if an occurrence begins at `start`.
pub proof fn lemma_run_occurs(dfa: Seq<Vec<i32>>, pat: Seq<u8>, k: nat, text: Seq<u8>, start: nat)
    requires
        is_gap_table(dfa, pat, k),
    ensures
        run_from(dfa, text, 0, start) == matched(k, pat.len()) <==> occurs_with_gaps_at(
            pat,
            k,
            text,
            start as int,
        ),
{
    lemma_occurrence_continues(pat, k, text, start as int);
    if start < text.len() {
        let c = text[start as int] as int;
        assert(dfa[0]@[c] == row_entry(c, pat[0] as int, 1, FAIL as int));
        if c == pat[0] {
            lemma_run_continues(dfa, pat, k, text, 1, 0, start + 1);
        }
    }
}

/// An occurrence takes at least as many symbols as the pattern has.
pub proof fn lemma_continues_needs_room(
    pat: Seq<u8>,
    k: nat,
    text: Seq<u8>,
    t: nat,
    g: nat,
    pos: nat,
)
    requires
        continues(pat, k, text, t, g, pos),
        t <= pat.len(),
    ensures
        pos + (pat.len() - t) <= text.len() || t == pat.len(),
    decreases text.len() - pos,
{
    if t < pat.len() {
        if text[pos as int] == pat[t as int] {
            lemma_continues_needs_room(pat, k, text, t + 1, 0, pos + 1);
        } else {
            lemma_continues_needs_room(pat, k, text, t, g + 1, pos + 1);
        }
    }
}

/// `c` is one of the first `a` bases of the alphabet.
pub open spec fn among_first(c: int, a: int) -> bool {
    (a > 0 && c == 65) || (a > 1 && c == 67) || (a > 2 && c == 71) || (a > 3 && c == 84)
}

/// The states of fewer matched symbols lie below the gap states of `t`
/// and are none of its matched states.
pub proof fn lemma_earlier_states(k: nat, t: nat, g: nat, i: nat)
    requires
        1 <= t < i,
        g <= k,
    ensures
        gap_state(k, t, g) != matched(k, i),
        gap_state(k, t, g) < matched(k, i + 1),
{
    lemma_matched_rises(k, t, i);
    lemma_matched_rises(k, t, i + 1);
    if t + 1 < i {
        lemma_matched_rises(k, t + 1, i);
    }
    lemma_matched_rises(k, i, i + 1);
}

/// Builds in `dfa` the table for the first `m` symbols of `pattern` with
/// gaps of at most `k`, and returns the state of the whole pattern.
pub fn create_dfa(pattern: &[u8], m: usize, k: u32, dfa: &mut Vec<Vec<i32>>) -> (terminal: usize)
    requires
        1 <= m <= pattern@.len(),
        old(dfa)@.len() == 0,
        1 + m + k * (m - 1) <= i32::MAX,
    ensures
        is_gap_table(final(dfa)@, pattern@.take(m as int), k as nat),
        terminal == matched(k as nat, m as nat),
{
    let ghost p = pattern@.take(m as int);
    let ghost kk = k as nat;
    proof {
        lemma_state_count(kk, m as nat);
        if m >= 2 {
            assert(k * (m - 1) >= k) by (nonlinear_arith)
                requires
                    m >= 2,
                    k >= 0,
            ;
        }
    }
    let max_states: usize = 1 + m + k as usize * (m - 1);

    let mut allocated: usize = 0;
    while allocated < max_states
        invariant
            allocated <= max_states,
            dfa@.len() == allocated,
            forall|s: int| 0 <= s < dfa@.len() ==> (#[trigger] dfa@[s])@.len() == ASIZE,
            forall|s: int| 0 <= s < dfa@.len() ==> row_fails(dfa@, s),
        decreases max_states - allocated,
    {
        let ghost before = dfa@;
        dfa.push(vec![FAIL; ASIZE]);
        proof {
            assert forall|s: int| 0 <= s < dfa@.len() implies row_fails(dfa@, s) by {
                if s < before.len() {
                    assert(row_fails(before, s));
                    assert(dfa@[s] == before[s]);
                }
            }
        }
        allocated += 1;
    }

    let ghost empty = dfa@;
    dfa[0][pattern[0] as usize] = 1;
    proof {
        assert(row_has(dfa@, 0, p[0] as int, 1, FAIL as int)) by {
            assert(row_fails(empty, 0));
        }
        assert forall|s: int| 1 <= s < dfa@.len() implies row_fails(dfa@, s) by {
            assert(row_fails(empty, s));
            assert(dfa@[s] == empty[s]);
        }
    }

    let mut state: usize = 1;
    let mut new_state: usize = 1;

    let mut i: usize = 1;
    while i < m
        invariant
            1 <= i <= m <= pattern@.len(),
            p == pattern@.take(m as int),
            kk == k as nat,
            m >= 2 ==> k <= i32::MAX,
            dfa@.len() == state_count(kk, m as nat),
            dfa@.len() <= i32::MAX,
            forall|s: int| 0 <= s < dfa@.len() ==> (#[trigger] dfa@[s])@.len() == ASIZE,
            state == matched(kk, i as nat),
            new_state == if i == 1 {
                1
            } else {
                matched(kk, i as nat) + kk
            },
            row_has(dfa@, 0, p[0] as int, 1, FAIL as int),
            forall|t: nat, g: nat| 1 <= t < i && g <= kk ==> #[trigger] gap_row(dfa@, p, kk, t, g),
            row_fails(dfa@, state as int),
            forall|s: int| new_state < s < dfa@.len() ==> row_fails(dfa@, s),
        decreases m - i,
    {
        let ghost at_head = dfa@;
        let ghost top = new_state;
        proof {
            lemma_gap_state_range(kk, m as nat, i as nat, 0);
            lemma_matched_rises(kk, i as nat, m as nat);
            if i + 1 < m {
                lemma_matched_rises(kk, (i + 1) as nat, m as nat);
            }
        }
        new_state += 1;
        let symbol = pattern[i];
        assert(new_state == matched(kk, (i + 1) as nat));
        dfa[state][symbol as usize] = new_state as i32;
        let mut last_state = state;
        proof {
            assert(row_has(dfa@, state as int, symbol as int, new_state as int, FAIL as int)) by {
                assert(row_fails(at_head, state as int));
            }
            assert forall|s: int| top < s < dfa@.len() implies row_fails(dfa@, s) by {
                assert(row_fails(at_head, s));
                assert(dfa@[s] == at_head[s]);
            }
            assert forall|t: nat, g: nat| 1 <= t < i && g <= kk implies #[trigger] gap_row(
                dfa@,
                p,
                kk,
                t,
                g,
            ) by {
                lemma_earlier_states(kk, t, g, i as nat);
                assert(gap_row(at_head, p, kk, t, g));
                assert(dfa@[gap_state(kk, t, g) as int] == at_head[gap_state(kk, t, g) as int]);
            }
            assert(row_has(dfa@, 0, p[0] as int, 1, FAIL as int)) by {
                assert(dfa@[0] == at_head[0]);
            }
        }

        let mut j: u32 = 1;
        while j <= k
            invariant
                1 <= i < m <= pattern@.len(),
                p == pattern@.take(m as int),
                kk == k as nat,
                k <= i32::MAX,
                symbol == p[i as int],
                1 <= j <= k + 1,
                dfa@.len() == state_count(kk, m as nat),
                dfa@.len() <= i32::MAX,
                forall|s: int| 0 <= s < dfa@.len() ==> (#[trigger] dfa@[s])@.len() == ASIZE,
                state == matched(kk, i as nat),
                new_state == matched(kk, (i + 1) as nat),
                new_state + kk < dfa@.len(),
                last_state == gap_state(kk, i as nat, (j - 1) as nat),
                row_has(dfa@, 0, p[0] as int, 1, FAIL as int),
                forall|t: nat, g: nat|
                    1 <= t < i && g <= kk ==> #[trigger] gap_row(dfa@, p, kk, t, g),
                forall|g: nat| g + 1 < j ==> #[trigger] gap_row(dfa@, p, kk, i as nat, g),
                row_has(dfa@, last_state as int, symbol as int, new_state as int, FAIL as int),
                row_fails(dfa@, new_state as int),
                forall|s: int| new_state + (j - 1) < s < dfa@.len() ==> row_fails(dfa@, s),
            decreases k + 1 - j,
        {
            let ghost before = dfa@;
            let target = new_state + j as usize;
            dfa[target][symbol as usize] = new_state as i32;
            let ghost marked = dfa@;
            proof {
                assert(row_has(marked, target as int, symbol as int, new_state as int, FAIL as int))
                    by {
                    assert(row_fails(before, target as int));
                }
                assert(marked[last_state as int] == before[last_state as int]);
            }
            let mut a: usize = 0;
            while a < 4
                invariant
                    a <= 4,
                    last_state != target,
                    last_state < dfa@.len(),
                    dfa@.len() == marked.len(),
                    target < dfa@.len() <= i32::MAX,
                    forall|s: int| 0 <= s < dfa@.len() ==> (#[trigger] dfa@[s])@.len() == ASIZE,
                    forall|s: int|
                        0 <= s < dfa@.len() && s != last_state ==> #[trigger] dfa@[s] == marked[s],
                    forall|c: int|
                        0 <= c < ASIZE ==> #[trigger] dfa@[last_state as int]@[c] == row_entry(
                            c,
                            symbol as int,
                            new_state as int,
                            if among_first(c, a as int) {
                                target as int
                            } else {
                                FAIL as int
                            },
                        ),
                decreases 4 - a,
            {
                let n = ALPHABET[a];
                if n != symbol as usize {
                    dfa[last_state][n] = target as i32;
                }
                a += 1;
            }
            proof {
                let g = (j - 1) as nat;
                assert(gap_state(kk, i as nat, g + 1) == target);
                assert(gap_row(dfa@, p, kk, i as nat, g)) by {
                    assert forall|c: int| 0 <= c < ASIZE implies #[trigger] dfa@[last_state as int]@[c]
                        == row_entry(c, symbol as int, new_state as int, target as int) by {
                        assert(is_base(c) <==> among_first(c, 4));
                    }
                }
                assert forall|h: nat| h + 1 < j + 1 implies #[trigger] gap_row(
                    dfa@,
                    p,
                    kk,
                    i as nat,
                    h,
                ) by {
                    if h + 1 < j {
                        assert(gap_row(before, p, kk, i as nat, h));
                        let s = gap_state(kk, i as nat, h) as int;
                        assert(s != last_state && s != target);
                        assert(dfa@[s] == marked[s]);
                        assert(marked[s] == before[s]);
                    }
                }
                assert forall|t: nat, h: nat| 1 <= t < i && h <= kk implies #[trigger] gap_row(
                    dfa@,
                    p,
                    kk,
                    t,
                    h,
                ) by {
                    lemma_earlier_states(kk, t, h, i as nat);
                    assert(gap_row(before, p, kk, t, h));
                    let s = gap_state(kk, t, h) as int;
                    assert(dfa@[s] == marked[s]);
                    assert(marked[s] == before[s]);
                }
                assert(row_has(dfa@, 0, p[0] as int, 1, FAIL as int)) by {
                    assert(dfa@[0] == marked[0]);
                    assert(marked[0] == before[0]);
                }
                assert(row_has(dfa@, target as int, symbol as int, new_state as int, FAIL as int))
                    by {
                    assert(dfa@[target as int] == marked[target as int]);
                }
                assert(row_fails(dfa@, new_state as int)) by {
                    assert(row_fails(before, new_state as int));
                    assert(dfa@[new_state as int] == marked[new_state as int]);
                    assert(marked[new_state as int] == before[new_state as int]);
                }
                assert forall|s: int| new_state + j < s < dfa@.len() implies row_fails(dfa@, s) by {
                    assert(row_fails(before, s));
                    assert(dfa@[s] == marked[s]);
                    assert(marked[s] == before[s]);
                }
            }
            last_state = target;
            j += 1;
        }
        proof {
            assert forall|t: nat, g: nat| 1 <= t < i + 1 && g <= kk implies #[trigger] gap_row(
                dfa@,
                p,
                kk,
                t,
                g,
            ) by {
                if t == i && g == kk {
                    assert(last_state == gap_state(kk, i as nat, kk));
                }
            }
        }
        state = new_state;
        new_state += k as usize;
        i += 1;
    }

    state
}

/// `pat_data` is what preparing `pat` for gaps of at most `k` yields: the
/// table, the state of the whole pattern, and the length of the pattern.
pub open spec fn is_gap_data(pat_data: Seq<ApproxPatternData>, pat: Seq<u8>, k: nat) -> bool {
    &&& pat_data.len() == 3
    &&& pat_data[0] matches ApproxPatternData::PatternIntVecVec(dfa)
    &&& pat_data[1] matches ApproxPatternData::PatternUsize(terminal)
    &&& pat_data[2] matches ApproxPatternData::PatternUsize(m)
    &&& is_gap_table(dfa@, pat, k)
    &&& terminal == matched(k, pat.len())
    &&& m == pat.len()
}

/// Prepares `pattern` for the scan with gaps of at most `k`.
pub fn init_dfa_gap(pattern: &[u8], k: u32) -> (pattern_data: Vec<ApproxPatternData>)
    requires
        pattern@.len() >= 1,
        1 + pattern@.len() + k * (pattern@.len() - 1) <= i32::MAX,
    ensures
        is_gap_data(pattern_data@, pattern@, k as nat),
{
    let mut pattern_data: Vec<ApproxPatternData> = Vec::with_capacity(3);

    let mut dfa: Vec<Vec<i32>> = Vec::new();
    let m = pattern.len();
    let terminal = create_dfa(pattern, m, k, &mut dfa);
    proof {
        assert(pattern@.take(m as int) =~= pattern@);
    }

    pattern_data.push(ApproxPatternData::PatternIntVecVec(dfa));
    pattern_data.push(ApproxPatternData::PatternUsize(terminal));
    pattern_data.push(ApproxPatternData::PatternUsize(m));

    pattern_data
}

/// The places below `limit` from which the table comes to a stop in the
/// state `terminal`.
pub open spec fn stops_below(dfa: Seq<Vec<i32>>, text: Seq<u8>, terminal: int, limit: int) -> Set<
    int,
> {
    Set::new(|start: int| 0 <= start < limit && run_from(dfa, text, 0, start as nat) == terminal)
}

/// There are no more such places than places below `limit`, and one more
/// place adds itself if the table stops in `terminal` from it.
pub proof fn lemma_stops_below(dfa: Seq<Vec<i32>>, text: Seq<u8>, terminal: int, limit: int)
    requires
        0 <= limit,
    ensures
        stops_below(dfa, text, terminal, limit).finite(),
        stops_below(dfa, text, terminal, limit).len() <= limit,
        stops_below(dfa, text, terminal, 0).len() == 0,
        stops_below(dfa, text, terminal, limit + 1).len() == stops_below(
            dfa,
            text,
            terminal,
            limit,
        ).len() + if run_from(dfa, text, 0, limit as nat) == terminal {
            1nat
        } else {
            0nat
        },
{
    let below = stops_below(dfa, text, terminal, limit);
    let next = stops_below(dfa, text, terminal, limit + 1);
    let all = vstd::set_lib::set_int_range(0, limit);
    vstd::set_lib::lemma_int_range(0, limit);
    assert(below.subset_of(all));
    vstd::set_lib::lemma_len_subset(below, all);
    assert(stops_below(dfa, text, terminal, 0) =~= Set::<int>::empty());
    if run_from(dfa, text, 0, limit as nat) == terminal {
        assert(next =~= below.insert(limit));
    } else {
        assert(next =~= below);
    }
}

/// For the table of `pat` the places from which it stops in the state of
/// the whole pattern are the places at which occurrences begin.
pub proof fn lemma_stops_are_starts(
    dfa: Seq<Vec<i32>>,
    pat: Seq<u8>,
    k: nat,
    text: Seq<u8>,
    limit: int,
)
    requires
        is_gap_table(dfa, pat, k),
        limit >= 0,
        limit + pat.len() > text.len(),
    ensures
        stops_below(dfa, text, matched(k, pat.len()) as int, limit) == gapped_starts(pat, k, text),
{
    let stops = stops_below(dfa, text, matched(k, pat.len()) as int, limit);
    let starts = gapped_starts(pat, k, text);
    assert forall|start: int| stops.contains(start) <==> starts.contains(start) by {
        if start >= 0 {
            lemma_run_occurs(dfa, pat, k, text, start as nat);
        }
        if occurs_with_gaps_at(pat, k, text, start) {
            lemma_occurrence_continues(pat, k, text, start);
            lemma_continues_needs_room(pat, k, text, 1, 0, (start + 1) as nat);
        }
    }
    assert(stops =~= starts);
}

/// Counts the occurrences of the prepared pattern, with the gaps that it
/// was prepared for, in `sequence`. A sequence shorter than the pattern
/// holds none.
pub fn dfa_gap(pat_data: &[ApproxPatternData], sequence: &[u8]) -> (matches: i32)
    requires
        exists|pat: Seq<u8>, k: nat| is_gap_data(pat_data@, pat, k),
        sequence@.len() <= i32::MAX,
    ensures
        forall|pat: Seq<u8>, k: nat| #[trigger]
            is_gap_data(pat_data@, pat, k) ==> matches == gapped_count(pat, k, sequence@),
{
    let ghost (pat, k) = choose|pat: Seq<u8>, k: nat| is_gap_data(pat_data@, pat, k);
    let dfa = match &pat_data[0] {
        ApproxPatternData::PatternIntVecVec(val) => val,
        _ => unreached(),
    };
    let terminal = match &pat_data[1] {
        ApproxPatternData::PatternUsize(val) => *val,
        _ => unreached(),
    };
    let m = match &pat_data[2] {
        ApproxPatternData::PatternUsize(val) => *val,
        _ => unreached(),
    };

    let mut matches: i32 = 0;
    let n = sequence.len();
    let ghost text = sequence@;

    let mut i: usize = 0;
    proof {
        lemma_stops_below(dfa@, text, terminal as int, 0);
    }
    while i + m <= n
        invariant
            i <= n == text.len(),
            i <= n - m + 1 || i == 0,
            text == sequence@,
            n <= i32::MAX,
            m == pat.len(),
            m >= 1,
            is_gap_table(dfa@, pat, k),
            terminal == matched(k, pat.len()),
            matches == stops_below(dfa@, text, terminal as int, i as int).len(),
            matches <= i,
        decreases n - i,
    {
        let mut state: usize = 0;
        let mut ch: usize = 0;
        let ghost mut t: nat = 0;
        let ghost mut g: nat = 0;

        proof {
            lemma_gap_state_range(k, m as nat, m as nat, 0);
        }
        while (i + ch) < n && dfa[state][sequence[i + ch] as usize] != FAIL
            invariant
                i + ch <= n == text.len(),
                text == sequence@,
                m == pat.len(),
                is_gap_table(dfa@, pat, k),
                state < dfa@.len(),
                t == 0 ==> state == 0 && ch == 0,
                t > 0 ==> 1 <= t <= m && g <= k && (t == m ==> g == 0) && state == gap_state(k, t, g),
                run_from(dfa@, text, state as int, (i + ch) as nat) == run_from(
                    dfa@,
                    text,
                    0,
                    i as nat,
                ),
            decreases n - (i + ch),
        {
            let ghost c = text[i + ch] as int;
            proof {
                if t == 0 {
                    assert(dfa@[0]@[c] == row_entry(c, pat[0] as int, 1, FAIL as int));
                    lemma_gap_state_range(k, m as nat, 1, 0);
                    t = 1;
                    g = 0;
                } else {
                    if t == m {
                        assert(row_fails(dfa@, state as int));
                        assert(dfa@[state as int]@[c] == FAIL);
                    }
                    assert(gap_row(dfa@, pat, k, t, g));
                    assert(dfa@[state as int]@[c] == row_entry(
                        c,
                        pat[t as int] as int,
                        matched(k, t + 1) as int,
                        if g < k {
                            gap_state(k, t, g + 1) as int
                        } else {
                            FAIL as int
                        },
                    ));
                    if c == pat[t as int] {
                        t = t + 1;
                        g = 0;
                    } else {
                        g = g + 1;
                    }
                    lemma_gap_state_range(k, m as nat, t, g);
                }
            }
            state = dfa[state][sequence[i + ch] as usize] as usize;
            ch += 1;
        }

        proof {
            lemma_stops_below(dfa@, text, terminal as int, i as int);
        }
        if state == terminal {
            matches += 1;
        }
        i += 1;
    }

    proof {
        assert forall|other: Seq<u8>, j: nat| #[trigger] is_gap_data(pat_data@, other, j) implies matches
            == gapped_count(other, j, sequence@) by {
            lemma_stops_are_starts(dfa@, other, j, text, i as int);
        }
    }
    matches
}

} // verus!

//! The mathematical model of the automaton: its states are the distinct
//! prefixes of the patterns, numbered in the order in which entering the
//! patterns one after another meets them.

use crate::occurrence::{
    is_suffix, lemma_suffix_push, lemma_suffix_transitive, lemma_suffixes_nest,
};
use vstd::prelude::*;

verus! {

/// Number of symbols: one slot per byte value in every transition row.
pub const ASIZE: usize = 256;

/// The entry of a transition row that stands for "no transition".
pub const FAIL: i32 = -1;

/// `labels` after the prefixes of `pat` of lengths 1 to `n` were looked up
/// in turn and each one that was missing was appended.
pub open spec fn add_prefixes(labels: Seq<Seq<u8>>, pat: Seq<u8>, n: nat) -> Seq<Seq<u8>>
    decreases n,
{
    if n == 0 {
        labels
    } else {
        let shorter = add_prefixes(labels, pat, (n - 1) as nat);
        if shorter.contains(pat.take(n as int)) {
            shorter
        } else {
            shorter.push(pat.take(n as int))
        }
    }
}

/// The label of every state of the automaton for `pats`: state 0 is the
/// empty word, and the others are the non-empty prefixes of the patterns,
/// each once, in the order of their first appearance.
pub open spec fn trie_labels(pats: Seq<Seq<u8>>) -> Seq<Seq<u8>>
    decreases pats.len(),
{
    if pats.len() == 0 {
        seq![Seq::<u8>::empty()]
    } else {
        add_prefixes(trie_labels(pats.drop_last()), pats.last(), pats.last().len())
    }
}

/// State `k` has a non-empty label, and the label without its last symbol
/// belongs to an earlier state.
pub open spec fn has_parent(labels: Seq<Seq<u8>>, k: int) -> bool {
    labels[k].len() > 0 && exists|j: int|
        0 <= j < k && #[trigger] labels[j] == labels[k].drop_last()
}

/// The earlier state whose label is that of `k` without its last symbol.
pub open spec fn parent(labels: Seq<Seq<u8>>, k: int) -> int {
    choose|j: int| 0 <= j < k && #[trigger] labels[j] == labels[k].drop_last()
}

/// `labels` is a state numbering of a trie: the root comes first and is
/// the empty word, no word stands twice, and every other state follows its
/// parent.
pub open spec fn labels_wf(labels: Seq<Seq<u8>>) -> bool {
    &&& labels.len() >= 1
    &&& labels[0].len() == 0
    &&& forall|i: int, j: int|
        0 <= i < labels.len() && 0 <= j < labels.len() && i != j ==> labels[i] != labels[j]
    &&& forall|k: int| 1 <= k < labels.len() ==> #[trigger] has_parent(labels, k)
}

/// What row `s` holds under symbol `c`: the state whose label is that of
/// `s` extended by `c` where there is one, else 0 in the root of a complete
/// table, else `FAIL`.
pub open spec fn is_goto_entry(labels: Seq<Seq<u8>>, s: int, c: u8, t: int, complete: bool) -> bool {
    if t > 0 {
        t < labels.len() && labels[t] == labels[s].push(c)
    } else {
        &&& !labels.contains(labels[s].push(c))
        &&& t == if s == 0 && complete {
            0int
        } else {
            FAIL as int
        }
    }
}

/// `goto` is the transition table of the trie numbered by `labels`. While
/// the trie is being built the table is not `complete`: the root lacks the
/// transitions to itself.
pub open spec fn is_goto_table(goto: Seq<Vec<i32>>, labels: Seq<Seq<u8>>, complete: bool) -> bool {
    &&& goto.len() == labels.len()
    &&& forall|s: int| 0 <= s < goto.len() ==> (#[trigger] goto[s])@.len() == ASIZE
    &&& forall|s: int, c: int|
        0 <= s < goto.len() && 0 <= c < ASIZE ==> is_goto_entry(
            labels,
            s,
            c as u8,
            #[trigger] goto[s]@[c] as int,
            complete,
        )
}

/// State `s` stands for the longest suffix of `text` that is a label.
pub open spec fn is_longest_suffix_state(labels: Seq<Seq<u8>>, text: Seq<u8>, s: int) -> bool {
    &&& 0 <= s < labels.len()
    &&& is_suffix(labels[s], text)
    &&& forall|k: int|
        0 <= k < labels.len() && is_suffix(#[trigger] labels[k], text) ==> labels[k].len()
            <= labels[s].len()
}

/// `failure` maps the root to itself and every other state to the state of
/// the longest proper suffix of its label that is a label.
pub open spec fn is_failure_table(failure: Seq<usize>, labels: Seq<Seq<u8>>) -> bool {
    &&& failure.len() == labels.len()
    &&& failure[0] == 0
    &&& forall|s: int|
        1 <= s < labels.len() ==> is_longest_suffix_state(
            labels,
            labels[s].skip(1),
            #[trigger] failure[s] as int,
        )
}

/// Every prefix of a label is a label.
pub proof fn lemma_prefix_closed(labels: Seq<Seq<u8>>, k: int, m: int)
    requires
        labels_wf(labels),
        0 <= k < labels.len(),
        0 <= m <= labels[k].len(),
    ensures
        labels.contains(labels[k].take(m)),
    decreases k,
{
    if m == labels[k].len() {
        assert(labels[k].take(m) =~= labels[k]);
    } else {
        assert(has_parent(labels, k));
        let j = parent(labels, k);
        assert(labels[j].take(m) =~= labels[k].take(m));
        lemma_prefix_closed(labels, j, m);
    }
}

/// Appending the missing prefixes of a pattern keeps a numbering well
/// formed, keeps the old states in place, and afterwards every prefix up to
/// length `n` is a label.
pub proof fn lemma_add_prefixes(labels: Seq<Seq<u8>>, pat: Seq<u8>, n: nat)
    requires
        labels_wf(labels),
        n <= pat.len(),
    ensures
        labels_wf(add_prefixes(labels, pat, n)),
        labels.len() <= add_prefixes(labels, pat, n).len() <= labels.len() + n,
        add_prefixes(labels, pat, n).take(labels.len() as int) == labels,
        forall|m: int| 0 <= m <= n ==> add_prefixes(labels, pat, n).contains(#[trigger] pat.take(m)),
    decreases n,
{
    let grown = add_prefixes(labels, pat, n);
    if n == 0 {
        assert(grown.take(labels.len() as int) =~= labels);
        assert(pat.take(0) =~= labels[0]);
    } else {
        let shorter = add_prefixes(labels, pat, (n - 1) as nat);
        lemma_add_prefixes(labels, pat, (n - 1) as nat);
        let w = pat.take(n as int);
        assert(grown.take(labels.len() as int) =~= shorter.take(labels.len() as int));
        if shorter.contains(w) {
        } else {
            let k = shorter.len() as int;
            assert(grown[k] == w);
            assert forall|i: int| 0 <= i < grown.len() implies grown[i] == if i < k {
                shorter[i]
            } else {
                w
            } by {}
            assert forall|i: int, j: int|
                0 <= i < grown.len() && 0 <= j < grown.len() && i != j implies grown[i]
                != grown[j] by {
                if i == k {
                    assert(shorter[j] != w);
                } else if j == k {
                    assert(shorter[i] != w);
                }
            }
            assert forall|s: int| 1 <= s < grown.len() implies #[trigger] has_parent(grown, s) by {
                if s < k {
                    assert(has_parent(shorter, s));
                    let j = parent(shorter, s);
                    assert(grown[j] == grown[s].drop_last());
                } else {
                    assert(w.drop_last() =~= pat.take(n - 1));
                    assert(shorter.contains(pat.take(n - 1)));
                    let j = choose|j: int| 0 <= j < shorter.len() && shorter[j] == pat.take(n - 1);
                    assert(grown[j] == grown[s].drop_last());
                }
            }
            assert forall|m: int| 0 <= m <= n implies grown.contains(#[trigger] pat.take(m)) by {
                if m < n {
                    assert(shorter.contains(pat.take(m)));
                    let j = choose|j: int| 0 <= j < shorter.len() && shorter[j] == pat.take(m);
                    assert(grown[j] == pat.take(m));
                } else {
                    assert(grown[k] == pat.take(m));
                }
            }
        }
    }
}

/// The numbering of the automaton for `pats` is well formed and holds
/// every prefix of every pattern, the patterns themselves among them.
pub proof fn lemma_trie_labels(pats: Seq<Seq<u8>>)
    ensures
        labels_wf(trie_labels(pats)),
        forall|i: int, m: int|
            0 <= i < pats.len() && 0 <= m <= pats[i].len() ==> trie_labels(pats).contains(
                #[trigger] pats[i].take(m),
            ),
        forall|i: int| 0 <= i < pats.len() ==> trie_labels(pats).contains(#[trigger] pats[i]),
    decreases pats.len(),
{
    let labels = trie_labels(pats);
    if pats.len() == 0 {
    } else {
        let before = trie_labels(pats.drop_last());
        let pat = pats.last();
        lemma_trie_labels(pats.drop_last());
        lemma_add_prefixes(before, pat, pat.len());
        assert forall|i: int, m: int| 0 <= i < pats.len() && 0 <= m <= pats[i].len() implies labels.contains(
            #[trigger] pats[i].take(m),
        ) by {
            if i < pats.len() - 1 {
                assert(pats.drop_last()[i] == pats[i]);
                assert(before.contains(pats[i].take(m)));
                let j = choose|j: int| 0 <= j < before.len() && before[j] == pats[i].take(m);
                assert(labels.take(before.len() as int)[j] == labels[j]);
            }
        }
        assert forall|i: int| 0 <= i < pats.len() implies labels.contains(#[trigger] pats[i]) by {
            assert(pats[i].take(pats[i].len() as int) =~= pats[i]);
        }
    }
}

/// A transition table belongs to one numbering only.
pub proof fn lemma_labels_unique(
    goto: Seq<Vec<i32>>,
    first: Seq<Seq<u8>>,
    second: Seq<Seq<u8>>,
    complete: bool,
)
    requires
        labels_wf(first),
        labels_wf(second),
        is_goto_table(goto, first, complete),
        is_goto_table(goto, second, complete),
    ensures
        first == second,
{
    assert forall|k: int| 0 <= k < first.len() implies first[k] == second[k] by {
        lemma_same_label(goto, first, second, complete, k);
    }
    assert(first =~= second);
}

/// Two numberings of one table give state `k` the same label: they give
/// its parent the same, and the table says which symbol follows.
proof fn lemma_same_label(
    goto: Seq<Vec<i32>>,
    first: Seq<Seq<u8>>,
    second: Seq<Seq<u8>>,
    complete: bool,
    k: int,
)
    requires
        labels_wf(first),
        labels_wf(second),
        is_goto_table(goto, first, complete),
        is_goto_table(goto, second, complete),
        0 <= k < first.len(),
    ensures
        first[k] == second[k],
    decreases k,
{
    if k == 0 {
        assert(first[0] =~= second[0]);
    } else {
        assert(has_parent(first, k));
        let j = parent(first, k);
        let c = first[k].last();
        lemma_same_label(goto, first, second, complete, j);
        assert(first[k] =~= first[j].push(c));
        let t = goto[j]@[c as int] as int;
        assert(is_goto_entry(first, j, c as int as u8, t, complete));
        assert(is_goto_entry(second, j, c as int as u8, t, complete));
        assert(t == k);
    }
}

/// Once one prefix of `pat` is no label, no longer prefix is one.
pub proof fn lemma_no_longer_prefix(labels: Seq<Seq<u8>>, pat: Seq<u8>, j: int)
    requires
        labels_wf(labels),
        0 <= j <= pat.len(),
        !labels.contains(pat.take(j)),
    ensures
        forall|m: int| j <= m <= pat.len() ==> !labels.contains(#[trigger] pat.take(m)),
{
    assert forall|m: int| j <= m <= pat.len() implies !labels.contains(#[trigger] pat.take(m)) by {
        if labels.contains(pat.take(m)) {
            let k = choose|k: int| 0 <= k < labels.len() && labels[k] == pat.take(m);
            lemma_prefix_closed(labels, k, j);
            assert(labels[k].take(j) =~= pat.take(j));
        }
    }
}

/// Where the prefix of length `j` is a label already, looking up the
/// prefixes up to that length appends nothing.
pub proof fn lemma_add_present_prefixes(labels: Seq<Seq<u8>>, pat: Seq<u8>, j: nat)
    requires
        labels_wf(labels),
        j <= pat.len(),
        labels.contains(pat.take(j as int)),
    ensures
        add_prefixes(labels, pat, j) == labels,
    decreases j,
{
    if j > 0 {
        let k = choose|k: int| 0 <= k < labels.len() && labels[k] == pat.take(j as int);
        lemma_prefix_closed(labels, k, j - 1);
        assert(labels[k].take(j - 1) =~= pat.take(j - 1));
        lemma_add_present_prefixes(labels, pat, (j - 1) as nat);
    }
}

/// A new state under a missing transition: the numbering with the new
/// label appended is well formed, and the table with the transition set and
/// an empty row appended is its table.
pub proof fn lemma_grow_table(
    goto: Seq<Vec<i32>>,
    grown: Seq<Vec<i32>>,
    labels: Seq<Seq<u8>>,
    state: int,
    c: u8,
)
    requires
        labels_wf(labels),
        is_goto_table(goto, labels, false),
        0 <= state < labels.len(),
        !labels.contains(labels[state].push(c)),
        labels.len() <= i32::MAX,
        grown.len() == goto.len() + 1,
        forall|s: int| 0 <= s < goto.len() && s != state ==> grown[s]@ == goto[s]@,
        grown[state]@ == goto[state]@.update(c as int, labels.len() as i32),
        grown[goto.len() as int]@.len() == ASIZE,
        forall|i: int| 0 <= i < ASIZE ==> grown[goto.len() as int]@[i] == FAIL,
    ensures
        labels_wf(labels.push(labels[state].push(c))),
        is_goto_table(grown, labels.push(labels[state].push(c)), false),
{
    let w = labels[state].push(c);
    let more = labels.push(w);
    let fresh = labels.len() as int;
    assert(forall|i: int| 0 <= i < fresh ==> more[i] == labels[i]);
    assert(more[fresh] == w);
    assert forall|i: int, j: int|
        0 <= i < more.len() && 0 <= j < more.len() && i != j implies more[i] != more[j] by {
        if i == fresh {
            assert(labels[j] != w);
        } else if j == fresh {
            assert(labels[i] != w);
        }
    }
    assert forall|k: int| 1 <= k < more.len() implies #[trigger] has_parent(more, k) by {
        if k < fresh {
            assert(has_parent(labels, k));
            let j = parent(labels, k);
            assert(more[j] == more[k].drop_last());
        } else {
            assert(w.drop_last() =~= labels[state]);
            assert(more[state] == more[k].drop_last());
        }
    }
    assert(labels_wf(more));
    assert forall|s: int, a: int| 0 <= s < grown.len() && 0 <= a < ASIZE implies is_goto_entry(
        more,
        s,
        a as u8,
        #[trigger] grown[s]@[a] as int,
        false,
    ) by {
        let t = grown[s]@[a] as int;
        let next = more[s].push(a as u8);
        if s == fresh {
            if more.contains(next) {
                let k = choose|k: int| 0 <= k < more.len() && more[k] == next;
                assert(next.drop_last() =~= w);
                assert(k != fresh) by {
                    assert(next.len() == w.len() + 1);
                }
                lemma_prefix_closed(labels, k, w.len() as int);
                assert(labels[k].take(w.len() as int) =~= w);
            }
        } else if s == state && a == c as int {
            assert(t == fresh);
        } else {
            assert(is_goto_entry(labels, s, a as u8, goto[s]@[a] as int, false));
            assert(t == goto[s]@[a] as int);
            if t <= 0 {
                if more.contains(next) {
                    let k = choose|k: int| 0 <= k < more.len() && more[k] == next;
                    if k == fresh {
                        assert(next.drop_last() =~= labels[s]);
                        assert(w.drop_last() =~= labels[state]);
                        assert(next.last() == a as u8);
                        assert(w.last() == c);
                        assert(false);
                    } else {
                        assert(labels[k] == next);
                        assert(false);
                    }
                }
            }
        }
    }
}

/// The number of symbols in all patterns together.
pub open spec fn total_len(pats: Seq<Seq<u8>>) -> nat
    decreases pats.len(),
{
    if pats.len() == 0 {
        0
    } else {
        total_len(pats.drop_last()) + pats.last().len()
    }
}

/// The numbers of the patterns that are equal to `w`, in rising order.
pub open spec fn terminal_indices(pats: Seq<Seq<u8>>, w: Seq<u8>) -> Seq<usize>
    decreases pats.len(),
{
    if pats.len() == 0 {
        Seq::<usize>::empty()
    } else {
        let earlier = terminal_indices(pats.drop_last(), w);
        if pats.last() == w {
            earlier.push((pats.len() - 1) as usize)
        } else {
            earlier
        }
    }
}

/// `terminal_indices` holds the numbers of the patterns equal to `w`, each
/// once.
pub proof fn lemma_terminal_indices(pats: Seq<Seq<u8>>, w: Seq<u8>)
    requires
        pats.len() <= usize::MAX,
    ensures
        terminal_indices(pats, w).no_duplicates(),
        forall|i: usize| #[trigger]
            terminal_indices(pats, w).contains(i) <==> i < pats.len() && pats[i as int] == w,
    decreases pats.len(),
{
    let found = terminal_indices(pats, w);
    if pats.len() > 0 {
        let front = pats.drop_last();
        let earlier = terminal_indices(front, w);
        let last = (pats.len() - 1) as usize;
        lemma_terminal_indices(front, w);
        assert(!earlier.contains(last));
        assert forall|i: usize| #[trigger] found.contains(i) <==> i < pats.len() && pats[i as int]
            == w by {
            if i < front.len() {
                assert(front[i as int] == pats[i as int]);
            }
            if earlier.contains(i) {
                let k = choose|k: int| 0 <= k < earlier.len() && earlier[k] == i;
                assert(found[k] == i);
            }
            if pats.last() == w {
                assert(found[found.len() - 1] == last);
                if found.contains(i) {
                    let k = choose|k: int| 0 <= k < found.len() && found[k] == i;
                    if k < earlier.len() {
                        assert(earlier[k] == i);
                    }
                }
            }
        }
    }
}

/// The patterns entered so far have no more symbols than all of them.
pub proof fn lemma_total_len_take(pats: Seq<Seq<u8>>, n: int)
    requires
        0 <= n <= pats.len(),
    ensures
        total_len(pats.take(n)) <= total_len(pats),
    decreases pats.len() - n,
{
    if n == pats.len() {
        assert(pats.take(n) =~= pats);
    } else {
        lemma_total_len_take(pats, n + 1);
        assert(pats.take(n + 1).drop_last() =~= pats.take(n));
    }
}

/// While the automaton looks for the state after `text.push(c)`, state `s`
/// is a candidate: its label ends `text`, and no longer label that ends
/// `text` can be extended by `c`.
pub open spec fn is_candidate(labels: Seq<Seq<u8>>, text: Seq<u8>, c: u8, s: int) -> bool {
    &&& 0 <= s < labels.len()
    &&& is_suffix(labels[s], text)
    &&& forall|k: int|
        0 <= k < labels.len() && is_suffix(#[trigger] labels[k], text) && labels.contains(
            labels[k].push(c),
        ) ==> labels[k].len() <= labels[s].len()
}

/// The state of the longest suffix is the first candidate.
pub proof fn lemma_candidate_start(labels: Seq<Seq<u8>>, text: Seq<u8>, c: u8, s: int)
    requires
        is_longest_suffix_state(labels, text, s),
    ensures
        is_candidate(labels, text, c, s),
{
}

/// A candidate without a transition under `c` hands over to its failure
/// state, whose label is shorter.
pub proof fn lemma_candidate_fail(
    goto: Seq<Vec<i32>>,
    labels: Seq<Seq<u8>>,
    text: Seq<u8>,
    c: u8,
    s: int,
    f: int,
)
    requires
        labels_wf(labels),
        is_goto_table(goto, labels, true),
        is_candidate(labels, text, c, s),
        goto[s]@[c as int] == FAIL,
        is_longest_suffix_state(labels, labels[s].skip(1), f),
    ensures
        s > 0,
        is_candidate(labels, text, c, f),
        labels[f].len() < labels[s].len(),
{
    assert(is_goto_entry(labels, s, c as int as u8, goto[s]@[c as int] as int, true));
    assert(s > 0);
    assert(has_parent(labels, s));
    let rest = labels[s].skip(1);
    assert(is_suffix(rest, labels[s])) by {
        assert(labels[s].skip(labels[s].len() - rest.len()) =~= rest);
    }
    lemma_suffix_transitive(rest, labels[s], text);
    lemma_suffix_transitive(labels[f], rest, text);
    assert forall|k: int|
        0 <= k < labels.len() && is_suffix(#[trigger] labels[k], text) && labels.contains(
            labels[k].push(c),
        ) implies labels[k].len() <= labels[f].len() by {
        assert(labels[k].len() <= labels[s].len());
        if labels[k].len() == labels[s].len() {
            assert(labels[k] =~= labels[s]);
            assert(false);
        }
        lemma_suffixes_nest(labels[k], rest, text);
    }
}

/// A candidate with a transition under `c` ends the search: the target is
/// the state of the longest suffix of the text with `c` appended.
pub proof fn lemma_candidate_done(
    goto: Seq<Vec<i32>>,
    labels: Seq<Seq<u8>>,
    text: Seq<u8>,
    c: u8,
    s: int,
)
    requires
        labels_wf(labels),
        is_goto_table(goto, labels, true),
        is_candidate(labels, text, c, s),
        goto[s]@[c as int] != FAIL,
    ensures
        is_longest_suffix_state(labels, text.push(c), goto[s]@[c as int] as int),
{
    let t = goto[s]@[c as int] as int;
    let longer = text.push(c);
    assert(is_goto_entry(labels, s, c as int as u8, t, true));
    lemma_suffix_push(labels[t], text, c);
    if t > 0 {
        assert(labels[t].drop_last() =~= labels[s]);
    }
    assert forall|k: int| 0 <= k < labels.len() && is_suffix(#[trigger] labels[k], longer) implies labels[k].len()
        <= labels[t].len() by {
        lemma_suffix_push(labels[k], text, c);
        if labels[k].len() > 0 {
            assert(k > 0);
            assert(has_parent(labels, k));
            let j = parent(labels, k);
            assert(labels[j].push(c) =~= labels[k]);
            assert(labels[j].len() <= labels[s].len());
            if t == 0 {
                assert(labels[j] =~= labels[0]);
                assert(false);
            }
        }
    }
}

/// `w` is a prefix of one of the patterns.
pub open spec fn is_pattern_prefix(pats: Seq<Seq<u8>>, w: Seq<u8>) -> bool {
    exists|i: int, m: int|
        0 <= i < pats.len() && 0 <= m <= pats[i].len() && #[trigger] pats[i].take(m) == w
}

/// What `add_prefixes` appends are prefixes of the pattern.
pub proof fn lemma_added_are_prefixes(labels: Seq<Seq<u8>>, pat: Seq<u8>, n: nat, k: int)
    requires
        n <= pat.len(),
        labels.len() <= k < add_prefixes(labels, pat, n).len(),
    ensures
        exists|m: int| 0 <= m <= n && #[trigger] pat.take(m) == add_prefixes(labels, pat, n)[k],
    decreases n,
{
    if n > 0 {
        let shorter = add_prefixes(labels, pat, (n - 1) as nat);
        if k < shorter.len() {
            lemma_added_are_prefixes(labels, pat, (n - 1) as nat, k);
            let m = choose|m: int| 0 <= m <= n - 1 && #[trigger] pat.take(m) == shorter[k];
            assert(pat.take(m) == add_prefixes(labels, pat, n)[k]);
        } else {
            assert(pat.take(n as int) == add_prefixes(labels, pat, n)[k]);
        }
    }
}

/// Every state but the root is labelled with a prefix of a pattern.
pub proof fn lemma_labels_are_prefixes(pats: Seq<Seq<u8>>, k: int)
    requires
        1 <= k < trie_labels(pats).len(),
    ensures
        is_pattern_prefix(pats, trie_labels(pats)[k]),
    decreases pats.len(),
{
    if pats.len() > 0 {
        let front = pats.drop_last();
        let before = trie_labels(front);
        let pat = pats.last();
        lemma_trie_labels(front);
        lemma_add_prefixes(before, pat, pat.len());
        if k < before.len() {
            lemma_labels_are_prefixes(front, k);
            assert(trie_labels(pats).take(before.len() as int)[k] == before[k]);
            let (i, m) = choose|i: int, m: int|
                0 <= i < front.len() && 0 <= m <= front[i].len() && #[trigger] front[i].take(m)
                    == before[k];
            assert(pats[i].take(m) == trie_labels(pats)[k]);
        } else {
            lemma_added_are_prefixes(before, pat, pat.len(), k);
            let m = choose|m: int|
                0 <= m <= pat.len() && #[trigger] pat.take(m) == trie_labels(pats)[k];
            assert(pats[pats.len() - 1].take(m) == trie_labels(pats)[k]);
        }
    }
}

/// Where the prefixes of `pat` up to length `j` are labels and the longer
/// ones are not, looking up the prefixes up to length `n` appends one label
/// for each length above `j`, and the prefixes longer than `n` are still
/// missing.
pub proof fn lemma_add_missing_prefixes(labels: Seq<Seq<u8>>, pat: Seq<u8>, j: nat, n: nat)
    requires
        j <= n <= pat.len(),
        add_prefixes(labels, pat, j) == labels,
        forall|m: int| j < m <= pat.len() ==> !labels.contains(#[trigger] pat.take(m)),
    ensures
        add_prefixes(labels, pat, n).len() == labels.len() + (n - j),
        forall|m: int|
            n < m <= pat.len() ==> !add_prefixes(labels, pat, n).contains(#[trigger] pat.take(m)),
        forall|k: int|
            0 <= k < add_prefixes(labels, pat, n).len() ==> labels.contains(
                #[trigger] add_prefixes(labels, pat, n)[k],
            ) || add_prefixes(labels, pat, n)[k].len() <= n,
    decreases n,
{
    let grown = add_prefixes(labels, pat, n);
    if n == j {
        assert forall|k: int| 0 <= k < grown.len() implies labels.contains(#[trigger] grown[k])
            || grown[k].len() <= n by {
            assert(labels[k] == grown[k]);
        }
    } else {
        let shorter = add_prefixes(labels, pat, (n - 1) as nat);
        let w = pat.take(n as int);
        lemma_add_missing_prefixes(labels, pat, j, (n - 1) as nat);
        assert(!shorter.contains(w));
        assert(grown == shorter.push(w));
        assert forall|m: int| n < m <= pat.len() implies !grown.contains(#[trigger] pat.take(m)) by {
            if grown.contains(pat.take(m)) {
                let k = choose|k: int| 0 <= k < grown.len() && grown[k] == pat.take(m);
                if k < shorter.len() {
                    assert(shorter[k] == pat.take(m));
                } else {
                    assert(w.len() != pat.take(m).len());
                }
            }
        }
        assert forall|k: int| 0 <= k < grown.len() implies labels.contains(#[trigger] grown[k])
            || grown[k].len() <= n by {
            if k < shorter.len() {
                assert(grown[k] == shorter[k]);
            }
        }
    }
}

/// The automaton has at most one state for each symbol of the patterns,
/// and the root.
pub proof fn lemma_trie_size(pats: Seq<Seq<u8>>)
    ensures
        trie_labels(pats).len() <= 1 + total_len(pats),
    decreases pats.len(),
{
    if pats.len() > 0 {
        lemma_trie_size(pats.drop_last());
        lemma_trie_labels(pats.drop_last());
        lemma_add_prefixes(trie_labels(pats.drop_last()), pats.last(), pats.last().len());
    }
}

/// The patterns entered so far need no more states than all of them.
pub proof fn lemma_trie_of_beginning(pats: Seq<Seq<u8>>, n: int)
    requires
        0 <= n <= pats.len(),
    ensures
        trie_labels(pats.take(n)).len() <= trie_labels(pats).len(),
    decreases pats.len() - n,
{
    if n == pats.len() {
        assert(pats.take(n) =~= pats);
    } else {
        lemma_trie_of_beginning(pats, n + 1);
        assert(pats.take(n + 1).drop_last() =~= pats.take(n));
        lemma_trie_labels(pats.take(n));
        lemma_add_prefixes(
            trie_labels(pats.take(n)),
            pats.take(n + 1).last(),
            pats.take(n + 1).last().len(),
        );
    }
}

} // verus!

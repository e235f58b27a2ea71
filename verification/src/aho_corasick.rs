//! Matching many patterns in one pass over the text: a trie of the
//! patterns with failure links, built once and then run over each text.

use crate::breadth_first::{
    bfs_finished, bfs_inv, bfs_shape, inherits, is_alphabet_of, is_done, lemma_bfs_advance,
    lemma_bfs_all_done, lemma_bfs_bound, lemma_bfs_front, lemma_bfs_short_is_done,
    lemma_bfs_start, lemma_child_is_new, lemma_finished_push, lemma_listed_push,
    lemma_listed_skip, lemma_push_contains, lemma_shape_push,
};
use crate::occurrence::{
    count_occurrences, is_suffix, lemma_count_in_empty_text, lemma_count_of_beginning,
    lemma_count_push, lemma_suffix_transitive, lemma_suffixes_nest,
};
use crate::queue::Queue;
use crate::run::MultiPatternData;
use crate::symbol_set::{lemma_ordered_union, ordered_union, with_element, SymbolSet};
use crate::trie::{
    add_prefixes, is_candidate, is_failure_table, is_goto_entry, is_goto_table,
    is_longest_suffix_state, labels_wf, lemma_add_prefixes, lemma_add_present_prefixes,
    lemma_add_missing_prefixes, lemma_candidate_done, lemma_candidate_fail,
    lemma_candidate_start, lemma_grow_table, lemma_labels_are_prefixes, lemma_labels_unique,
    lemma_no_longer_prefix, lemma_terminal_indices, lemma_total_len_take, lemma_trie_labels,
    lemma_trie_of_beginning, lemma_trie_size, terminal_indices, total_len, trie_labels, ASIZE,
    FAIL,
};
use vstd::prelude::*;

verus! {

/// A transition row without any transition.
pub fn create_new_state() -> (row: Vec<i32>)
    ensures
        row@ == Seq::new(ASIZE as nat, |i: int| FAIL),
{
    let new_state = vec![FAIL; ASIZE];
    assert(new_state@ =~= Seq::new(ASIZE as nat, |i: int| FAIL));
    new_state
}

/// The highest state number of the trie numbered by `labels` can be
/// written in 32 bits.
pub open spec fn states_fit(labels: Seq<Seq<u8>>) -> bool {
    labels.len() <= i32::MAX + 1
}

/// `goto` is the table of some trie that is still being built, and with
/// `pat` entered its states can still be numbered.
pub open spec fn can_enter(goto: Seq<Vec<i32>>, pat: Seq<u8>) -> bool {
    exists|labels: Seq<Seq<u8>>|
        labels_wf(labels) && #[trigger] is_goto_table(goto, labels, false) && states_fit(
            add_prefixes(labels, pat, pat.len()),
        )
}

/// What state `s` recognises once `pat` is entered as pattern `idx`: what
/// it recognised before, and in the state labelled `pat` also `idx`, behind
/// that if it is new there.
pub open spec fn output_after_entering(
    before: Seq<SymbolSet>,
    grown: Seq<Seq<u8>>,
    pat: Seq<u8>,
    idx: usize,
    s: int,
) -> Seq<usize> {
    let kept = if s < before.len() {
        before[s]@
    } else {
        Seq::<usize>::empty()
    };
    if grown[s] == pat {
        with_element(kept, idx)
    } else {
        kept
    }
}

/// Enters `pat` as pattern number `idx`: follows the transitions that
/// exist, stops at the end of the pattern at the latest, makes one new
/// state for each symbol that is left, and records `idx` in the state that
/// the whole pattern leads to. `new_state` is the highest state number;
/// it has to stay within what 32 bits can write, as it does where no state
/// is made.
pub fn enter_pattern(
    new_state: &mut usize,
    pat: &[u8],
    idx: usize,
    goto_fn: &mut Vec<Vec<i32>>,
    output_fn: &mut Vec<SymbolSet>,
)
    requires
        can_enter(old(goto_fn)@, pat@),
        old(output_fn)@.len() == old(goto_fn)@.len(),
        *old(new_state) + 1 == old(goto_fn)@.len(),
    ensures
        forall|labels: Seq<Seq<u8>>|
            labels_wf(labels) && #[trigger] is_goto_table(old(goto_fn)@, labels, false) ==> {
                let grown = add_prefixes(labels, pat@, pat@.len());
                &&& is_goto_table(final(goto_fn)@, grown, false)
                &&& *final(new_state) + 1 == grown.len()
                &&& final(output_fn)@.len() == grown.len()
                &&& forall|s: int|
                    0 <= s < grown.len() ==> (#[trigger] final(output_fn)@[s])@
                        == output_after_entering(old(output_fn)@, grown, pat@, idx, s)
            },
{
    let len = pat.len();
    let mut j: usize = 0;
    let mut state: usize = 0;
    let ghost labels: Seq<Seq<u8>> = choose|labels: Seq<Seq<u8>>|
        labels_wf(labels) && #[trigger] is_goto_table(old(goto_fn)@, labels, false) && states_fit(
            add_prefixes(labels, pat@, pat@.len()),
        );
    proof {
        assert(pat@.take(0) =~= labels[0]);
    }

    // Follow the transitions that exist, as far as the pattern reaches.
    while j < len && goto_fn[state][pat[j] as usize] != FAIL
        invariant
            len == pat@.len(),
            j <= len,
            state < labels.len(),
            labels_wf(labels),
            is_goto_table(goto_fn@, labels, false),
            labels[state as int] == pat@.take(j as int),
        decreases len - j,
    {
        proof {
            let c = pat@[j as int];
            let t = goto_fn@[state as int]@[c as int] as int;
            assert(is_goto_entry(labels, state as int, c as int as u8, t, false));
            assert(labels[state as int].push(c) =~= pat@.take(j + 1));
        }
        state = goto_fn[state][pat[j] as usize] as usize;
        j += 1;
    }

    let ghost mut grown = labels;
    proof {
        lemma_add_present_prefixes(labels, pat@, j as nat);
        if j < len {
            let c = pat@[j as int];
            let t = goto_fn@[state as int]@[c as int] as int;
            assert(is_goto_entry(labels, state as int, c as int as u8, t, false));
            assert(labels[state as int].push(c) =~= pat@.take(j + 1));
            lemma_no_longer_prefix(labels, pat@, j + 1);
        }
        // As many states are to come as symbols are left, and they fit.
        lemma_add_missing_prefixes(labels, pat@, j as nat, len as nat);
    }

    // One new state for each symbol that is left.
    while j < len
        invariant
            len == pat@.len(),
            j <= len,
            labels_wf(labels),
            labels_wf(grown),
            is_goto_table(goto_fn@, grown, false),
            grown == add_prefixes(labels, pat@, j as nat),
            labels.len() <= grown.len(),
            grown.take(labels.len() as int) == labels,
            state < grown.len(),
            grown[state as int] == pat@.take(j as int),
            forall|m: int| j < m <= len ==> !grown.contains(#[trigger] pat@.take(m)),
            *new_state + 1 == grown.len(),
            *new_state + (len - j) <= i32::MAX,
            output_fn@.len() == grown.len(),
            forall|s: int| 0 <= s < labels.len() ==> (#[trigger] output_fn@[s])@ == old(output_fn)@[s]@,
            forall|s: int|
                labels.len() <= s < grown.len() ==> (#[trigger] output_fn@[s])@ == Seq::<usize>::empty(),
        decreases len - j,
    {
        let symbol = pat[j];
        let ghost before = goto_fn@;
        let ghost outputs = output_fn@;
        let ghost w = pat@.take(j + 1);
        proof {
            assert(grown[state as int].push(symbol) =~= w);
            assert(!grown.contains(w));
        }
        *new_state += 1;
        goto_fn[state][symbol as usize] = *new_state as i32;
        goto_fn.push(create_new_state());
        output_fn.push(SymbolSet::new());
        proof {
            lemma_grow_table(before, goto_fn@, grown, state as int, symbol);
            let more = grown.push(w);
            assert(add_prefixes(labels, pat@, (j + 1) as nat) == more);
            assert(more.take(labels.len() as int) =~= grown.take(labels.len() as int));
            assert forall|m: int| j + 1 < m <= len implies !more.contains(#[trigger] pat@.take(m)) by {
                if more.contains(pat@.take(m)) {
                    let k = choose|k: int| 0 <= k < more.len() && more[k] == pat@.take(m);
                    if k < grown.len() {
                        assert(grown[k] == pat@.take(m));
                    } else {
                        assert(pat@.take(m).len() != w.len());
                    }
                }
            }
            assert forall|s: int| 0 <= s < labels.len() implies (#[trigger] output_fn@[s])@ == old(
                output_fn,
            )@[s]@ by {
                assert(output_fn@[s] == outputs[s]);
            }
            assert forall|s: int| labels.len() <= s < more.len() implies (#[trigger] output_fn@[s])@
                == Seq::<usize>::empty() by {
                if s < grown.len() {
                    assert(output_fn@[s] == outputs[s]);
                }
            }
            grown = more;
        }
        state = *new_state;
        j += 1;
    }

    let ghost outputs = output_fn@;
    output_fn[state].insert(idx);

    proof {
        assert(pat@.take(len as int) =~= pat@);
        assert forall|s: int| 0 <= s < grown.len() implies (#[trigger] output_fn@[s])@
            == output_after_entering(old(output_fn)@, grown, pat@, idx, s) by {
            if s != state {
                assert(output_fn@[s] == outputs[s]);
            }
            if s < labels.len() {
                assert(outputs[s]@ == old(output_fn)@[s]@);
            } else {
                assert(outputs[s]@ == Seq::<usize>::empty());
            }
        }
        assert forall|other: Seq<Seq<u8>>|
            labels_wf(other) && #[trigger] is_goto_table(old(goto_fn)@, other, false) implies {
            let g = add_prefixes(other, pat@, pat@.len());
            &&& is_goto_table(goto_fn@, g, false)
            &&& *new_state + 1 == g.len()
            &&& output_fn@.len() == g.len()
            &&& forall|s: int|
                0 <= s < g.len() ==> (#[trigger] output_fn@[s])@ == output_after_entering(
                    old(output_fn)@,
                    g,
                    pat@,
                    idx,
                    s,
                )
        } by {
            lemma_labels_unique(old(goto_fn)@, labels, other, false);
        }
    }
}

/// The patterns as sequences of symbols.
pub open spec fn pattern_seqs(patterns: &[&[u8]]) -> Seq<Seq<u8>> {
    Seq::new(patterns@.len(), |i: int| patterns@[i]@)
}

/// `output` holds for each state the numbers of the patterns that end
/// exactly there, in rising order.
pub open spec fn is_partial_output(
    output: Seq<SymbolSet>,
    labels: Seq<Seq<u8>>,
    pats: Seq<Seq<u8>>,
) -> bool {
    &&& output.len() == labels.len()
    &&& forall|s: int|
        0 <= s < labels.len() ==> (#[trigger] output[s])@ == terminal_indices(pats, labels[s])
}

/// Builds the transition table of the trie of `patterns` and records for
/// each pattern the state in which it ends. Afterwards the root has a
/// transition under every symbol: to itself where no pattern starts with
/// the symbol. The states have to be so few that 32 bits can number them,
/// as they are where the patterns have at most `i32::MAX` symbols together
/// (`lemma_trie_size`).
pub fn build_goto(patterns: &[&[u8]], goto_fn: &mut Vec<Vec<i32>>, output_fn: &mut Vec<SymbolSet>)
    requires
        old(goto_fn)@.len() == 0,
        old(output_fn)@.len() == 0,
        states_fit(trie_labels(pattern_seqs(patterns))),
    ensures
        is_goto_table(final(goto_fn)@, trie_labels(pattern_seqs(patterns)), true),
        is_partial_output(
            final(output_fn)@,
            trie_labels(pattern_seqs(patterns)),
            pattern_seqs(patterns),
        ),
{
    let ghost pats = pattern_seqs(patterns);
    let mut new_state: usize = 0;

    goto_fn.push(create_new_state());
    output_fn.push(SymbolSet::new());

    proof {
        let root = trie_labels(pats.take(0));
        assert(root =~= seq![Seq::<u8>::empty()]);
        assert forall|s: int, c: int| 0 <= s < goto_fn@.len() && 0 <= c < ASIZE implies is_goto_entry(
            root,
            s,
            c as u8,
            #[trigger] goto_fn@[s]@[c] as int,
            false,
        ) by {
            let w = root[s].push(c as u8);
            if root.contains(w) {
                let k = choose|k: int| 0 <= k < root.len() && root[k] == w;
                assert(w.len() == 1);
            }
        }
    }

    let mut i: usize = 0;
    while i < patterns.len()
        invariant
            i <= patterns@.len(),
            pats == pattern_seqs(patterns),
            states_fit(trie_labels(pats)),
            is_goto_table(goto_fn@, trie_labels(pats.take(i as int)), false),
            is_partial_output(output_fn@, trie_labels(pats.take(i as int)), pats.take(i as int)),
            new_state + 1 == goto_fn@.len(),
        decreases patterns@.len() - i,
    {
        let ghost labels = trie_labels(pats.take(i as int));
        let ghost outputs = output_fn@;
        proof {
            lemma_trie_labels(pats.take(i as int));
            lemma_trie_of_beginning(pats, i + 1);
            assert(pats.take(i + 1).drop_last() =~= pats.take(i as int));
            assert(pats.take(i + 1).last() == patterns@[i as int]@);
            assert(is_goto_table(goto_fn@, labels, false));
        }
        enter_pattern(&mut new_state, patterns[i], i, goto_fn, output_fn);
        proof {
            let pat = patterns@[i as int]@;
            let grown = add_prefixes(labels, pat, pat.len());
            assert(is_goto_table(goto_fn@, grown, false));
            assert(grown == trie_labels(pats.take(i + 1)));
            lemma_add_prefixes(labels, pat, pat.len());
            assert forall|s: int| 0 <= s < grown.len() implies (#[trigger] output_fn@[s])@
                == terminal_indices(pats.take(i + 1), grown[s]) by {
                // The number of the pattern is new to every state.
                lemma_terminal_indices(pats.take(i as int), grown[s]);
                assert(!terminal_indices(pats.take(i as int), grown[s]).contains(i));
                if s < labels.len() {
                    assert(grown.take(labels.len() as int)[s] == grown[s]);
                    assert(outputs[s]@ == terminal_indices(pats.take(i as int), labels[s]));
                } else {
                    assert(terminal_indices(pats.take(i as int), grown[s]) =~= Seq::<usize>::empty()) by {
                        let found = terminal_indices(pats.take(i as int), grown[s]);
                        if found.len() > 0 {
                            let e = found[0];
                            assert(found.contains(e));
                            assert(pats.take(i as int)[e as int] == grown[s]);
                            assert(labels.contains(grown[s]));
                            let k = choose|k: int| 0 <= k < labels.len() && labels[k] == grown[s];
                            assert(grown.take(labels.len() as int)[k] == grown[k]);
                            assert(false);
                        }
                    }
                }
            }
        }
        i += 1;
    }

    proof {
        assert(pats.take(i as int) =~= pats);
        lemma_trie_labels(pats);
    }
    let ghost labels = trie_labels(pats);

    // Make the root total: what starts no pattern leads back to the root.
    let mut c: usize = 0;
    while c < ASIZE
        invariant
            c <= ASIZE,
            labels_wf(labels),
            goto_fn@.len() == labels.len(),
            forall|s: int| 0 <= s < goto_fn@.len() ==> (#[trigger] goto_fn@[s])@.len() == ASIZE,
            forall|s: int, a: int|
                0 <= s < goto_fn@.len() && 0 <= a < ASIZE ==> is_goto_entry(
                    labels,
                    s,
                    a as u8,
                    #[trigger] goto_fn@[s]@[a] as int,
                    s == 0 && a < c,
                ),
        decreases ASIZE - c,
    {
        let ghost before = goto_fn@;
        if goto_fn[0][c] == FAIL {
            goto_fn[0][c] = 0;
        }
        proof {
            assert forall|s: int, a: int| 0 <= s < goto_fn@.len() && 0 <= a < ASIZE implies is_goto_entry(
                labels,
                s,
                a as u8,
                #[trigger] goto_fn@[s]@[a] as int,
                s == 0 && a < c + 1,
            ) by {
                assert(is_goto_entry(labels, s, a as u8, before[s]@[a] as int, s == 0 && a < c));
                if s != 0 {
                    assert(goto_fn@[s] == before[s]);
                }
            }
        }
        c += 1;
    }
    proof {
        assert forall|s: int, a: int| 0 <= s < goto_fn@.len() && 0 <= a < ASIZE implies is_goto_entry(
            labels,
            s,
            a as u8,
            #[trigger] goto_fn@[s]@[a] as int,
            true,
        ) by {
            assert(is_goto_entry(labels, s, a as u8, goto_fn@[s]@[a] as int, s == 0 && a < c));
        }
    }
}

/// The symbols of `pat` as indices into a transition row.
pub open spec fn symbol_indices(pat: Seq<u8>) -> Seq<usize> {
    Seq::new(pat.len(), |j: int| pat[j] as usize)
}

/// The symbols that occur in the patterns, each once, in the order of
/// their first appearance.
pub open spec fn alphabet_of(pats: Seq<Seq<u8>>) -> Seq<usize>
    decreases pats.len(),
{
    if pats.len() == 0 {
        Seq::<usize>::empty()
    } else {
        ordered_union(alphabet_of(pats.drop_last()), symbol_indices(pats.last()))
    }
}

/// Symbol `a` occurs in one of the patterns.
pub open spec fn occurs_in(pats: Seq<Seq<u8>>, a: usize) -> bool {
    exists|i: int, j: int| 0 <= i < pats.len() && 0 <= j < pats[i].len() && #[trigger] pats[i][j] == a
}

/// `alphabet_of` holds the symbols that occur in the patterns, each once.
pub proof fn lemma_alphabet_of(pats: Seq<Seq<u8>>)
    ensures
        alphabet_of(pats).no_duplicates(),
        forall|a: usize| #[trigger] alphabet_of(pats).contains(a) <==> occurs_in(pats, a),
    decreases pats.len(),
{
    if pats.len() > 0 {
        let front = pats.drop_last();
        let symbols = symbol_indices(pats.last());
        lemma_alphabet_of(front);
        lemma_ordered_union(alphabet_of(front), symbols);
        assert forall|a: usize| #[trigger] alphabet_of(pats).contains(a) <==> occurs_in(pats, a) by {
            if occurs_in(front, a) {
                let (i, j) = choose|i: int, j: int|
                    0 <= i < front.len() && 0 <= j < front[i].len() && #[trigger] front[i][j] == a;
                assert(pats[i][j] == a);
            }
            if symbols.contains(a) {
                let j = choose|j: int| 0 <= j < symbols.len() && symbols[j] == a;
                assert(pats[pats.len() - 1][j] == a);
            }
            if occurs_in(pats, a) {
                let (i, j) = choose|i: int, j: int|
                    0 <= i < pats.len() && 0 <= j < pats[i].len() && #[trigger] pats[i][j] == a;
                if i < front.len() {
                    assert(front[i][j] == a);
                } else {
                    assert(symbols[j] == a);
                }
            }
        }
    }
}

/// The symbols of the patterns are an alphabet for the table of their
/// trie.
pub proof fn lemma_alphabet_covers(goto: Seq<Vec<i32>>, pats: Seq<Seq<u8>>)
    requires
        is_goto_table(goto, trie_labels(pats), true),
    ensures
        is_alphabet_of(alphabet_of(pats), goto),
{
    let labels = trie_labels(pats);
    let alphabet = alphabet_of(pats);
    lemma_alphabet_of(pats);
    lemma_trie_labels(pats);
    assert forall|k: int| 0 <= k < alphabet.len() implies #[trigger] alphabet[k] < ASIZE by {
        assert(alphabet.contains(alphabet[k]));
        assert(occurs_in(pats, alphabet[k]));
    }
    assert forall|s: int, c: int|
        0 <= s < goto.len() && 0 <= c < ASIZE && #[trigger] goto[s]@[c] > 0 implies alphabet.contains(
        c as usize,
    ) by {
        let t = goto[s]@[c] as int;
        assert(is_goto_entry(labels, s, c as u8, t, true));
        lemma_labels_are_prefixes(pats, t);
        let (i, m) = choose|i: int, m: int|
            0 <= i < pats.len() && 0 <= m <= pats[i].len() && #[trigger] pats[i].take(m)
                == labels[t];
        assert(labels[t].last() == c as u8);
        assert(pats[i][m - 1] == c as usize);
        assert(occurs_in(pats, c as usize));
    }
}

/// Collects the symbols that occur in `patterns`.
pub fn pattern_alphabet(patterns: &[&[u8]]) -> (alphabet: SymbolSet)
    ensures
        alphabet@ == alphabet_of(pattern_seqs(patterns)),
{
    let ghost pats = pattern_seqs(patterns);
    let mut alphabet = SymbolSet::new();
    let mut i: usize = 0;
    while i < patterns.len()
        invariant
            i <= patterns@.len(),
            pats == pattern_seqs(patterns),
            alphabet@ == alphabet_of(pats.take(i as int)),
        decreases patterns@.len() - i,
    {
        let pat = patterns[i];
        let ghost before = alphabet@;
        let ghost symbols = symbol_indices(pat@);
        let mut j: usize = 0;
        while j < pat.len()
            invariant
                j <= pat@.len(),
                symbols == symbol_indices(pat@),
                alphabet@ == ordered_union(before, symbols.take(j as int)),
            decreases pat@.len() - j,
        {
            let symbol = pat[j] as usize;
            proof {
                assert(symbols.take(j + 1).drop_last() =~= symbols.take(j as int));
                assert(symbols.take(j + 1).last() == symbol);
            }
            alphabet.insert(symbol);
            j += 1;
        }
        proof {
            assert(symbols.take(j as int) =~= symbols);
            assert(pats.take(i + 1).drop_last() =~= pats.take(i as int));
            assert(pats.take(i + 1).last() == pat@);
        }
        i += 1;
    }
    proof {
        assert(pats.take(i as int) =~= pats);
    }
    alphabet
}

/// `goto` is the complete transition table of some trie.
pub open spec fn is_complete_trie(goto: Seq<Vec<i32>>) -> bool {
    exists|labels: Seq<Seq<u8>>| labels_wf(labels) && is_goto_table(goto, labels, true)
}

/// `failure` holds the failure links of the trie numbered by `labels`, and
/// `output` what each state held in `initial` followed by what its failure
/// state adds.
pub open spec fn is_linked(
    labels: Seq<Seq<u8>>,
    failure: Seq<usize>,
    output: Seq<SymbolSet>,
    initial: Seq<SymbolSet>,
) -> bool {
    &&& is_failure_table(failure, labels)
    &&& output.len() == labels.len()
    &&& forall|s: int|
        0 <= s < labels.len() ==> #[trigger] is_done(labels, failure, output, initial, s)
}

/// Computes the failure links breadth first, from the root's children on,
/// and lets every state take over the output of its failure state.
/// `alphabet` holds the symbols under which the table has transitions to
/// states other than the root; no other symbol is looked at.
pub fn build_failure(goto_fn: &[Vec<i32>], output_fn: &mut [SymbolSet], alphabet: &SymbolSet) -> (failure_fn:
    Vec<usize>)
    requires
        is_complete_trie(goto_fn@),
        is_alphabet_of(alphabet@, goto_fn@),
        old(output_fn)@.len() == goto_fn@.len(),
        old(output_fn)@[0]@.len() == 0,
    ensures
        forall|labels: Seq<Seq<u8>>|
            labels_wf(labels) && #[trigger] is_goto_table(goto_fn@, labels, true) ==> is_linked(
                labels,
                failure_fn@,
                final(output_fn)@,
                old(output_fn)@,
            ),
{
    let ghost labels: Seq<Seq<u8>> = choose|labels: Seq<Seq<u8>>|
        labels_wf(labels) && is_goto_table(goto_fn@, labels, true);
    let ghost initial = output_fn@;
    let mut queue = Queue::new();
    let mut failure_fn: Vec<usize> = vec![0; goto_fn.len()];
    let ghost mut order: Seq<int> = seq![0int];
    proof {
        lemma_bfs_start(labels, alphabet@, failure_fn@, initial);
    }

    // The children of the root fall back to the root.
    for a in it: alphabet.iter()
        invariant
            labels_wf(labels),
            is_goto_table(goto_fn@, labels, true),
            is_alphabet_of(alphabet@, goto_fn@),
            it.seq().len() == alphabet@.len(),
            forall|m: int| 0 <= m < alphabet@.len() ==> *it.seq()[m] == alphabet@[m],
            initial.len() == labels.len(),
            initial[0]@.len() == 0,
            failure_fn@.len() == labels.len(),
            output_fn@.len() == labels.len(),
            bfs_inv(
                labels,
                alphabet@,
                order,
                0,
                it.index() as int,
                failure_fn@,
                output_fn@,
                initial,
            ),
            queue.wf(),
            queue@.len() == order.len() - 1,
            forall|k: int| 0 <= k < queue@.len() ==> queue@[k] as int == order[k + 1],
    {
        let ghost upto = it.index() as int;
        assert(*a == alphabet@[upto]);
        let state = goto_fn[0][*a];
        if state != 0 {
            let child = state as usize;
            let ghost links = failure_fn@;
            proof {
                lemma_bfs_front(labels, order, 0, failure_fn@, output_fn@, initial);
                assert(is_goto_entry(labels, 0, *a as int as u8, state as int, true));
                lemma_child_is_new(goto_fn@, labels, alphabet@, order, 0, upto, child as int);
            }
            queue.enqueue(child);
            failure_fn[child] = 0;
            proof {
                let rest = labels[child as int].skip(1);
                assert(is_suffix(labels[0], rest)) by {
                    assert(rest.skip(0) =~= labels[0]);
                }
                assert(is_longest_suffix_state(labels, rest, 0));
                lemma_bfs_front(labels, order, 0, links, output_fn@, initial);
                assert(output_fn@[0]@ =~= Seq::<usize>::empty());
                assert(ordered_union(output_fn@[child as int]@, output_fn@[0]@)
                    == output_fn@[child as int]@);
                lemma_shape_push(labels, order, 0, child as int);
                lemma_listed_push(goto_fn@, labels, alphabet@, order, 0, upto, child as int);
                lemma_finished_push(
                    labels,
                    order,
                    0,
                    links,
                    output_fn@,
                    initial,
                    child as int,
                    0,
                    failure_fn@,
                    output_fn@,
                );
                order = order.push(child as int);
            }
        } else {
            proof {
                lemma_bfs_front(labels, order, 0, failure_fn@, output_fn@, initial);
                lemma_listed_skip(goto_fn@, labels, alphabet@, order, 0, upto);
            }
        }
    }

    let ghost mut h: int = 1;
    proof {
        lemma_bfs_advance(goto_fn@, labels, alphabet@, order, 0);
    }

    while !queue.is_empty()
        invariant
            labels_wf(labels),
            is_goto_table(goto_fn@, labels, true),
            is_alphabet_of(alphabet@, goto_fn@),
            initial.len() == labels.len(),
            initial[0]@.len() == 0,
            failure_fn@.len() == labels.len(),
            output_fn@.len() == labels.len(),
            1 <= h,
            bfs_inv(labels, alphabet@, order, h, 0, failure_fn@, output_fn@, initial),
            queue.wf(),
            queue@.len() == order.len() - h,
            forall|k: int| 0 <= k < queue@.len() ==> queue@[k] as int == order[h + k],
        decreases labels.len() - h,
    {
        proof {
            lemma_bfs_bound(labels, order, h);
        }
        let r = queue.dequeue();
        proof {
            assert(r as int == order[h]);
            lemma_bfs_front(labels, order, h, failure_fn@, output_fn@, initial);
        }

        for a in it: alphabet.iter()
            invariant
                labels_wf(labels),
                is_goto_table(goto_fn@, labels, true),
                is_alphabet_of(alphabet@, goto_fn@),
                it.seq().len() == alphabet@.len(),
                forall|m: int| 0 <= m < alphabet@.len() ==> *it.seq()[m] == alphabet@[m],
                initial.len() == labels.len(),
                initial[0]@.len() == 0,
                failure_fn@.len() == labels.len(),
                output_fn@.len() == labels.len(),
                1 <= h < order.len(),
                r as int == order[h],
                1 <= r < labels.len(),
                labels[r as int].len() > 0,
                bfs_inv(
                    labels,
                    alphabet@,
                    order,
                    h,
                    it.index() as int,
                    failure_fn@,
                    output_fn@,
                    initial,
                ),
                queue.wf(),
                queue@.len() == order.len() - h - 1,
                forall|k: int| 0 <= k < queue@.len() ==> queue@[k] as int == order[h + 1 + k],
        {
            let ghost upto = it.index() as int;
            assert(*a == alphabet@[upto]);
            let s = goto_fn[r][*a];
            proof {
                assert(is_goto_entry(labels, r as int, *a as int as u8, s as int, true));
            }
            if s != FAIL {
                let ss = s as usize;
                let ghost symbol = *a as u8;
                let ghost text = labels[r as int].skip(1);
                proof {
                    lemma_child_is_new(goto_fn@, labels, alphabet@, order, h, upto, ss as int);
                    lemma_bfs_front(labels, order, h, failure_fn@, output_fn@, initial);
                    lemma_candidate_start(labels, text, symbol, failure_fn@[r as int] as int);
                }
                queue.enqueue(ss);
                let mut state = failure_fn[r];
                while goto_fn[state][*a] == FAIL
                    invariant
                        labels_wf(labels),
                        is_goto_table(goto_fn@, labels, true),
                        *a < ASIZE,
                        symbol == *a as u8,
                        1 <= h < order.len(),
                        r as int == order[h],
                        text == labels[r as int].skip(1),
                        labels[r as int].len() > 0,
                        failure_fn@.len() == labels.len(),
                        bfs_shape(labels, order, h),
                        bfs_finished(labels, order, failure_fn@, output_fn@, initial),
                        is_candidate(labels, text, symbol, state as int),
                    decreases labels[state as int].len(),
                {
                    proof {
                        assert(is_goto_entry(
                            labels,
                            state as int,
                            symbol as int as u8,
                            goto_fn@[state as int]@[symbol as int] as int,
                            true,
                        ));
                        assert(state > 0);
                        lemma_bfs_short_is_done(
                            labels,
                            order,
                            h,
                            failure_fn@,
                            output_fn@,
                            initial,
                            state as int,
                        );
                        lemma_candidate_fail(
                            goto_fn@,
                            labels,
                            text,
                            symbol,
                            state as int,
                            failure_fn@[state as int] as int,
                        );
                    }
                    state = failure_fn[state];
                }
                let ghost links = failure_fn@;
                let ghost outputs = output_fn@;
                failure_fn[ss] = goto_fn[state][*a] as usize;
                let failure_set = output_fn[failure_fn[ss]].clone();
                output_fn[ss].union(&failure_set);
                proof {
                    let f = failure_fn@[ss as int];
                    lemma_candidate_done(goto_fn@, labels, text, symbol, state as int);
                    assert(text.push(symbol) =~= labels[ss as int].skip(1));
                    lemma_shape_push(labels, order, h, ss as int);
                    lemma_listed_push(goto_fn@, labels, alphabet@, order, h, upto, ss as int);
                    lemma_finished_push(
                        labels,
                        order,
                        h,
                        links,
                        outputs,
                        initial,
                        ss as int,
                        f,
                        failure_fn@,
                        output_fn@,
                    );
                    order = order.push(ss as int);
                }
            } else {
                proof {
                    lemma_listed_skip(goto_fn@, labels, alphabet@, order, h, upto);
                }
            }
        }
        proof {
            lemma_bfs_advance(goto_fn@, labels, alphabet@, order, h);
            h = h + 1;
        }
    }

    proof {
        assert(h == order.len());
        assert forall|s: int| 0 <= s < labels.len() implies #[trigger] is_done(
            labels,
            failure_fn@,
            output_fn@,
            initial,
            s,
        ) by {
            lemma_bfs_all_done(labels, alphabet@, order, failure_fn@, output_fn@, initial, s);
        }
        lemma_bfs_all_done(labels, alphabet@, order, failure_fn@, output_fn@, initial, 0);
        assert forall|s: int| 1 <= s < labels.len() implies is_longest_suffix_state(
            labels,
            labels[s].skip(1),
            #[trigger] failure_fn@[s] as int,
        ) by {
            assert(is_done(labels, failure_fn@, output_fn@, initial, s));
        }
        assert(is_linked(labels, failure_fn@, output_fn@, initial));
        assert forall|other: Seq<Seq<u8>>|
            labels_wf(other) && #[trigger] is_goto_table(goto_fn@, other, true) implies is_linked(
            other,
            failure_fn@,
            output_fn@,
            initial,
        ) by {
            lemma_labels_unique(goto_fn@, labels, other, true);
        }
    }
    failure_fn
}

/// `output` holds for each state the numbers of the patterns that end the
/// state's label, each once: first those equal to the label, in rising
/// order, then what the failure state holds and the state does not.
pub open spec fn is_output_table(
    output: Seq<SymbolSet>,
    failure: Seq<usize>,
    labels: Seq<Seq<u8>>,
    pats: Seq<Seq<u8>>,
) -> bool {
    &&& output.len() == labels.len()
    &&& output[0]@ == terminal_indices(pats, labels[0])
    &&& forall|s: int|
        1 <= s < labels.len() ==> (#[trigger] output[s])@ == ordered_union(
            terminal_indices(pats, labels[s]),
            output[failure[s] as int]@,
        )
    &&& forall|s: int| 0 <= s < labels.len() ==> (#[trigger] output[s])@.no_duplicates()
    &&& forall|s: int, i: usize|
        0 <= s < labels.len() ==> (#[trigger] output[s]@.contains(i) <==> i < pats.len()
            && is_suffix(pats[i as int], labels[s]))
}

/// These are the tables of the automaton for the patterns `pats`: the
/// number of the patterns, the complete transition table, the failure
/// links and the outputs. No pattern is empty.
pub open spec fn is_tables_for(
    count: usize,
    goto: Seq<Vec<i32>>,
    failure: Seq<usize>,
    output: Seq<SymbolSet>,
    pats: Seq<Seq<u8>>,
) -> bool {
    &&& count == pats.len()
    &&& forall|i: int| 0 <= i < pats.len() ==> (#[trigger] pats[i]).len() > 0
    &&& is_goto_table(goto, trie_labels(pats), true)
    &&& is_failure_table(failure, trie_labels(pats))
    &&& is_output_table(output, failure, trie_labels(pats), pats)
}

/// `pat_data` is the automaton for the patterns `pats` in four parts: the
/// number of the patterns, the transition table, the failure links and the
/// outputs, in this order.
pub open spec fn is_automaton_for(
    pat_data: Seq<MultiPatternData<SymbolSet>>,
    pats: Seq<Seq<u8>>,
) -> bool {
    &&& pat_data.len() == 4
    &&& pat_data[0] matches MultiPatternData::PatternCount(count)
    &&& pat_data[1] matches MultiPatternData::PatternIntVecVec(goto)
    &&& pat_data[2] matches MultiPatternData::PatternUsizeVec(failure)
    &&& pat_data[3] matches MultiPatternData::PatternTypeVec(output)
    &&& is_tables_for(count, goto@, failure@, output@, pats)
}

/// `matches` holds for each pattern the number of its occurrences in
/// `text`.
pub open spec fn is_match_count(matches: Seq<u32>, pats: Seq<Seq<u8>>, text: Seq<u8>) -> bool {
    &&& matches.len() == pats.len()
    &&& forall|i: int|
        0 <= i < pats.len() ==> (#[trigger] matches[i]) == count_occurrences(pats[i], text)
}

/// `matches` is what a scan of `text` with the automaton `pat_data` gives:
/// the number of occurrences in `text` of each pattern of the automaton.
pub open spec fn is_scan_result(
    pat_data: Seq<MultiPatternData<SymbolSet>>,
    text: Seq<u8>,
    matches: Seq<u32>,
) -> bool {
    forall|pats: Seq<Seq<u8>>| #[trigger]
        is_automaton_for(pat_data, pats) ==> is_match_count(matches, pats, text)
}

/// `pat_data` is the automaton of some list of patterns.
pub open spec fn is_automaton(pat_data: Seq<MultiPatternData<SymbolSet>>) -> bool {
    exists|pats: Seq<Seq<u8>>| is_automaton_for(pat_data, pats)
}

/// Every count of the patterns in `text` can be written in 32 bits.
pub open spec fn counts_fit(pats: Seq<Seq<u8>>, text: Seq<u8>) -> bool {
    forall|i: int| 0 <= i < pats.len() ==> count_occurrences(#[trigger] pats[i], text) <= u32::MAX
}

/// Counts that were written in 32 bits fit them.
pub proof fn lemma_counted_fits(matches: Seq<u32>, pats: Seq<Seq<u8>>, text: Seq<u8>)
    requires
        is_match_count(matches, pats, text),
    ensures
        counts_fit(pats, text),
{
    assert forall|i: int| 0 <= i < pats.len() implies count_occurrences(#[trigger] pats[i], text)
        <= u32::MAX by {
        assert(matches[i] == count_occurrences(pats[i], text));
    }
}

/// Tables are the tables of one list of patterns only.
pub proof fn lemma_tables_patterns_unique(
    count: usize,
    goto: Seq<Vec<i32>>,
    failure: Seq<usize>,
    output: Seq<SymbolSet>,
    first: Seq<Seq<u8>>,
    second: Seq<Seq<u8>>,
)
    requires
        is_tables_for(count, goto, failure, output, first),
        is_tables_for(count, goto, failure, output, second),
    ensures
        first == second,
{
    lemma_trie_labels(first);
    lemma_trie_labels(second);
    lemma_labels_unique(goto, trie_labels(first), trie_labels(second), true);
    let labels = trie_labels(first);
    assert forall|i: int| 0 <= i < first.len() implies first[i] == second[i] by {
        assert(labels.contains(first[i]));
        assert(labels.contains(second[i]));
        let s = choose|s: int| 0 <= s < labels.len() && labels[s] == first[i];
        let t = choose|t: int| 0 <= t < labels.len() && labels[t] == second[i];
        assert(is_suffix(first[i], labels[s])) by {
            assert(first[i].skip(0) =~= first[i]);
        }
        assert(is_suffix(second[i], labels[t])) by {
            assert(second[i].skip(0) =~= second[i]);
        }
        assert(output[s]@.contains(i as usize));
        assert(output[t]@.contains(i as usize));
        assert(is_suffix(second[i], first[i]));
        assert(is_suffix(first[i], second[i]));
        assert(first[i].skip(0) =~= first[i]);
    }
    assert(first =~= second);
}

/// An automaton is the automaton of one list of patterns only.
pub proof fn lemma_automaton_patterns_unique(
    pat_data: Seq<MultiPatternData<SymbolSet>>,
    first: Seq<Seq<u8>>,
    second: Seq<Seq<u8>>,
)
    requires
        is_automaton_for(pat_data, first),
        is_automaton_for(pat_data, second),
    ensures
        first == second,
{
    lemma_tables_patterns_unique(
        pat_data[0]->PatternCount_0,
        pat_data[1]->PatternIntVecVec_0@,
        pat_data[2]->PatternUsizeVec_0@,
        pat_data[3]->PatternTypeVec_0@,
        first,
        second,
    );
}

/// What a scan of `text` for the patterns `pats` gives: the counts, if
/// every count can be written in 32 bits, and nothing if one cannot.
pub open spec fn is_counts_of(counts: Option<Seq<u32>>, pats: Seq<Seq<u8>>, text: Seq<u8>) -> bool {
    match counts {
        Some(matches) => is_match_count(matches, pats, text),
        None => !counts_fit(pats, text),
    }
}

/// Runs the tables over `sequence` in one pass from left to right and
/// counts for every pattern the places at which it ends. The scan ends
/// without counts where a count has reached `u32::MAX` and is to grow.
fn scan_tables(
    pattern_count: usize,
    goto_fn: &[Vec<i32>],
    failure_fn: &[usize],
    output_fn: &[SymbolSet],
    sequence: &[u8],
    Ghost(pats): Ghost<Seq<Seq<u8>>>,
) -> (counts: Option<Vec<u32>>)
    requires
        is_tables_for(pattern_count, goto_fn@, failure_fn@, output_fn@, pats),
    ensures
        match counts {
            Some(matches) => is_match_count(matches@, pats, sequence@),
            None => !counts_fit(pats, sequence@),
        },
{
    let ghost labels = trie_labels(pats);
    let mut matches: Vec<u32> = vec![0; pattern_count];
    let mut state: usize = 0;
    proof {
        lemma_trie_labels(pats);
        assert(sequence@.take(0) =~= Seq::<u8>::empty());
        assert forall|i: int| 0 <= i < pats.len() implies (#[trigger] matches@[i])
            == count_occurrences(pats[i], sequence@.take(0)) by {
            lemma_count_in_empty_text(pats[i]);
        }
        assert(is_suffix(labels[0], sequence@.take(0))) by {
            assert(sequence@.take(0).skip(0) =~= labels[0]);
        }
    }

    let mut k: usize = 0;
    while k < sequence.len()
        invariant
            k <= sequence@.len(),
            is_tables_for(pattern_count, goto_fn@, failure_fn@, output_fn@, pats),
            labels == trie_labels(pats),
            labels_wf(labels),
            is_longest_suffix_state(labels, sequence@.take(k as int), state as int),
            is_match_count(matches@, pats, sequence@.take(k as int)),
        decreases sequence@.len() - k,
    {
        let symbol = sequence[k];
        let ghost text = sequence@.take(k as int);
        proof {
            lemma_candidate_start(labels, text, symbol, state as int);
        }
        while goto_fn[state][symbol as usize] == FAIL
            invariant
                is_tables_for(pattern_count, goto_fn@, failure_fn@, output_fn@, pats),
                labels == trie_labels(pats),
                labels_wf(labels),
                is_candidate(labels, text, symbol, state as int),
            decreases labels[state as int].len(),
        {
            proof {
                assert(is_goto_entry(
                    labels,
                    state as int,
                    symbol as int as u8,
                    goto_fn@[state as int]@[symbol as int] as int,
                    true,
                ));
                lemma_candidate_fail(
                    goto_fn@,
                    labels,
                    text,
                    symbol,
                    state as int,
                    failure_fn@[state as int] as int,
                );
            }
            state = failure_fn[state];
        }
        proof {
            lemma_candidate_done(goto_fn@, labels, text, symbol, state as int);
            assert(is_goto_entry(
                labels,
                state as int,
                symbol as int as u8,
                goto_fn@[state as int]@[symbol as int] as int,
                true,
            ));
            assert(text.push(symbol) =~= sequence@.take(k + 1));
        }
        state = goto_fn[state][symbol as usize] as usize;

        let ghost longer = sequence@.take(k + 1);
        let ghost found = output_fn@[state as int]@;
        let ghost before = matches@;
        let recognised = &output_fn[state];
        for j in it: recognised.iter()
            invariant
                k < sequence@.len(),
                is_tables_for(pattern_count, goto_fn@, failure_fn@, output_fn@, pats),
                labels == trie_labels(pats),
                0 <= state < labels.len(),
                is_longest_suffix_state(labels, longer, state as int),
                found == output_fn@[state as int]@,
                found == recognised@,
                text == sequence@.take(k as int),
                longer == sequence@.take(k + 1),
                longer == text.push(symbol),
                it.seq().len() == found.len(),
                forall|m: int| 0 <= m < found.len() ==> *it.seq()[m] == found[m],
                is_match_count(before, pats, text),
                matches@.len() == pats.len(),
                forall|i: int|
                    0 <= i < pats.len() ==> (#[trigger] matches@[i]) == before[i] + if found.take(
                        it.index() as int,
                    ).contains(i as usize) {
                        1int
                    } else {
                        0int
                    },
        {
            let ghost m = it.index() as int;
            proof {
                assert(found[m] == *j);
                assert(found.contains(*j));
                assert(!found.take(m).contains(*j));
            }
            if matches[*j] == u32::MAX {
                proof {
                    // One more occurrence ends here, and the whole
                    // sequence holds no fewer.
                    let i = *j as int;
                    lemma_output_is_suffix(labels, pats, longer, state as int, i);
                    lemma_count_push(pats[i], text, symbol);
                    lemma_count_of_beginning(pats[i], sequence@, k + 1);
                    assert(count_occurrences(pats[i], sequence@) > u32::MAX);
                }
                return None;
            }
            matches[*j] += 1;
            proof {
                assert(found.take(m + 1) =~= found.take(m).push(*j));
                lemma_push_contains(found.take(m), *j);
            }
        }
        proof {
            assert(found.take(found.len() as int) =~= found);
            assert forall|i: int| 0 <= i < pats.len() implies (#[trigger] matches@[i])
                == count_occurrences(pats[i], longer) by {
                lemma_count_push(pats[i], text, symbol);
                lemma_output_is_suffix(labels, pats, longer, state as int, i);
            }
        }
        k += 1;
    }

    proof {
        assert(sequence@.take(k as int) =~= sequence@);
    }
    Some(matches)
}

/// `counts` is what a scan of `text` with these tables gives: the number
/// of occurrences in `text` of each pattern of the tables, if every number
/// can be written in 32 bits, and nothing if one cannot.
pub open spec fn is_parts_scan(
    count: usize,
    goto: Seq<Vec<i32>>,
    failure: Seq<usize>,
    output: Seq<SymbolSet>,
    text: Seq<u8>,
    counts: Option<Seq<u32>>,
) -> bool {
    forall|pats: Seq<Seq<u8>>| #[trigger]
        is_tables_for(count, goto, failure, output, pats) ==> is_counts_of(counts, pats, text)
}

/// The view of the counts, where there are counts.
pub open spec fn counts_view(counts: Option<Vec<u32>>) -> Option<Seq<u32>> {
    match counts {
        Some(matches) => Some(matches@),
        None => None,
    }
}

/// Counts, for every pattern of the automaton with these four tables, its
/// occurrences in `sequence`, in one pass from left to right. There are
/// no counts where one of them cannot be written in 32 bits.
pub fn scan_parts(
    pattern_count: usize,
    goto_fn: &[Vec<i32>],
    failure_fn: &[usize],
    output_fn: &[SymbolSet],
    sequence: &[u8],
) -> (counts: Option<Vec<u32>>)
    requires
        exists|pats: Seq<Seq<u8>>|
            is_tables_for(pattern_count, goto_fn@, failure_fn@, output_fn@, pats),
    ensures
        is_parts_scan(
            pattern_count,
            goto_fn@,
            failure_fn@,
            output_fn@,
            sequence@,
            counts_view(counts),
        ),
{
    let ghost pats: Seq<Seq<u8>> = choose|pats: Seq<Seq<u8>>|
        is_tables_for(pattern_count, goto_fn@, failure_fn@, output_fn@, pats);
    let counts = scan_tables(pattern_count, goto_fn, failure_fn, output_fn, sequence, Ghost(pats));
    proof {
        assert forall|other: Seq<Seq<u8>>| #[trigger]
            is_tables_for(pattern_count, goto_fn@, failure_fn@, output_fn@, other) implies is_counts_of(
            counts_view(counts),
            other,
            sequence@,
        ) by {
            lemma_tables_patterns_unique(
                pattern_count,
                goto_fn@,
                failure_fn@,
                output_fn@,
                pats,
                other,
            );
        }
    }
    counts
}

/// Counts, for every pattern of the automaton `pat_data`, its occurrences
/// in `sequence`, in one pass from left to right. Every count has to fit
/// 32 bits, as it does in a sequence of at most `u32::MAX` symbols
/// (`theorem_short_sequence_has_counts`).
pub fn aho_corasick(pat_data: &[MultiPatternData<SymbolSet>], sequence: &[u8]) -> (matches: Vec<
    u32,
>)
    requires
        is_automaton(pat_data@),
        forall|pats: Seq<Seq<u8>>| #[trigger]
            is_automaton_for(pat_data@, pats) ==> counts_fit(pats, sequence@),
    ensures
        is_scan_result(pat_data@, sequence@, matches@),
{
    let ghost pats: Seq<Seq<u8>> = choose|pats: Seq<Seq<u8>>| is_automaton_for(pat_data@, pats);
    let pattern_count = match &pat_data[0] {
        MultiPatternData::PatternCount(val) => *val,
        _ => unreached(),
    };
    let goto_fn = match &pat_data[1] {
        MultiPatternData::PatternIntVecVec(val) => val,
        _ => unreached(),
    };
    let failure_fn = match &pat_data[2] {
        MultiPatternData::PatternUsizeVec(val) => val,
        _ => unreached(),
    };
    let output_fn = match &pat_data[3] {
        MultiPatternData::PatternTypeVec(val) => val,
        _ => unreached(),
    };

    let counts = scan_tables(
        pattern_count,
        goto_fn.as_slice(),
        failure_fn.as_slice(),
        output_fn.as_slice(),
        sequence,
        Ghost(pats),
    );
    let matches = match counts {
        Some(matches) => matches,
        None => unreached(),
    };

    proof {
        assert forall|other: Seq<Seq<u8>>| #[trigger] is_automaton_for(pat_data@, other) implies is_match_count(
            matches@,
            other,
            sequence@,
        ) by {
            lemma_automaton_patterns_unique(pat_data@, pats, other);
        }
    }
    matches
}

/// In the state of the longest suffix of `text` that is a label, a pattern
/// ends the label if and only if it ends `text`.
proof fn lemma_output_is_suffix(
    labels: Seq<Seq<u8>>,
    pats: Seq<Seq<u8>>,
    text: Seq<u8>,
    state: int,
    i: int,
)
    requires
        labels == trie_labels(pats),
        is_longest_suffix_state(labels, text, state),
        0 <= i < pats.len(),
    ensures
        is_suffix(pats[i], labels[state]) <==> is_suffix(pats[i], text),
{
    lemma_trie_labels(pats);
    if is_suffix(pats[i], labels[state]) {
        lemma_suffix_transitive(pats[i], labels[state], text);
    }
    if is_suffix(pats[i], text) {
        assert(labels.contains(pats[i]));
        let s = choose|s: int| 0 <= s < labels.len() && labels[s] == pats[i];
        lemma_suffixes_nest(pats[i], labels[state], text);
    }
}

/// The automaton for a list of patterns: the number of the patterns, the
/// transition table, the failure links and the outputs. It is built once
/// and not changed afterwards.
pub struct Automaton {
    pattern_count: usize,
    goto_fn: Vec<Vec<i32>>,
    failure_fn: Vec<usize>,
    output_fn: Vec<SymbolSet>,
    patterns: Ghost<Seq<Seq<u8>>>,
}

/// Why a list of patterns was not taken.
#[derive(Debug, PartialEq, Eq)]
pub enum BuildError {
    /// The pattern with this number, counted from 0, has no symbol.
    EmptyPattern(usize),
    /// The patterns have more than `i32::MAX` symbols together, so that
    /// their states might not be numbered in 32 bits.
    TooManySymbols,
}

/// Pattern `i` is the first that has no symbol.
pub open spec fn is_first_empty(pats: Seq<Seq<u8>>, i: int) -> bool {
    &&& 0 <= i < pats.len()
    &&& pats[i].len() == 0
    &&& forall|j: int| 0 <= j < i ==> (#[trigger] pats[j]).len() > 0
}

impl Automaton {
    /// The patterns that the automaton was built for.
    pub closed spec fn patterns(&self) -> Seq<Seq<u8>> {
        self.patterns@
    }

    /// The tables are those of the automaton for its patterns.
    pub closed spec fn wf(&self) -> bool {
        is_tables_for(
            self.pattern_count,
            self.goto_fn@,
            self.failure_fn@,
            self.output_fn@,
            self.patterns@,
        )
    }

    /// Builds the tables for `patterns`.
    fn assemble(patterns: &[&[u8]]) -> (automaton: Automaton)
        requires
            forall|i: int| 0 <= i < patterns@.len() ==> (#[trigger] patterns@[i])@.len() > 0,
            states_fit(trie_labels(pattern_seqs(patterns))),
        ensures
            automaton.wf(),
            automaton.patterns() == pattern_seqs(patterns),
    {
        let ghost pats = pattern_seqs(patterns);
        let ghost labels = trie_labels(pats);

        let mut goto_fn: Vec<Vec<i32>> = Vec::new();
        let mut output_fn: Vec<SymbolSet> = Vec::new();
        build_goto(patterns, &mut goto_fn, &mut output_fn);
        let alphabet = pattern_alphabet(patterns);
        let ghost initial = output_fn@;
        let count = patterns.len();
        proof {
            assert(pats.len() == count);
            lemma_trie_labels(pats);
            lemma_alphabet_covers(goto_fn@, pats);
            lemma_terminal_indices(pats, labels[0]);
            assert(initial[0]@ =~= Seq::<usize>::empty()) by {
                if initial[0]@.len() > 0 {
                    let e = initial[0]@[0];
                    assert(initial[0]@.contains(e));
                    assert(pats[e as int].len() > 0);
                }
            }
        }
        let failure_fn = build_failure(&goto_fn, &mut output_fn, &alphabet);
        proof {
            assert(is_linked(labels, failure_fn@, output_fn@, initial));
            lemma_outputs(pats, failure_fn@, output_fn@, initial);
        }
        Automaton { pattern_count: count, goto_fn, failure_fn, output_fn, patterns: Ghost(pats) }
    }

    /// Builds the automaton for `patterns` if every pattern has a symbol
    /// and the patterns have at most `i32::MAX` symbols together, and says
    /// what is in the way if not. No state is made before the patterns are
    /// found in order: the symbols can be counted beforehand, the states
    /// cannot.
    pub fn build(patterns: &[&[u8]]) -> (built: Result<Automaton, BuildError>)
        ensures
            match built {
                Ok(automaton) => {
                    &&& automaton.wf()
                    &&& automaton.patterns() == pattern_seqs(patterns)
                    &&& forall|i: int|
                        0 <= i < patterns@.len() ==> (#[trigger] patterns@[i])@.len() > 0
                    &&& total_len(pattern_seqs(patterns)) <= i32::MAX
                },
                Err(BuildError::EmptyPattern(i)) => is_first_empty(
                    pattern_seqs(patterns),
                    i as int,
                ),
                Err(BuildError::TooManySymbols) => {
                    &&& forall|i: int|
                        0 <= i < patterns@.len() ==> (#[trigger] patterns@[i])@.len() > 0
                    &&& total_len(pattern_seqs(patterns)) > i32::MAX
                },
            },
    {
        let ghost pats = pattern_seqs(patterns);
        let mut i: usize = 0;
        while i < patterns.len()
            invariant
                i <= patterns@.len(),
                pats == pattern_seqs(patterns),
                forall|j: int| 0 <= j < i ==> (#[trigger] patterns@[j])@.len() > 0,
            decreases patterns@.len() - i,
        {
            if patterns[i].len() == 0 {
                return Err(BuildError::EmptyPattern(i));
            }
            i += 1;
        }

        let mut total: usize = 0;
        let mut k: usize = 0;
        while k < patterns.len()
            invariant
                k <= patterns@.len(),
                pats == pattern_seqs(patterns),
                forall|j: int| 0 <= j < patterns@.len() ==> (#[trigger] patterns@[j])@.len() > 0,
                total == total_len(pats.take(k as int)),
                total <= i32::MAX,
            decreases patterns@.len() - k,
        {
            let length = patterns[k].len();
            proof {
                assert(pats.take(k + 1).drop_last() =~= pats.take(k as int));
                assert(pats.take(k + 1).last() == patterns@[k as int]@);
                lemma_total_len_take(pats, k + 1);
            }
            if length > i32::MAX as usize - total {
                return Err(BuildError::TooManySymbols);
            }
            total += length;
            k += 1;
        }
        proof {
            assert(pats.take(k as int) =~= pats);
            lemma_trie_size(pats);
        }
        Ok(Automaton::assemble(patterns))
    }

    /// The number of the patterns.
    pub fn pattern_count(&self) -> (count: usize)
        requires
            self.wf(),
        ensures
            count == self.patterns().len(),
    {
        self.pattern_count
    }

    /// The number of the states.
    pub fn state_count(&self) -> (count: usize)
        requires
            self.wf(),
        ensures
            count == trie_labels(self.patterns()).len(),
    {
        self.goto_fn.len()
    }

    /// Counts, for every pattern of the automaton, its occurrences in
    /// `sequence`: `matches[i]` is the number of end positions in the
    /// sequence at which pattern `i` occurs, occurrences that overlap or lie
    /// within one another included. There are counts if and only if every
    /// one of them can be written in 32 bits.
    pub fn scan(&self, sequence: &[u8]) -> (counts: Option<Vec<u32>>)
        requires
            self.wf(),
        ensures
            counts is Some <==> counts_fit(self.patterns(), sequence@),
            counts matches Some(matches) ==> is_match_count(
                matches@,
                self.patterns(),
                sequence@,
            ),
    {
        let counts = scan_tables(
            self.pattern_count,
            self.goto_fn.as_slice(),
            self.failure_fn.as_slice(),
            self.output_fn.as_slice(),
            sequence,
            Ghost(self.patterns@),
        );
        proof {
            if counts is Some {
                lemma_counted_fits(counts->Some_0@, self.patterns@, sequence@);
            }
        }
        counts
    }

    /// Takes the automaton apart: the number of the patterns, the
    /// transition table, the failure links and the outputs, in this order.
    pub fn pack(self) -> (pattern_data: Vec<MultiPatternData<SymbolSet>>)
        requires
            self.wf(),
        ensures
            is_automaton_for(pattern_data@, self.patterns()),
    {
        let mut pattern_data: Vec<MultiPatternData<SymbolSet>> = Vec::with_capacity(4);

        pattern_data.push(MultiPatternData::PatternCount(self.pattern_count));
        pattern_data.push(MultiPatternData::PatternIntVecVec(self.goto_fn));
        pattern_data.push(MultiPatternData::PatternUsizeVec(self.failure_fn));
        pattern_data.push(MultiPatternData::PatternTypeVec(self.output_fn));

        pattern_data
    }
}

/// Builds the automaton for `patterns` and hands it over in four parts:
/// the number of patterns, the transition table, the failure links and the
/// outputs, in this order. No pattern may be empty, and 32 bits have to
/// number the states.
pub fn init_aho_corasick(patterns: &[&[u8]]) -> (pattern_data: Vec<MultiPatternData<SymbolSet>>)
    requires
        forall|i: int| 0 <= i < patterns@.len() ==> (#[trigger] patterns@[i])@.len() > 0,
        states_fit(trie_labels(pattern_seqs(patterns))),
    ensures
        is_automaton_for(pattern_data@, pattern_seqs(patterns)),
{
    Automaton::assemble(patterns).pack()
}

/// Linking the outputs that entering the patterns left gives the output
/// table of the automaton.
proof fn lemma_outputs(
    pats: Seq<Seq<u8>>,
    failure: Seq<usize>,
    output: Seq<SymbolSet>,
    initial: Seq<SymbolSet>,
)
    requires
        pats.len() <= usize::MAX,
        is_partial_output(initial, trie_labels(pats), pats),
        is_linked(trie_labels(pats), failure, output, initial),
    ensures
        is_output_table(output, failure, trie_labels(pats), pats),
{
    let labels = trie_labels(pats);
    lemma_trie_labels(pats);
    assert(is_done(labels, failure, output, initial, 0));
    assert forall|s: int| 1 <= s < labels.len() implies (#[trigger] output[s])@ == ordered_union(
        terminal_indices(pats, labels[s]),
        output[failure[s] as int]@,
    ) by {
        assert(is_done(labels, failure, output, initial, s));
    }
    assert forall|s: int| 0 <= s < labels.len() implies (#[trigger] output[s])@.no_duplicates() by {
        assert(is_done(labels, failure, output, initial, s));
        lemma_terminal_indices(pats, labels[s]);
        if s > 0 {
            lemma_ordered_union(initial[s]@, output[failure[s] as int]@);
        }
    }
    assert forall|s: int, i: usize| 0 <= s < labels.len() implies (#[trigger] output[s]@.contains(i)
        <==> i < pats.len() && is_suffix(pats[i as int], labels[s])) by {
        assert(is_done(labels, failure, output, initial, s));
        assert(output[s]@.contains(i) <==> inherits(labels, initial, s, i));
        if inherits(labels, initial, s, i) {
            let u = choose|u: int|
                0 <= u < labels.len() && is_suffix(#[trigger] labels[u], labels[s])
                    && initial[u]@.contains(i);
            lemma_terminal_indices(pats, labels[u]);
        }
        if i < pats.len() && is_suffix(pats[i as int], labels[s]) {
            assert(labels.contains(pats[i as int]));
            let u = choose|u: int| 0 <= u < labels.len() && labels[u] == pats[i as int];
            lemma_terminal_indices(pats, labels[u]);
            assert(initial[u]@.contains(i));
        }
    }
}

} // verus!

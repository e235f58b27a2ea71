//! What building an automaton and scanning with it amount to together.

use crate::aho_corasick::{
    counts_fit, is_automaton, is_automaton_for, is_match_count, is_output_table, is_scan_result,
};
use crate::breadth_first::lemma_child_transition;
use crate::occurrence::{
    count_occurrences, end_positions, is_suffix, lemma_end_positions_bounded, occurs_at,
};
use crate::run::MultiPatternData;
use crate::symbol_set::{lemma_ordered_union, SymbolSet};
use crate::trie::{
    add_prefixes, has_parent, is_failure_table, is_goto_entry, is_goto_table,
    is_longest_suffix_state, labels_wf, lemma_add_present_prefixes, lemma_trie_labels, parent,
    terminal_indices, trie_labels, ASIZE,
};
use vstd::prelude::*;

verus! {

/// A scan with the automaton built for `pats` counts, for each pattern,
/// the end positions in the text at which the pattern occurs: what a search
/// for each pattern by itself would count.
pub proof fn theorem_scan_counts_occurrences(
    pats: Seq<Seq<u8>>,
    automaton: Seq<MultiPatternData<SymbolSet>>,
    text: Seq<u8>,
    matches: Seq<u32>,
)
    requires
        is_automaton_for(automaton, pats),
        is_scan_result(automaton, text, matches),
    ensures
        matches.len() == pats.len(),
        forall|i: int|
            0 <= i < pats.len() ==> #[trigger] matches[i] == count_occurrences(pats[i], text),
        forall|i: int|
            0 <= i < pats.len() ==> #[trigger] matches[i] == end_positions(pats[i], text).len(),
{
    assert(is_match_count(matches, pats, text));
}

/// A scan of a sequence of at most `u32::MAX` symbols gives counts: no
/// pattern with a symbol occurs more often than the sequence has symbols.
pub proof fn theorem_short_sequence_has_counts(pats: Seq<Seq<u8>>, text: Seq<u8>)
    requires
        forall|i: int| 0 <= i < pats.len() ==> (#[trigger] pats[i]).len() > 0,
        text.len() <= u32::MAX,
    ensures
        counts_fit(pats, text),
{
    assert forall|i: int| 0 <= i < pats.len() implies count_occurrences(#[trigger] pats[i], text)
        <= u32::MAX by {
        lemma_end_positions_bounded(pats[i], text);
    }
}

/// A pattern that is the whole text is counted once, at the end of the
/// text.
pub proof fn theorem_whole_text_counts_once(
    pats: Seq<Seq<u8>>,
    automaton: Seq<MultiPatternData<SymbolSet>>,
    matches: Seq<u32>,
    i: int,
)
    requires
        is_automaton_for(automaton, pats),
        0 <= i < pats.len(),
        is_scan_result(automaton, pats[i], matches),
    ensures
        matches[i] == 1,
        end_positions(pats[i], pats[i]) == set![pats[i].len() as int],
{
    let pat = pats[i];
    assert(is_match_count(matches, pats, pat));
    assert(pat.subrange(0, pat.len() as int) =~= pat);
    assert(occurs_at(pat, pat, pat.len() as int));
    assert(end_positions(pat, pat) =~= set![pat.len() as int]);
}

/// The counts for a list of patterns in a text are what they are: two
/// scans of one text, with one automaton or with two that were built for
/// the same patterns, give the same counts.
pub proof fn theorem_counts_are_determined(
    pats: Seq<Seq<u8>>,
    text: Seq<u8>,
    first: Seq<u32>,
    second: Seq<u32>,
)
    requires
        is_match_count(first, pats, text),
        is_match_count(second, pats, text),
    ensures
        first == second,
{
    assert(first =~= second);
}

/// Two scans of one text with one automaton give the same counts.
pub proof fn theorem_scan_is_repeatable(
    automaton: Seq<MultiPatternData<SymbolSet>>,
    text: Seq<u8>,
    first: Seq<u32>,
    second: Seq<u32>,
)
    requires
        is_automaton(automaton),
        is_scan_result(automaton, text, first),
        is_scan_result(automaton, text, second),
    ensures
        first == second,
{
    let pats = choose|pats: Seq<Seq<u8>>| is_automaton_for(automaton, pats);
    assert(is_match_count(first, pats, text));
    assert(is_match_count(second, pats, text));
    assert(first =~= second);
}

/// Two automata built for one list of patterns give the same counts on
/// every text.
pub proof fn theorem_builds_scan_alike(
    pats: Seq<Seq<u8>>,
    one: Seq<MultiPatternData<SymbolSet>>,
    other: Seq<MultiPatternData<SymbolSet>>,
    text: Seq<u8>,
    first: Seq<u32>,
    second: Seq<u32>,
)
    requires
        is_automaton_for(one, pats),
        is_automaton_for(other, pats),
        is_scan_result(one, text, first),
        is_scan_result(other, text, second),
    ensures
        first == second,
{
    assert(is_match_count(first, pats, text));
    assert(is_match_count(second, pats, text));
    assert(first =~= second);
}

/// A pattern that is a prefix of another pattern, or equal to it, is
/// counted by itself, and so is the other: each count is the number of
/// occurrences of its own pattern, and equal patterns have equal counts.
pub proof fn theorem_prefix_patterns_count_apart(
    pats: Seq<Seq<u8>>,
    automaton: Seq<MultiPatternData<SymbolSet>>,
    text: Seq<u8>,
    matches: Seq<u32>,
    i: int,
    j: int,
)
    requires
        is_automaton_for(automaton, pats),
        is_scan_result(automaton, text, matches),
        0 <= i < pats.len(),
        0 <= j < pats.len(),
        i != j,
        pats[i].len() <= pats[j].len(),
        pats[j].take(pats[i].len() as int) == pats[i],
    ensures
        matches[i] == count_occurrences(pats[i], text),
        matches[j] == count_occurrences(pats[j], text),
        pats[i] == pats[j] ==> matches[i] == matches[j],
{
    assert(is_match_count(matches, pats, text));
}

/// The tables of two automata are alike: the same transitions, the same
/// failure links and the same outputs in the same order.
pub open spec fn same_tables(
    one: Seq<MultiPatternData<SymbolSet>>,
    other: Seq<MultiPatternData<SymbolSet>>,
) -> bool {
    &&& one[0]->PatternCount_0 == other[0]->PatternCount_0
    &&& one[1]->PatternIntVecVec_0@.len() == other[1]->PatternIntVecVec_0@.len()
    &&& forall|s: int|
        0 <= s < one[1]->PatternIntVecVec_0@.len() ==> (#[trigger] one[1]->PatternIntVecVec_0@[s])@
            == other[1]->PatternIntVecVec_0@[s]@
    &&& one[2]->PatternUsizeVec_0@ == other[2]->PatternUsizeVec_0@
    &&& one[3]->PatternTypeVec_0@.len() == other[3]->PatternTypeVec_0@.len()
    &&& forall|s: int|
        0 <= s < one[3]->PatternTypeVec_0@.len() ==> (#[trigger] one[3]->PatternTypeVec_0@[s])@
            == other[3]->PatternTypeVec_0@[s]@
}

/// The automaton is a function of the list of patterns: two automata built
/// for one list have the same states with the same numbers and the same
/// tables.
pub proof fn theorem_build_is_determined(
    pats: Seq<Seq<u8>>,
    one: Seq<MultiPatternData<SymbolSet>>,
    other: Seq<MultiPatternData<SymbolSet>>,
)
    requires
        is_automaton_for(one, pats),
        is_automaton_for(other, pats),
    ensures
        same_tables(one, other),
{
    let labels = trie_labels(pats);
    lemma_trie_labels(pats);
    let goto1 = one[1]->PatternIntVecVec_0@;
    let goto2 = other[1]->PatternIntVecVec_0@;
    let failure1 = one[2]->PatternUsizeVec_0@;
    let failure2 = other[2]->PatternUsizeVec_0@;
    let output1 = one[3]->PatternTypeVec_0@;
    let output2 = other[3]->PatternTypeVec_0@;
    assert forall|s: int| 0 <= s < goto1.len() implies (#[trigger] goto1[s])@ == goto2[s]@ by {
        assert forall|c: int| 0 <= c < goto1[s]@.len() implies goto1[s]@[c] == goto2[s]@[c] by {
            assert(is_goto_entry(labels, s, c as u8, goto1[s]@[c] as int, true));
            assert(is_goto_entry(labels, s, c as u8, goto2[s]@[c] as int, true));
        }
        assert(goto1[s]@ =~= goto2[s]@);
    }
    assert forall|s: int| 0 <= s < labels.len() implies failure1[s] == failure2[s] by {
        lemma_same_failure(labels, failure1, failure2, s);
    }
    assert(failure1 =~= failure2);
    assert forall|s: int| 0 <= s < output1.len() implies (#[trigger] output1[s])@ == output2[s]@ by {
        lemma_same_output(pats, failure1, output1, output2, s);
    }
}

/// A state has one failure state only.
proof fn lemma_same_failure(
    labels: Seq<Seq<u8>>,
    failure1: Seq<usize>,
    failure2: Seq<usize>,
    s: int,
)
    requires
        labels_wf(labels),
        is_failure_table(failure1, labels),
        is_failure_table(failure2, labels),
        0 <= s < labels.len(),
    ensures
        failure1[s] == failure2[s],
{
    if s > 0 {
        let text = labels[s].skip(1);
        let f1 = failure1[s] as int;
        let f2 = failure2[s] as int;
        assert(is_longest_suffix_state(labels, text, f1));
        assert(is_longest_suffix_state(labels, text, f2));
        assert(labels[f1].len() == labels[f2].len());
        assert(labels[f1] =~= labels[f2]);
    }
}

/// A state has one output only: what ends its own label first, then what
/// its failure state adds, which has a shorter label.
proof fn lemma_same_output(
    pats: Seq<Seq<u8>>,
    failure: Seq<usize>,
    output1: Seq<SymbolSet>,
    output2: Seq<SymbolSet>,
    s: int,
)
    requires
        labels_wf(trie_labels(pats)),
        is_failure_table(failure, trie_labels(pats)),
        is_output_table(output1, failure, trie_labels(pats), pats),
        is_output_table(output2, failure, trie_labels(pats), pats),
        0 <= s < trie_labels(pats).len(),
    ensures
        output1[s]@ == output2[s]@,
    decreases trie_labels(pats)[s].len(),
{
    let labels = trie_labels(pats);
    if s > 0 {
        let f = failure[s] as int;
        assert(has_parent(labels, s));
        assert(is_longest_suffix_state(labels, labels[s].skip(1), f));
        assert(labels[f].len() <= labels[s].skip(1).len());
        lemma_same_output(pats, failure, output1, output2, f);
    }
}

/// The state that `steps` failure links lead to from `s`.
pub open spec fn follow_links(failure: Seq<usize>, s: int, steps: nat) -> int
    decreases steps,
{
    if steps == 0 {
        s
    } else {
        follow_links(failure, failure[s] as int, (steps - 1) as nat)
    }
}

/// In an automaton the root has a transition under every symbol and no
/// other state has one to the root; the failure links lead from every state
/// to the root in no more steps than the label of the state has symbols;
/// and every state holds what its failure state holds.
pub proof fn theorem_automaton_is_sound(
    pats: Seq<Seq<u8>>,
    automaton: Seq<MultiPatternData<SymbolSet>>,
    s: int,
)
    requires
        is_automaton_for(automaton, pats),
        0 <= s < trie_labels(pats).len(),
    ensures
        forall|c: int|
            0 <= c < ASIZE ==> 0 <= #[trigger] automaton[1]->PatternIntVecVec_0@[0]@[c]
                < trie_labels(pats).len(),
        s > 0 ==> forall|c: int|
            0 <= c < ASIZE ==> #[trigger] automaton[1]->PatternIntVecVec_0@[s]@[c] != 0,
        follow_links(automaton[2]->PatternUsizeVec_0@, s, trie_labels(pats)[s].len()) == 0,
        forall|i: usize|
            automaton[3]->PatternTypeVec_0@[automaton[2]->PatternUsizeVec_0@[s] as int]@.contains(i)
                ==> automaton[3]->PatternTypeVec_0@[s]@.contains(i),
{
    let labels = trie_labels(pats);
    let goto = automaton[1]->PatternIntVecVec_0@;
    let failure = automaton[2]->PatternUsizeVec_0@;
    let output = automaton[3]->PatternTypeVec_0@;
    lemma_trie_labels(pats);
    assert forall|c: int| 0 <= c < ASIZE implies 0 <= #[trigger] goto[0]@[c] < labels.len() by {
        assert(is_goto_entry(labels, 0, c as u8, goto[0]@[c] as int, true));
    }
    if s > 0 {
        assert forall|c: int| 0 <= c < ASIZE implies #[trigger] goto[s]@[c] != 0 by {
            assert(is_goto_entry(labels, s, c as u8, goto[s]@[c] as int, true));
        }
        lemma_ordered_union(terminal_indices(pats, labels[s]), output[failure[s] as int]@);
    }
    lemma_links_reach_root(labels, failure, s, labels[s].len());
}

/// Every pattern has its state, the one that its symbols lead to from the
/// root, and that state holds the number of the pattern: with the number
/// of every pattern equal to it, and with the numbers of the patterns that
/// end it.
pub proof fn theorem_pattern_state_holds_its_number(
    pats: Seq<Seq<u8>>,
    automaton: Seq<MultiPatternData<SymbolSet>>,
    i: int,
) -> (s: int)
    requires
        is_automaton_for(automaton, pats),
        0 <= i < pats.len(),
    ensures
        0 <= s < trie_labels(pats).len(),
        trie_labels(pats)[s] == pats[i],
        automaton[3]->PatternTypeVec_0@[s]@.contains(i as usize),
        forall|j: int|
            0 <= j < pats.len() && is_suffix(#[trigger] pats[j], pats[i])
                ==> automaton[3]->PatternTypeVec_0@[s]@.contains(j as usize),
{
    let labels = trie_labels(pats);
    lemma_trie_labels(pats);
    assert(labels.contains(pats[i]));
    let s = choose|s: int| 0 <= s < labels.len() && labels[s] == pats[i];
    assert(is_suffix(pats[i], labels[s])) by {
        assert(pats[i].skip(0) =~= pats[i]);
    }
    s
}

/// Entering a pattern that is a prefix of an earlier pattern, or equal to
/// one, makes no state and changes no transition: the label of every state
/// and every row of the table stay as they were, so the number of the
/// pattern goes to a state that was there before.
pub proof fn theorem_present_pattern_makes_no_state(
    labels: Seq<Seq<u8>>,
    pat: Seq<u8>,
    before: Seq<Vec<i32>>,
    after: Seq<Vec<i32>>,
)
    requires
        labels_wf(labels),
        labels.contains(pat),
        is_goto_table(before, labels, false),
        is_goto_table(after, add_prefixes(labels, pat, pat.len()), false),
    ensures
        add_prefixes(labels, pat, pat.len()) == labels,
        after.len() == before.len(),
        forall|s: int| 0 <= s < before.len() ==> (#[trigger] after[s])@ == before[s]@,
{
    assert(pat.take(pat.len() as int) =~= pat);
    lemma_add_present_prefixes(labels, pat, pat.len());
    assert forall|s: int| 0 <= s < before.len() implies (#[trigger] after[s])@ == before[s]@ by {
        assert forall|c: int| 0 <= c < before[s]@.len() implies after[s]@[c] == before[s]@[c] by {
            assert(is_goto_entry(labels, s, c as u8, before[s]@[c] as int, false));
            assert(is_goto_entry(labels, s, c as u8, after[s]@[c] as int, false));
        }
        assert(after[s]@ =~= before[s]@);
    }
}

/// Every state but the root is entered by one transition only: from the
/// state of its label without the last symbol, under that symbol.
pub proof fn theorem_one_way_into_each_state(
    pats: Seq<Seq<u8>>,
    automaton: Seq<MultiPatternData<SymbolSet>>,
    s: int,
)
    requires
        is_automaton_for(automaton, pats),
        1 <= s < trie_labels(pats).len(),
    ensures
        exists|r: int, c: int|
            0 <= r < trie_labels(pats).len() && 0 <= c < ASIZE
                && #[trigger] automaton[1]->PatternIntVecVec_0@[r]@[c] == s,
        forall|r: int, c: int, q: int, d: int|
            0 <= r < trie_labels(pats).len() && 0 <= c < ASIZE && 0 <= q < trie_labels(pats).len()
                && 0 <= d < ASIZE && #[trigger] automaton[1]->PatternIntVecVec_0@[r]@[c] == s
                && #[trigger] automaton[1]->PatternIntVecVec_0@[q]@[d] == s ==> r == q && c == d,
{
    let labels = trie_labels(pats);
    let goto = automaton[1]->PatternIntVecVec_0@;
    lemma_trie_labels(pats);
    assert(has_parent(labels, s));
    let p = parent(labels, s);
    lemma_child_transition(goto, labels, s, p);
    assert(goto[p]@[labels[s].last() as int] == s);
    assert forall|r: int, c: int, q: int, d: int|
        0 <= r < labels.len() && 0 <= c < ASIZE && 0 <= q < labels.len() && 0 <= d < ASIZE
            && #[trigger] goto[r]@[c] == s && #[trigger] goto[q]@[d] == s implies r == q && c
        == d by {
        assert(is_goto_entry(labels, r, c as u8, goto[r]@[c] as int, true));
        assert(is_goto_entry(labels, q, d as u8, goto[q]@[d] as int, true));
        assert(labels[r].push(c as u8).drop_last() =~= labels[r]);
        assert(labels[q].push(d as u8).drop_last() =~= labels[q]);
        assert(labels[r].push(c as u8).last() == c as u8);
        assert(labels[q].push(d as u8).last() == d as u8);
    }
}

/// Each failure link leads to a shorter label, so as many links as the
/// label has symbols lead to the root.
proof fn lemma_links_reach_root(labels: Seq<Seq<u8>>, failure: Seq<usize>, s: int, steps: nat)
    requires
        labels_wf(labels),
        is_failure_table(failure, labels),
        0 <= s < labels.len(),
        labels[s].len() <= steps,
    ensures
        follow_links(failure, s, steps) == 0,
    decreases steps,
{
    if steps > 0 {
        if s > 0 {
            let f = failure[s] as int;
            assert(has_parent(labels, s));
            assert(is_longest_suffix_state(labels, labels[s].skip(1), f));
            assert(labels[f].len() <= labels[s].skip(1).len());
            lemma_links_reach_root(labels, failure, f, (steps - 1) as nat);
        } else {
            lemma_links_reach_root(labels, failure, 0, (steps - 1) as nat);
        }
    } else {
        assert(labels[s] =~= labels[0]);
    }
}

} // verus!

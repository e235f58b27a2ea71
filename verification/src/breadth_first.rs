//! The order in which the failure links are computed: breadth first, so
//! that every state that a computation looks at is finished before.

use crate::occurrence::{is_suffix, lemma_suffix_transitive, lemma_suffixes_nest};
use crate::symbol_set::{lemma_ordered_union, ordered_union, SymbolSet};
use crate::trie::{
    has_parent, is_goto_entry, is_goto_table, is_longest_suffix_state, labels_wf, parent, ASIZE,
};
use vstd::prelude::*;

verus! {

/// The label of `t` is the label of `r` and one more symbol.
pub open spec fn child_of(labels: Seq<Seq<u8>>, t: int, r: int) -> bool {
    labels[t].len() > 0 && labels[t].drop_last() == labels[r]
}

/// Pattern `i` was recorded in a state whose label ends the label of `s`.
pub open spec fn inherits(labels: Seq<Seq<u8>>, initial: Seq<SymbolSet>, s: int, i: usize) -> bool {
    exists|u: int|
        0 <= u < labels.len() && is_suffix(#[trigger] labels[u], labels[s]) && initial[u]@.contains(
            i,
        )
}

/// Every symbol under which some state has a transition to a state other
/// than the root is in `alphabet`, and `alphabet` holds symbols only, each
/// once.
pub open spec fn is_alphabet_of(alphabet: Seq<usize>, goto: Seq<Vec<i32>>) -> bool {
    &&& alphabet.no_duplicates()
    &&& forall|k: int| 0 <= k < alphabet.len() ==> #[trigger] alphabet[k] < ASIZE
    &&& forall|s: int, c: int|
        0 <= s < goto.len() && 0 <= c < ASIZE && #[trigger] goto[s]@[c] > 0 ==> alphabet.contains(
            c as usize,
        )
}

/// State `s` is finished: its failure link is right, and its output is
/// what it held at first followed by what the output of its failure state
/// adds, so that it holds what every label that ends its own held at first.
pub open spec fn is_done(
    labels: Seq<Seq<u8>>,
    failure: Seq<usize>,
    output: Seq<SymbolSet>,
    initial: Seq<SymbolSet>,
    s: int,
) -> bool {
    &&& 0 <= failure[s] < labels.len()
    &&& if s == 0 {
        failure[0] == 0 && output[0]@ == initial[0]@
    } else {
        &&& is_longest_suffix_state(labels, labels[s].skip(1), failure[s] as int)
        &&& output[s]@ == ordered_union(initial[s]@, output[failure[s] as int]@)
    }
    &&& forall|i: usize| #[trigger] output[s]@.contains(i) <==> inherits(labels, initial, s, i)
}

/// State `t` is due in the queue: it is a child of a state that was taken
/// out before, or a child of the state now in work under one of the first
/// `upto` symbols of the alphabet.
pub open spec fn enqueued_by(
    labels: Seq<Seq<u8>>,
    alphabet: Seq<usize>,
    order: Seq<int>,
    h: int,
    upto: int,
    t: int,
) -> bool {
    ||| exists|i: int| 0 <= i < h && child_of(labels, t, #[trigger] order[i])
    ||| (h < order.len() && child_of(labels, t, order[h]) && alphabet.take(upto).contains(
        labels[t].last() as usize,
    ))
}

/// The list is in order: the root first, no state twice, shorter labels
/// before longer ones, no label more than one symbol longer than that of
/// the state in work, and no state with a label as short as that one is
/// missing.
#[verifier::opaque]
pub open spec fn bfs_shape(labels: Seq<Seq<u8>>, order: Seq<int>, h: int) -> bool {
    &&& 0 <= h <= order.len()
    &&& order.len() >= 1
    &&& order[0] == 0
    &&& forall|i: int| 0 <= i < order.len() ==> 0 <= #[trigger] order[i] < labels.len()
    &&& forall|i: int, j: int| 0 <= i < j < order.len() ==> order[i] != order[j]
    &&& forall|i: int, j: int|
        0 <= i <= j < order.len() ==> labels[order[i]].len() <= labels[order[j]].len()
    &&& (h < order.len() ==> forall|i: int|
        0 <= i < order.len() ==> labels[#[trigger] order[i]].len() <= labels[order[h]].len() + 1)
    &&& (h < order.len() ==> forall|u: int|
        0 <= u < labels.len() && (#[trigger] labels[u]).len() <= labels[order[h]].len()
            ==> order.contains(u))
}

/// The list holds the root and the states that are due in the queue, no
/// others.
#[verifier::opaque]
pub open spec fn bfs_listed(
    labels: Seq<Seq<u8>>,
    alphabet: Seq<usize>,
    order: Seq<int>,
    h: int,
    upto: int,
) -> bool {
    &&& 0 <= upto <= alphabet.len()
    &&& (h == order.len() ==> upto == 0)
    &&& forall|t: int|
        1 <= t < labels.len() ==> (order.contains(t) <==> #[trigger] enqueued_by(
            labels,
            alphabet,
            order,
            h,
            upto,
            t,
        ))
}

/// The listed states are finished, their failure states are listed, and
/// the other states have the output that they had at first.
#[verifier::opaque]
pub open spec fn bfs_finished(
    labels: Seq<Seq<u8>>,
    order: Seq<int>,
    failure: Seq<usize>,
    output: Seq<SymbolSet>,
    initial: Seq<SymbolSet>,
) -> bool {
    &&& failure.len() == labels.len()
    &&& output.len() == labels.len()
    &&& initial.len() == labels.len()
    &&& forall|i: int|
        0 <= i < order.len() ==> is_done(labels, failure, output, initial, #[trigger] order[i])
    &&& forall|i: int|
        0 <= i < order.len() ==> order.contains(failure[#[trigger] order[i]] as int)
    &&& forall|t: int|
        0 <= t < labels.len() && !order.contains(t) ==> (#[trigger] output[t])@ == initial[t]@
}

/// What holds while the links are computed. `order` lists the root and
/// then every state that entered the queue so far; the first `h` of them
/// have left it and `order[h]` is in work, at symbol number `upto`.
pub open spec fn bfs_inv(
    labels: Seq<Seq<u8>>,
    alphabet: Seq<usize>,
    order: Seq<int>,
    h: int,
    upto: int,
    failure: Seq<usize>,
    output: Seq<SymbolSet>,
    initial: Seq<SymbolSet>,
) -> bool {
    &&& bfs_shape(labels, order, h)
    &&& bfs_listed(labels, alphabet, order, h, upto)
    &&& bfs_finished(labels, order, failure, output, initial)
}

/// At the start only the root is listed, and it is in work.
pub proof fn lemma_bfs_start(
    labels: Seq<Seq<u8>>,
    alphabet: Seq<usize>,
    failure: Seq<usize>,
    initial: Seq<SymbolSet>,
)
    requires
        labels_wf(labels),
        failure.len() == labels.len(),
        initial.len() == labels.len(),
        failure[0] == 0,
    ensures
        bfs_inv(labels, alphabet, seq![0int], 0, 0, failure, initial, initial),
{
    reveal(bfs_shape);
    reveal(bfs_listed);
    reveal(bfs_finished);
    let order = seq![0int];
    assert forall|u: int|
        0 <= u < labels.len() && (#[trigger] labels[u]).len() <= labels[order[0]].len() implies order.contains(
        u,
    ) by {
        assert(labels[u] =~= labels[0]);
        assert(order[0] == u);
    }
    assert forall|t: int| 1 <= t < labels.len() implies (order.contains(t) <==> #[trigger] enqueued_by(
        labels,
        alphabet,
        order,
        0,
        0,
        t,
    )) by {
        assert(alphabet.take(0) =~= Seq::<usize>::empty());
    }
    assert forall|i: usize| #[trigger] initial[0]@.contains(i) <==> inherits(labels, initial, 0, i) by {
        if initial[0]@.contains(i) {
            assert(is_suffix(labels[0], labels[0])) by {
                assert(labels[0].skip(0) =~= labels[0]);
            }
        }
        if inherits(labels, initial, 0, i) {
            let u = choose|u: int|
                0 <= u < labels.len() && is_suffix(#[trigger] labels[u], labels[0])
                    && initial[u]@.contains(i);
            assert(labels[u] =~= labels[0]);
        }
    }
    assert(is_done(labels, failure, initial, initial, order[0]));
    assert(order.contains(failure[order[0]] as int)) by {
        assert(order[0] == 0);
    }
}

/// No more states are listed than there are.
pub proof fn lemma_bfs_bound(labels: Seq<Seq<u8>>, order: Seq<int>, h: int)
    requires
        bfs_shape(labels, order, h),
    ensures
        order.len() <= labels.len(),
{
    reveal(bfs_shape);
    let all = vstd::set_lib::set_int_range(0, labels.len() as int);
    vstd::set_lib::lemma_int_range(0, labels.len() as int);
    assert(order.no_duplicates());
    order.unique_seq_to_set();
    assert(order.to_set().subset_of(all)) by {
        assert forall|x: int| order.to_set().contains(x) implies all.contains(x) by {
            let k = choose|k: int| 0 <= k < order.len() && order[k] == x;
            assert(0 <= order[k] < labels.len());
        }
    }
    vstd::set_lib::lemma_len_subset(order.to_set(), all);
}

/// A child is the target of the transition from its parent under the last
/// symbol of its label.
pub proof fn lemma_child_transition(goto: Seq<Vec<i32>>, labels: Seq<Seq<u8>>, t: int, r: int)
    requires
        labels_wf(labels),
        is_goto_table(goto, labels, true),
        0 <= t < labels.len(),
        0 <= r < labels.len(),
        child_of(labels, t, r),
    ensures
        goto[r]@[labels[t].last() as int] == t,
        t > 0,
{
    let c = labels[t].last();
    assert(labels[r].push(c) =~= labels[t]);
    assert(is_goto_entry(labels, r, c as int as u8, goto[r]@[c as int] as int, true));
}

/// A sequence with one more element holds what it held and that element.
pub proof fn lemma_push_contains<T>(front: Seq<T>, last: T)
    ensures
        forall|x: T| #[trigger] front.push(last).contains(x) <==> front.contains(x) || x == last,
{
    let all = front.push(last);
    assert forall|x: T| #[trigger] all.contains(x) <==> front.contains(x) || x == last by {
        if front.contains(x) {
            let k = choose|k: int| 0 <= k < front.len() && front[k] == x;
            assert(all[k] == x);
        }
        if x == last {
            assert(all[front.len() as int] == x);
        }
        if all.contains(x) {
            let k = choose|k: int| 0 <= k < all.len() && all[k] == x;
            if k < front.len() {
                assert(front[k] == x);
            }
        }
    }
}

/// The state in work has no child under the next symbol: on to the symbol
/// after it.
pub proof fn lemma_listed_skip(
    goto: Seq<Vec<i32>>,
    labels: Seq<Seq<u8>>,
    alphabet: Seq<usize>,
    order: Seq<int>,
    h: int,
    upto: int,
)
    requires
        labels_wf(labels),
        is_goto_table(goto, labels, true),
        bfs_shape(labels, order, h),
        bfs_listed(labels, alphabet, order, h, upto),
        h < order.len(),
        upto < alphabet.len(),
        alphabet[upto] < ASIZE,
        goto[order[h]]@[alphabet[upto] as int] <= 0,
    ensures
        bfs_listed(labels, alphabet, order, h, upto + 1),
{
    reveal(bfs_shape);
    reveal(bfs_listed);
    let r = order[h];
    let a = alphabet[upto];
    let tried = alphabet.take(upto);
    let seen = alphabet.take(upto + 1);
    assert(seen =~= tried.push(a));
    lemma_push_contains(tried, a);
    assert forall|t: int| 1 <= t < labels.len() implies (order.contains(t) <==> #[trigger] enqueued_by(
        labels,
        alphabet,
        order,
        h,
        upto + 1,
        t,
    )) by {
        assert(order.contains(t) <==> enqueued_by(labels, alphabet, order, h, upto, t));
        if child_of(labels, t, r) {
            lemma_child_transition(goto, labels, t, r);
        }
    }
}

/// The child under the next symbol of the state in work is not listed
/// yet.
pub proof fn lemma_child_is_new(
    goto: Seq<Vec<i32>>,
    labels: Seq<Seq<u8>>,
    alphabet: Seq<usize>,
    order: Seq<int>,
    h: int,
    upto: int,
    s: int,
)
    requires
        labels_wf(labels),
        is_goto_table(goto, labels, true),
        alphabet.no_duplicates(),
        bfs_shape(labels, order, h),
        bfs_listed(labels, alphabet, order, h, upto),
        h < order.len(),
        upto < alphabet.len(),
        alphabet[upto] < ASIZE,
        s == goto[order[h]]@[alphabet[upto] as int],
        s > 0,
    ensures
        !order.contains(s),
        child_of(labels, s, order[h]),
        labels[s] == labels[order[h]].push(alphabet[upto] as u8),
        s < labels.len(),
{
    reveal(bfs_shape);
    reveal(bfs_listed);
    let r = order[h];
    let a = alphabet[upto];
    let tried = alphabet.take(upto);
    assert(is_goto_entry(labels, r, a as int as u8, s, true));
    assert(labels[s].drop_last() =~= labels[r]);
    if order.contains(s) {
        assert(enqueued_by(labels, alphabet, order, h, upto, s));
        if tried.contains(labels[s].last() as usize) {
            let k = choose|k: int| 0 <= k < tried.len() && tried[k] == a;
            assert(alphabet[k] == alphabet[upto]);
            assert(false);
        }
        let i = choose|i: int| 0 <= i < h && child_of(labels, s, #[trigger] order[i]);
        assert(labels[order[i]] == labels[order[h]]);
        assert(false);
    }
}

/// With the new child at its end the list is still in order.
pub proof fn lemma_shape_push(labels: Seq<Seq<u8>>, order: Seq<int>, h: int, s: int)
    requires
        bfs_shape(labels, order, h),
        h < order.len(),
        0 < s < labels.len(),
        !order.contains(s),
        labels[s].len() == labels[order[h]].len() + 1,
    ensures
        bfs_shape(labels, order.push(s), h),
{
    reveal(bfs_shape);
    let longer = order.push(s);
    lemma_push_contains(order, s);
    assert forall|i: int| 0 <= i < longer.len() implies longer[i] == if i < order.len() {
        order[i]
    } else {
        s
    } by {}
    assert forall|i: int, j: int| 0 <= i < j < longer.len() implies longer[i] != longer[j] by {
        if j == order.len() {
            assert(order[i] == longer[i]);
            if longer[i] == s {
                assert(order.contains(s));
            }
        }
    }
    assert forall|i: int, j: int| 0 <= i <= j < longer.len() implies labels[longer[i]].len()
        <= labels[longer[j]].len() by {
        if j == order.len() && i < order.len() {
            assert(labels[order[i]].len() <= labels[order[h]].len() + 1);
        }
    }
    assert forall|i: int| 0 <= i < longer.len() implies labels[#[trigger] longer[i]].len()
        <= labels[longer[h]].len() + 1 by {
        if i < order.len() {
            assert(labels[order[i]].len() <= labels[order[h]].len() + 1);
        }
    }
    assert forall|u: int|
        0 <= u < labels.len() && (#[trigger] labels[u]).len() <= labels[longer[h]].len() implies longer.contains(
        u,
    ) by {
        assert(order.contains(u));
    }
}

/// With the new child at its end the list holds what is due.
pub proof fn lemma_listed_push(
    goto: Seq<Vec<i32>>,
    labels: Seq<Seq<u8>>,
    alphabet: Seq<usize>,
    order: Seq<int>,
    h: int,
    upto: int,
    s: int,
)
    requires
        labels_wf(labels),
        is_goto_table(goto, labels, true),
        bfs_shape(labels, order, h),
        bfs_listed(labels, alphabet, order, h, upto),
        h < order.len(),
        upto < alphabet.len(),
        alphabet[upto] < ASIZE,
        s == goto[order[h]]@[alphabet[upto] as int],
        0 < s < labels.len(),
        child_of(labels, s, order[h]),
        labels[s] == labels[order[h]].push(alphabet[upto] as u8),
    ensures
        bfs_listed(labels, alphabet, order.push(s), h, upto + 1),
{
    reveal(bfs_shape);
    reveal(bfs_listed);
    let r = order[h];
    let a = alphabet[upto];
    let tried = alphabet.take(upto);
    let seen = alphabet.take(upto + 1);
    let longer = order.push(s);
    assert(seen =~= tried.push(a));
    lemma_push_contains(tried, a);
    lemma_push_contains(order, s);
    assert forall|t: int| 1 <= t < labels.len() implies (longer.contains(t) <==> #[trigger] enqueued_by(
        labels,
        alphabet,
        longer,
        h,
        upto + 1,
        t,
    )) by {
        assert(order.contains(t) <==> enqueued_by(labels, alphabet, order, h, upto, t));
        if exists|i: int| 0 <= i < h && child_of(labels, t, #[trigger] order[i]) {
            let i = choose|i: int| 0 <= i < h && child_of(labels, t, #[trigger] order[i]);
            assert(child_of(labels, t, longer[i]));
        }
        if exists|i: int| 0 <= i < h && child_of(labels, t, #[trigger] longer[i]) {
            let i = choose|i: int| 0 <= i < h && child_of(labels, t, #[trigger] longer[i]);
            assert(child_of(labels, t, order[i]));
        }
        assert(longer[h] == order[h]);
        if child_of(labels, t, r) && labels[t].last() as usize == a {
            lemma_child_transition(goto, labels, t, r);
            assert(t == s);
        }
    }
}

/// What the new child holds after taking over the output of its failure
/// state is what every label that ends its own held at first.
pub proof fn lemma_child_output(
    labels: Seq<Seq<u8>>,
    output: Seq<SymbolSet>,
    initial: Seq<SymbolSet>,
    s: int,
    f: int,
    merged: Seq<usize>,
)
    requires
        labels_wf(labels),
        0 < s < labels.len(),
        is_longest_suffix_state(labels, labels[s].skip(1), f),
        forall|i: usize| #[trigger] output[f]@.contains(i) <==> inherits(labels, initial, f, i),
        merged == ordered_union(initial[s]@, output[f]@),
    ensures
        forall|i: usize| #[trigger] merged.contains(i) <==> inherits(labels, initial, s, i),
{
    let rest = labels[s].skip(1);
    assert(has_parent(labels, s));
    lemma_ordered_union(initial[s]@, output[f]@);
    assert(is_suffix(rest, labels[s])) by {
        assert(labels[s].skip(labels[s].len() - rest.len()) =~= rest);
    }
    assert forall|p: usize| #[trigger] merged.contains(p) <==> inherits(labels, initial, s, p) by {
        if initial[s]@.contains(p) {
            assert(is_suffix(labels[s], labels[s])) by {
                assert(labels[s].skip(0) =~= labels[s]);
            }
        }
        if output[f]@.contains(p) {
            assert(inherits(labels, initial, f, p));
            let u = choose|u: int|
                0 <= u < labels.len() && is_suffix(#[trigger] labels[u], labels[f])
                    && initial[u]@.contains(p);
            lemma_suffix_transitive(labels[f], rest, labels[s]);
            lemma_suffix_transitive(labels[u], labels[f], labels[s]);
        }
        if inherits(labels, initial, s, p) {
            let u = choose|u: int|
                0 <= u < labels.len() && is_suffix(#[trigger] labels[u], labels[s])
                    && initial[u]@.contains(p);
            if labels[u].len() == labels[s].len() {
                assert(labels[u] =~= labels[s]);
                assert(u == s);
            } else {
                lemma_suffixes_nest(labels[u], rest, labels[s]);
                assert(labels[u].len() <= labels[f].len());
                lemma_suffixes_nest(labels[u], labels[f], rest);
                assert(inherits(labels, initial, f, p));
            }
        }
    }
}

/// With the new child linked and its output merged, the listed states and
/// the child are finished.
pub proof fn lemma_finished_push(
    labels: Seq<Seq<u8>>,
    order: Seq<int>,
    h: int,
    failure: Seq<usize>,
    output: Seq<SymbolSet>,
    initial: Seq<SymbolSet>,
    s: int,
    f: usize,
    linked: Seq<usize>,
    merged: Seq<SymbolSet>,
)
    requires
        labels_wf(labels),
        bfs_shape(labels, order, h),
        bfs_finished(labels, order, failure, output, initial),
        h < order.len(),
        0 < s < labels.len(),
        !order.contains(s),
        labels[s].len() == labels[order[h]].len() + 1,
        is_longest_suffix_state(labels, labels[s].skip(1), f as int),
        linked == failure.update(s, f),
        merged.len() == output.len(),
        forall|t: int| 0 <= t < output.len() && t != s ==> (#[trigger] merged[t])@ == output[t]@,
        merged[s]@ == ordered_union(output[s]@, output[f as int]@),
    ensures
        bfs_finished(labels, order.push(s), linked, merged, initial),
{
    reveal(bfs_shape);
    reveal(bfs_finished);
    let longer = order.push(s);
    let rest = labels[s].skip(1);
    lemma_push_contains(order, s);
    assert(labels[f as int].len() <= rest.len());
    assert(order.contains(f as int));
    assert(f != s);
    let fi = choose|k: int| 0 <= k < order.len() && order[k] == f as int;
    assert(is_done(labels, failure, output, initial, order[fi]));
    assert(output[s]@ == initial[s]@);
    assert(merged[f as int]@ == output[f as int]@);
    lemma_child_output(labels, output, initial, s, f as int, merged[s]@);
    assert(linked[s] == f);
    assert(is_done(labels, linked, merged, initial, s));
    assert forall|i: int| 0 <= i < longer.len() implies is_done(
        labels,
        linked,
        merged,
        initial,
        #[trigger] longer[i],
    ) by {
        if i < order.len() {
            let x = order[i];
            assert(longer[i] == x);
            assert(is_done(labels, failure, output, initial, order[i]));
            assert(order.contains(x));
            assert(order.contains(failure[order[i]] as int));
            assert(merged[x]@ == output[x]@);
            assert(merged[failure[x] as int]@ == output[failure[x] as int]@);
            assert(linked[x] == failure[x]);
        } else {
            assert(longer[i] == s);
        }
    }
    assert forall|i: int| 0 <= i < longer.len() implies longer.contains(
        linked[#[trigger] longer[i]] as int,
    ) by {
        if i < order.len() {
            assert(longer[i] == order[i]);
            assert(order.contains(failure[order[i]] as int));
            assert(order.contains(order[i]));
        } else {
            assert(longer[i] == s);
        }
    }
}

/// The state in work has been taken through the whole alphabet: the next
/// state of the list comes into work, and the list holds what is due then.
pub proof fn lemma_bfs_advance(
    goto: Seq<Vec<i32>>,
    labels: Seq<Seq<u8>>,
    alphabet: Seq<usize>,
    order: Seq<int>,
    h: int,
)
    requires
        labels_wf(labels),
        is_goto_table(goto, labels, true),
        is_alphabet_of(alphabet, goto),
        bfs_shape(labels, order, h),
        bfs_listed(labels, alphabet, order, h, alphabet.len() as int),
        h < order.len(),
    ensures
        bfs_shape(labels, order, h + 1),
        bfs_listed(labels, alphabet, order, h + 1, 0),
{
    reveal(bfs_shape);
    reveal(bfs_listed);
    let r = order[h];
    assert(alphabet.take(alphabet.len() as int) =~= alphabet);
    assert(alphabet.take(0) =~= Seq::<usize>::empty());
    assert forall|t: int| 1 <= t < labels.len() implies (order.contains(t) <==> #[trigger] enqueued_by(
        labels,
        alphabet,
        order,
        h + 1,
        0,
        t,
    )) by {
        assert(order.contains(t) <==> enqueued_by(
            labels,
            alphabet,
            order,
            h,
            alphabet.len() as int,
            t,
        ));
        if child_of(labels, t, r) {
            lemma_child_transition(goto, labels, t, r);
            let c = labels[t].last();
            assert(goto[r]@[c as int] > 0);
            assert(alphabet.contains(c as int as usize));
        }
        if exists|i: int| 0 <= i < h + 1 && child_of(labels, t, #[trigger] order[i]) {
            let i = choose|i: int| 0 <= i < h + 1 && child_of(labels, t, #[trigger] order[i]);
            if i < h {
            } else {
                assert(child_of(labels, t, r));
            }
        }
    }
    if h + 1 < order.len() {
        let next = order[h + 1];
        assert(labels[r].len() <= labels[next].len());
        assert(labels[next].len() <= labels[r].len() + 1);
        assert forall|i: int| 0 <= i < order.len() implies labels[#[trigger] order[i]].len()
            <= labels[next].len() + 1 by {
            assert(labels[order[i]].len() <= labels[r].len() + 1);
        }
        assert forall|u: int|
            0 <= u < labels.len() && (#[trigger] labels[u]).len() <= labels[next].len() implies order.contains(
            u,
        ) by {
            if labels[u].len() > labels[r].len() {
                assert(u > 0) by {
                    if u == 0 {
                        assert(labels[0].len() == 0);
                    }
                }
                assert(has_parent(labels, u));
                let p = parent(labels, u);
                assert(labels[p].len() == labels[r].len());
                assert(order.contains(p));
                let j = choose|j: int| 0 <= j < order.len() && order[j] == p;
                if j > h {
                    assert(labels[order[h + 1]].len() <= labels[order[j]].len());
                    assert(false);
                }
                assert(child_of(labels, u, order[j]));
                assert(enqueued_by(labels, alphabet, order, h + 1, 0, u));
            }
        }
    }
}

/// When the queue has run empty, every state is listed.
pub proof fn lemma_bfs_all_listed(
    labels: Seq<Seq<u8>>,
    alphabet: Seq<usize>,
    order: Seq<int>,
    t: int,
)
    requires
        labels_wf(labels),
        bfs_shape(labels, order, order.len() as int),
        bfs_listed(labels, alphabet, order, order.len() as int, 0),
        0 <= t < labels.len(),
    ensures
        order.contains(t),
    decreases t,
{
    reveal(bfs_shape);
    reveal(bfs_listed);
    if t == 0 {
        assert(order[0] == 0);
    } else {
        assert(has_parent(labels, t));
        let p = parent(labels, t);
        lemma_bfs_all_listed(labels, alphabet, order, p);
        let j = choose|j: int| 0 <= j < order.len() && order[j] == p;
        assert(child_of(labels, t, order[j]));
        assert(enqueued_by(labels, alphabet, order, order.len() as int, 0, t));
    }
}

/// The state in work is a state, not the root once the root has left the
/// queue, and finished.
pub proof fn lemma_bfs_front(
    labels: Seq<Seq<u8>>,
    order: Seq<int>,
    h: int,
    failure: Seq<usize>,
    output: Seq<SymbolSet>,
    initial: Seq<SymbolSet>,
)
    requires
        labels_wf(labels),
        bfs_shape(labels, order, h),
        bfs_finished(labels, order, failure, output, initial),
        h < order.len(),
    ensures
        0 <= order[h] < labels.len(),
        h == 0 ==> order[h] == 0,
        h >= 1 ==> order[h] >= 1 && labels[order[h]].len() > 0,
        is_done(labels, failure, output, initial, order[h]),
        failure.len() == labels.len(),
        output.len() == labels.len(),
{
    reveal(bfs_shape);
    reveal(bfs_finished);
    if h >= 1 {
        assert(order[0] != order[h]);
        assert(has_parent(labels, order[h]));
    }
}

/// A state whose label is no longer than that of the state in work is
/// finished.
pub proof fn lemma_bfs_short_is_done(
    labels: Seq<Seq<u8>>,
    order: Seq<int>,
    h: int,
    failure: Seq<usize>,
    output: Seq<SymbolSet>,
    initial: Seq<SymbolSet>,
    state: int,
)
    requires
        bfs_shape(labels, order, h),
        bfs_finished(labels, order, failure, output, initial),
        h < order.len(),
        0 <= state < labels.len(),
        labels[state].len() <= labels[order[h]].len(),
    ensures
        is_done(labels, failure, output, initial, state),
{
    reveal(bfs_shape);
    reveal(bfs_finished);
    assert(order.contains(state));
    let k = choose|k: int| 0 <= k < order.len() && order[k] == state;
    assert(is_done(labels, failure, output, initial, order[k]));
}

/// When the queue has run empty, every state is finished.
pub proof fn lemma_bfs_all_done(
    labels: Seq<Seq<u8>>,
    alphabet: Seq<usize>,
    order: Seq<int>,
    failure: Seq<usize>,
    output: Seq<SymbolSet>,
    initial: Seq<SymbolSet>,
    s: int,
)
    requires
        labels_wf(labels),
        bfs_inv(labels, alphabet, order, order.len() as int, 0, failure, output, initial),
        0 <= s < labels.len(),
    ensures
        is_done(labels, failure, output, initial, s),
        failure.len() == labels.len(),
        output.len() == labels.len(),
{
    lemma_bfs_all_listed(labels, alphabet, order, s);
    reveal(bfs_finished);
    let k = choose|k: int| 0 <= k < order.len() && order[k] == s;
    assert(is_done(labels, failure, output, initial, order[k]));
}

} // verus!

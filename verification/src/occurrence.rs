//! What it means for a pattern to occur in a text, and how often it does.
//!
//! Every matcher of this crate states its result over `count_occurrences`.

use vstd::prelude::*;

verus! {

/// `p` is a suffix of `w`.
pub open spec fn is_suffix(p: Seq<u8>, w: Seq<u8>) -> bool {
    p.len() <= w.len() && w.skip(w.len() - p.len()) == p
}

/// An occurrence of `pat` in `text` ends at position `end`: the symbols of
/// `text` from index `end - pat.len()` up to index `end`, not included, are
/// `pat`. End positions count from 1, so the first symbol of `text` ends at
/// position 1.
pub open spec fn occurs_at(pat: Seq<u8>, text: Seq<u8>, end: int) -> bool {
    pat.len() <= end <= text.len() && text.subrange(end - pat.len(), end) == pat
}

/// The end positions of all occurrences of `pat` in `text`, overlapping
/// ones included.
pub open spec fn end_positions(pat: Seq<u8>, text: Seq<u8>) -> Set<int> {
    Set::new(|end: int| occurs_at(pat, text, end))
}

/// The number of occurrences of `pat` in `text`.
pub open spec fn count_occurrences(pat: Seq<u8>, text: Seq<u8>) -> nat {
    end_positions(pat, text).len()
}

/// A suffix of a suffix is a suffix.
pub proof fn lemma_suffix_transitive(a: Seq<u8>, b: Seq<u8>, c: Seq<u8>)
    requires
        is_suffix(a, b),
        is_suffix(b, c),
    ensures
        is_suffix(a, c),
{
    assert(c.skip(c.len() - a.len()) =~= b.skip(b.len() - a.len()));
}

/// Of two suffixes of one word, the shorter is a suffix of the longer.
pub proof fn lemma_suffixes_nest(a: Seq<u8>, b: Seq<u8>, w: Seq<u8>)
    requires
        is_suffix(a, w),
        is_suffix(b, w),
        a.len() <= b.len(),
    ensures
        is_suffix(a, b),
{
    assert(b.skip(b.len() - a.len()) =~= w.skip(w.len() - a.len()));
}

/// The suffixes of `w.push(c)` are the empty word and the suffixes of `w`
/// extended by `c`.
pub proof fn lemma_suffix_push(p: Seq<u8>, w: Seq<u8>, c: u8)
    ensures
        is_suffix(p, w.push(c)) <==> p.len() == 0 || (p.last() == c && is_suffix(
            p.drop_last(),
            w,
        )),
{
    let wc = w.push(c);
    if p.len() == 0 {
        assert(wc.skip(wc.len() - p.len()) =~= p);
    } else if is_suffix(p, wc) {
        assert(p.last() == wc.skip(wc.len() - p.len())[p.len() - 1]);
        assert(w.skip(w.len() - (p.len() - 1)) =~= p.drop_last());
    } else if p.last() == c && is_suffix(p.drop_last(), w) {
        let q = p.drop_last();
        assert(q == w.skip(w.len() - q.len()));
        assert forall|i: int| 0 <= i < p.len() implies wc.skip(wc.len() - p.len())[i] == p[i] by {
            if i < p.len() - 1 {
                assert(q[i] == w.skip(w.len() - q.len())[i]);
            }
        }
        assert(wc.skip(wc.len() - p.len()) =~= p);
    }
}

/// An occurrence ends at `end` if and only if the first `end` symbols of
/// the text end with the pattern.
pub proof fn lemma_occurs_at_suffix(pat: Seq<u8>, text: Seq<u8>, end: int)
    requires
        0 <= end <= text.len(),
    ensures
        occurs_at(pat, text, end) <==> is_suffix(pat, text.take(end)),
{
    if pat.len() <= end {
        assert(text.take(end).skip(end - pat.len()) =~= text.subrange(end - pat.len(), end));
    }
}

/// The end positions lie between 0 and the length of the text, so there are
/// finitely many, and no more than the text has prefixes.
pub proof fn lemma_end_positions_bounded(pat: Seq<u8>, text: Seq<u8>)
    ensures
        end_positions(pat, text).finite(),
        count_occurrences(pat, text) <= text.len() + 1,
        pat.len() > 0 ==> count_occurrences(pat, text) <= text.len(),
{
    let limit = text.len() as int + 1;
    let all = vstd::set_lib::set_int_range(0, limit);
    vstd::set_lib::lemma_int_range(0, limit);
    assert(end_positions(pat, text).subset_of(all));
    vstd::set_lib::lemma_len_subset(end_positions(pat, text), all);
    if pat.len() > 0 {
        let positive = vstd::set_lib::set_int_range(1, limit);
        vstd::set_lib::lemma_int_range(1, limit);
        assert(end_positions(pat, text).subset_of(positive)) by {
            assert(!occurs_at(pat, text, 0));
        }
        vstd::set_lib::lemma_len_subset(end_positions(pat, text), positive);
    }
}

/// A pattern with at least one symbol does not occur in the empty text.
pub proof fn lemma_count_in_empty_text(pat: Seq<u8>)
    requires
        pat.len() > 0,
    ensures
        count_occurrences(pat, Seq::<u8>::empty()) == 0,
{
    lemma_end_positions_bounded(pat, Seq::<u8>::empty());
}

/// One more symbol of text adds one occurrence if the longer text ends with
/// the pattern, and none otherwise.
pub proof fn lemma_count_push(pat: Seq<u8>, text: Seq<u8>, c: u8)
    ensures
        count_occurrences(pat, text.push(c)) == count_occurrences(pat, text) + if is_suffix(
            pat,
            text.push(c),
        ) {
            1nat
        } else {
            0nat
        },
{
    let longer = text.push(c);
    let before = end_positions(pat, text);
    let after = end_positions(pat, longer);
    let last = longer.len() as int;
    lemma_end_positions_bounded(pat, text);
    assert forall|end: int| 0 <= end <= text.len() implies (occurs_at(pat, longer, end)
        <==> occurs_at(pat, text, end)) by {
        if pat.len() <= end {
            assert(longer.subrange(end - pat.len(), end) =~= text.subrange(end - pat.len(), end));
        }
    }
    lemma_occurs_at_suffix(pat, longer, last);
    assert(longer.take(last) =~= longer);
    assert(!before.contains(last));
    if is_suffix(pat, longer) {
        assert(after =~= before.insert(last));
    } else {
        assert(after =~= before);
    }
}

/// A text holds at least the occurrences that its beginning holds.
pub proof fn lemma_count_of_beginning(pat: Seq<u8>, text: Seq<u8>, n: int)
    requires
        0 <= n <= text.len(),
    ensures
        count_occurrences(pat, text.take(n)) <= count_occurrences(pat, text),
{
    let beginning = text.take(n);
    lemma_end_positions_bounded(pat, text);
    assert forall|end: int| end_positions(pat, beginning).contains(end) implies end_positions(
        pat,
        text,
    ).contains(end) by {
        assert(beginning.subrange(end - pat.len(), end) =~= text.subrange(end - pat.len(), end));
    }
    vstd::set_lib::lemma_len_subset(end_positions(pat, beginning), end_positions(pat, text));
}

} // verus!

//! A small set of indices kept in insertion order and searched linearly.

use vstd::prelude::*;
use vstd::std_specs::iter::IteratorSpec;

verus! {

/// The elements of `s` with `e` among them: `s` itself where it holds `e`,
/// else `s` with `e` at its end.
pub open spec fn with_element(s: Seq<usize>, e: usize) -> Seq<usize> {
    if s.contains(e) {
        s
    } else {
        s.push(e)
    }
}

/// The elements of `a` followed by those elements of `b` that are not yet
/// present, each once, in the order in which `b` holds them.
pub open spec fn ordered_union(a: Seq<usize>, b: Seq<usize>) -> Seq<usize>
    decreases b.len(),
{
    if b.len() == 0 {
        a
    } else {
        with_element(ordered_union(a, b.drop_last()), b.last())
    }
}

/// `with_element` holds `e` and what `s` held, no more, and repeats nothing
/// if `s` repeated nothing.
pub proof fn lemma_with_element(s: Seq<usize>, e: usize)
    ensures
        with_element(s, e).contains(e),
        forall|x: usize| x != e ==> (#[trigger] with_element(s, e).contains(x) <==> s.contains(x)),
        s.no_duplicates() ==> with_element(s, e).no_duplicates(),
        with_element(s, e).take(s.len() as int) == s,
{
    let all = with_element(s, e);
    assert(all.take(s.len() as int) =~= s);
    if s.contains(e) {
    } else {
        assert(all[s.len() as int] == e);
        assert forall|x: usize| x != e implies (#[trigger] all.contains(x) <==> s.contains(x)) by {
            if s.contains(x) {
                let k = choose|k: int| 0 <= k < s.len() && s[k] == x;
                assert(all[k] == x);
            }
            if all.contains(x) {
                let k = choose|k: int| 0 <= k < all.len() && all[k] == x;
                assert(s[k] == x);
            }
        }
    }
}

/// `ordered_union` keeps `a` in front, holds exactly the elements of `a`
/// and `b`, and repeats nothing if `a` repeated nothing.
pub proof fn lemma_ordered_union(a: Seq<usize>, b: Seq<usize>)
    ensures
        a.len() <= ordered_union(a, b).len() <= a.len() + b.len(),
        ordered_union(a, b).take(a.len() as int) == a,
        forall|e: usize| #[trigger]
            ordered_union(a, b).contains(e) <==> a.contains(e) || b.contains(e),
        a.no_duplicates() ==> ordered_union(a, b).no_duplicates(),
    decreases b.len(),
{
    let u = ordered_union(a, b);
    if b.len() == 0 {
        assert(u.take(a.len() as int) =~= a);
    } else {
        let front = b.drop_last();
        let merged = ordered_union(a, front);
        lemma_ordered_union(a, front);
        assert(u.take(a.len() as int) =~= merged.take(a.len() as int));
        assert forall|e: usize| #[trigger] u.contains(e) <==> a.contains(e) || b.contains(e) by {
            if b.contains(e) {
                let i = choose|i: int| 0 <= i < b.len() && b[i] == e;
                if i < b.len() - 1 {
                    assert(front[i] == e);
                }
            }
            if front.contains(e) {
                let i = choose|i: int| 0 <= i < front.len() && front[i] == e;
                assert(b[i] == e);
            }
            assert(b[b.len() - 1] == b.last());
            if merged.contains(e) {
                let i = choose|i: int| 0 <= i < merged.len() && merged[i] == e;
                assert(u[i] == e);
            }
            if !merged.contains(b.last()) {
                assert(u[u.len() - 1] == b.last());
                if u.contains(e) {
                    let i = choose|i: int| 0 <= i < u.len() && u[i] == e;
                    if i < merged.len() {
                        assert(merged[i] == e);
                    }
                }
            }
        }
    }
}

/// A set of indices. Its view lists the elements in the order in which
/// they came in, each once: neither `insert` nor `union` adds an element
/// that is already there.
#[derive(Debug)]
pub struct SymbolSet {
    elements: Vec<usize>,
}

impl View for SymbolSet {
    type V = Seq<usize>;

    closed spec fn view(&self) -> Seq<usize> {
        self.elements@
    }
}

impl Clone for SymbolSet {
    fn clone(&self) -> (copy: Self)
        ensures
            copy@ == self@,
    {
        SymbolSet { elements: self.elements.clone() }
    }
}

impl SymbolSet {
    /// The empty set.
    pub fn new() -> (set: SymbolSet)
        ensures
            set@ == Seq::<usize>::empty(),
    {
        SymbolSet { elements: Vec::with_capacity(8) }
    }

    /// Makes `element` an element: a set that holds it stays as it is, and
    /// any other set gets it at its end.
    pub fn insert(&mut self, element: usize)
        ensures
            final(self)@ == with_element(old(self)@, element),
            final(self)@.contains(element),
            forall|x: usize|
                x != element ==> (#[trigger] final(self)@.contains(x) <==> old(self)@.contains(x)),
            old(self)@.no_duplicates() ==> final(self)@.no_duplicates(),
    {
        proof {
            lemma_with_element(self@, element);
        }
        if !self.contains(element) {
            self.elements.push(element);
        }
    }

    /// Whether `element` is present.
    pub fn contains(&self, element: usize) -> (found: bool)
        ensures
            found == self@.contains(element),
    {
        let mut i: usize = 0;
        while i < self.elements.len()
            invariant
                i <= self.elements@.len(),
                forall|k: int| 0 <= k < i ==> self.elements@[k] != element,
            decreases self.elements@.len() - i,
        {
            if self.elements[i] == element {
                return true;
            }
            i += 1;
        }
        false
    }

    /// Iterates over the elements in insertion order.
    pub fn iter(&self) -> (it: core::slice::Iter<'_, usize>)
        ensures
            vstd::std_specs::slice::into_iter_elts(it) == self@,
            IteratorSpec::decrease(&it) is Some,
            IteratorSpec::initial_value_relation(&it, &it),
    {
        self.elements.iter()
    }

    /// Adds every element of `other` that is not yet present.
    pub fn union(&mut self, other: &SymbolSet)
        ensures
            final(self)@ == ordered_union(old(self)@, other@),
            forall|x: usize| #[trigger]
                final(self)@.contains(x) <==> old(self)@.contains(x) || other@.contains(x),
            old(self)@.no_duplicates() ==> final(self)@.no_duplicates(),
    {
        let mut i: usize = 0;
        while i < other.elements.len()
            invariant
                i <= other.elements@.len(),
                self@ == ordered_union(old(self)@, other.elements@.take(i as int)),
            decreases other.elements@.len() - i,
        {
            let element = other.elements[i];
            proof {
                let next = other.elements@.take(i + 1);
                assert(next.drop_last() =~= other.elements@.take(i as int));
                assert(next.last() == element);
            }
            self.insert(element);
            i += 1;
        }
        proof {
            assert(other.elements@.take(i as int) =~= other@);
            lemma_ordered_union(old(self)@, other@);
        }
    }
}

} // verus!

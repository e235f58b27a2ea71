//! A first-in, first-out queue of state numbers.

use vstd::prelude::*;

verus! {

/// A queue that keeps everything ever enqueued and a cursor on the next
/// element to hand out. Its view is what is still waiting, oldest first.
#[derive(Debug)]
pub struct Queue {
    elements: Vec<usize>,
    head: usize,
}

impl View for Queue {
    type V = Seq<usize>;

    closed spec fn view(&self) -> Seq<usize> {
        self.elements@.skip(self.head as int)
    }
}

impl Clone for Queue {
    fn clone(&self) -> (copy: Self)
        ensures
            copy@ == self@,
            copy.wf() == self.wf(),
    {
        Queue { elements: self.elements.clone(), head: self.head }
    }
}

impl Queue {
    /// The cursor has not run past the stored elements.
    pub closed spec fn wf(&self) -> bool {
        self.head <= self.elements@.len()
    }

    /// The empty queue.
    pub fn new() -> (queue: Queue)
        ensures
            queue.wf(),
            queue@ == Seq::<usize>::empty(),
    {
        let queue = Queue { elements: Vec::with_capacity(32), head: 0 };
        assert(queue@ =~= Seq::<usize>::empty());
        queue
    }

    /// Whether nothing is waiting.
    pub fn is_empty(&self) -> (empty: bool)
        requires
            self.wf(),
        ensures
            empty == (self@.len() == 0),
    {
        self.head == self.elements.len()
    }

    /// Puts `element` behind everything that is waiting.
    pub fn enqueue(&mut self, element: usize)
        requires
            old(self).wf(),
        ensures
            final(self).wf(),
            final(self)@ == old(self)@.push(element),
    {
        self.elements.push(element);
        assert(self@ =~= old(self)@.push(element));
    }

    /// Takes the oldest waiting element out.
    pub fn dequeue(&mut self) -> (value: usize)
        requires
            old(self).wf(),
            old(self)@.len() > 0,
        ensures
            final(self).wf(),
            value == old(self)@[0],
            final(self)@ == old(self)@.skip(1),
    {
        assert(self@.len() == self.elements@.len() - self.head);
        assert(self.head < self.elements.len());
        let value = self.elements[self.head];
        self.head += 1;
        assert(self@ =~= old(self)@.skip(1));
        value
    }
}

} // verus!

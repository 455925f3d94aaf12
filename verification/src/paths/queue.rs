//! A priority queue of search nodes, smallest priority first.
use vstd::prelude::*;

verus! {

/// Reference into a node array, with the node's priority.
#[derive(Clone, Copy, Debug, PartialEq, Eq, Structural)]
pub struct NodeRef {
    pub idx: usize,
    pub f: i32,
}

/// An unordered bag of node references from which the one of smallest
/// priority is taken first.
pub struct MinQueue {
    items: Vec<NodeRef>,
}

impl View for MinQueue {
    type V = Seq<NodeRef>;

    closed spec fn view(&self) -> Seq<NodeRef> {
        self.items@
    }
}

impl MinQueue {
    /// An empty queue.
    pub fn new() -> (q: MinQueue)
        ensures
            q@.len() == 0,
    {
        MinQueue { items: Vec::new() }
    }

    /// Add a reference.
    pub fn push(&mut self, n: NodeRef)
        ensures
            final(self)@ == old(self)@.push(n),
    {
        self.items.push(n);
    }

    /// The number of references held.
    pub fn len(&self) -> (n: usize)
        ensures
            n == self@.len(),
    {
        self.items.len()
    }

    /// Take out a reference of smallest priority (the first such one), or
    /// `None` when the queue is empty.
    pub fn pop_min(&mut self) -> (r: Option<NodeRef>)
        ensures
            old(self)@.len() == 0 ==> r is None && final(self)@ == old(self)@,
            old(self)@.len() > 0 ==> (r matches Some(m) && exists|i: int|
                0 <= i < old(self)@.len() && old(self)@[i] == m && final(self)@ == old(self)@.update(
                    i,
                    old(self)@.last(),
                ).drop_last() && (forall|j: int| 0 <= j < old(self)@.len() ==> m.f <= #[trigger] old(
                    self,
                )@[j].f)),
    {
        let n: usize = self.items.len();
        if n == 0 {
            return None;
        }
        let mut best: usize = 0;
        let mut i: usize = 1;
        while i < n
            invariant
                n == self.items@.len(),
                n > 0,
                1 <= i <= n,
                best < i,
                forall|j: int| 0 <= j < i ==> self.items@[best as int].f <= #[trigger] self.items@[j].f,
            decreases n - i,
        {
            if self.items[i].f < self.items[best].f {
                best = i;
            }
            i = i + 1;
        }
        let m = self.items.swap_remove(best);
        Some(m)
    }
}

} // verus!

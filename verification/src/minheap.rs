//! A minheap that separates values from priorities.
//! Intended for use in pathfinding.

use vstd::prelude::*;

verus! {

/// A queue of values that hands out a value of least priority first; among
/// values of equal priority the one pushed first comes out first.
pub struct MinHeap<V> {
    items: Vec<(V, u32)>,
}

/// The place of the first entry of least priority among the first `n`
/// entries of `s`.
pub open spec fn first_min<V>(s: Seq<(V, u32)>, n: int) -> int
    decreases n,
{
    if n <= 1 {
        0
    } else {
        let best = first_min(s, n - 1);
        if s[n - 1].1 < s[best].1 {
            n - 1
        } else {
            best
        }
    }
}

/// `first_min` names an entry among the first `n`, none of those has a
/// smaller priority, and none before it has the same.
pub proof fn lemma_first_min<V>(s: Seq<(V, u32)>, n: int)
    requires
        1 <= n <= s.len(),
    ensures
        0 <= first_min(s, n) < n,
        forall|j: int| 0 <= j < n ==> s[first_min(s, n)].1 <= (#[trigger] s[j]).1,
        forall|j: int| 0 <= j < first_min(s, n) ==> s[first_min(s, n)].1 < (#[trigger] s[j]).1,
    decreases n,
{
    if n > 1 {
        lemma_first_min(s, n - 1);
    }
}

impl<V> View for MinHeap<V> {
    type V = Seq<(V, u32)>;

    /// The entries, each a value with its priority, in the order in which
    /// they were pushed.
    closed spec fn view(&self) -> Seq<(V, u32)> {
        self.items@
    }
}

impl<V> MinHeap<V> {
    /// The empty queue.
    pub fn new() -> (res: Self)
        ensures
            res@ == Seq::<(V, u32)>::empty(),
    {
        MinHeap { items: Vec::new() }
    }

    /// Puts in `value` with `priority`.
    pub fn push(&mut self, value: V, priority: u32)
        ensures
            final(self)@ == old(self)@.push((value, priority)),
    {
        self.items.push((value, priority));
    }

    /// Takes out the first value of least priority.
    pub fn pop(&mut self) -> (res: Option<V>)
        ensures
            match res {
                Some(value) => {
                    let at = first_min(old(self)@, old(self)@.len() as int);
                    &&& old(self)@.len() > 0
                    &&& value == old(self)@[at].0
                    &&& final(self)@ == old(self)@.remove(at)
                },
                None => old(self)@.len() == 0 && final(self)@ == old(self)@,
            },
    {
        let count = self.items.len();
        if count == 0 {
            return None;
        }
        let mut best: usize = 0;
        let mut i: usize = 1;
        while i < count
            invariant
                count == self.items@.len(),
                1 <= i <= count,
                best == first_min(self.items@, i as int),
                best < i,
            decreases count - i,
        {
            if self.items[i].1 < self.items[best].1 {
                best = i;
            }
            i += 1;
        }
        let (value, _priority) = self.items.remove(best);
        Some(value)
    }

    /// The number of entries.
    pub fn len(&self) -> (res: usize)
        ensures
            res == self@.len(),
    {
        self.items.len()
    }
}

} // verus!

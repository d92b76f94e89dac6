//! An insertion-ordered set of positions.

use crate::grid::Pos;
use std::collections::HashSet;
use vstd::prelude::*;

verus! {

broadcast use vstd::std_specs::hash::group_hash_axioms;

/// The number under which a position is filed: distinct positions get
/// distinct numbers.
pub open spec fn key_of(p: Pos) -> u64 {
    ((p.x + 0x8000_0000) * 0x1_0000_0000 + (p.y + 0x8000_0000)) as u64
}

/// The number under which `p` is filed.
pub(crate) fn key(p: Pos) -> (k: u64)
    ensures
        k == key_of(p),
{
    let hi: u64 = (p.x as i64 + 0x8000_0000) as u64;
    let lo: u64 = (p.y as i64 + 0x8000_0000) as u64;
    hi * 0x1_0000_0000 + lo
}

/// A set of positions that remembers the order in which they were inserted.
///
/// Membership is answered by a hash index; the members are handed out in
/// insertion order, which does not vary between runs.
pub struct PosSet {
    items: Vec<Pos>,
    index: HashSet<u64>,
}

impl View for PosSet {
    type V = Set<Pos>;

    closed spec fn view(&self) -> Set<Pos> {
        self.items@.to_set()
    }
}

impl PosSet {
    #[verifier::type_invariant]
    spec fn wf(self) -> bool {
        &&& self.items@.no_duplicates()
        &&& forall|p: Pos| self.index@.contains(key_of(p)) <==> #[trigger] self.items@.contains(p)
    }

    /// The members in insertion order.
    pub closed spec fn order(self) -> Seq<Pos> {
        self.items@
    }

    /// The empty set.
    pub fn new() -> (res: PosSet)
        ensures
            res@ == Set::<Pos>::empty(),
            res.order() == Seq::<Pos>::empty(),
    {
        let res = PosSet { items: Vec::new(), index: HashSet::new() };
        assert(res.items@.to_set() =~= Set::<Pos>::empty());
        res
    }

    /// Whether `p` is a member.
    pub fn contains(&self, p: Pos) -> (res: bool)
        ensures
            res == self@.contains(p),
    {
        proof {
            use_type_invariant(self);
        }
        let k = key(p);
        self.index.contains(&k)
    }

    /// Adds `p`; returns whether it was absent before.
    pub fn insert(&mut self, p: Pos) -> (fresh: bool)
        ensures
            final(self)@ == old(self)@.insert(p),
            fresh == !old(self)@.contains(p),
            final(self).order() == (if fresh {
                old(self).order().push(p)
            } else {
                old(self).order()
            }),
    {
        proof {
            use_type_invariant(&*self);
        }
        let k = key(p);
        if self.index.contains(&k) {
            assert(self.items@.to_set().insert(p) =~= self.items@.to_set());
            false
        } else {
            let mut taken = PosSet::new();
            std::mem::swap(self, &mut taken);
            let PosSet { mut items, mut index } = taken;
            index.insert(k);
            items.push(p);
            proof {
                let old_items = old(self).items@;
                assert(items@ == old_items.push(p));
                assert(!old_items.contains(p));
                assert forall|i: int, j: int|
                    0 <= i < items@.len() && 0 <= j < items@.len() && i != j implies items@[i]
                    != items@[j] by {
                    if i < old_items.len() {
                        assert(old_items.contains(old_items[i]));
                    }
                    if j < old_items.len() {
                        assert(old_items.contains(old_items[j]));
                    }
                }
                assert forall|q: Pos| index@.contains(key_of(q)) <==> #[trigger] items@.contains(
                    q,
                ) by {
                    if old_items.contains(q) {
                        let i = choose|i: int| 0 <= i < old_items.len() && old_items[i] == q;
                        assert(items@[i] == q);
                    }
                    if q == p {
                        assert(items@[old_items.len() as int] == p);
                    }
                }
            }
            *self = PosSet { items, index };
            proof {
                let old_items = old(self).items@;
                assert(self.items@.to_set() =~= old_items.to_set().insert(p)) by {
                    assert forall|q: Pos| self.items@.contains(q) <==> (old_items.contains(q) || q
                        == p) by {
                        if old_items.contains(q) {
                            let i = choose|i: int| 0 <= i < old_items.len() && old_items[i] == q;
                            assert(self.items@[i] == q);
                        }
                        if q == p {
                            assert(self.items@[old_items.len() as int] == p);
                        }
                    }
                }
            }
            true
        }
    }

    /// The number of members.
    pub fn len(&self) -> (res: usize)
        ensures
            res == self@.len(),
            res == self.order().len(),
            self@.finite(),
    {
        proof {
            use_type_invariant(self);
            self.items@.unique_seq_to_set();
        }
        self.items.len()
    }

    /// The members in insertion order.
    pub fn positions(&self) -> (res: &Vec<Pos>)
        ensures
            res@ == self.order(),
            res@.no_duplicates(),
            res@.to_set() == self@,
    {
        proof {
            use_type_invariant(self);
        }
        &self.items
    }
}

} // verus!

//! A map keyed by positions.

use crate::grid::Pos;
use crate::posset::{key, key_of};
use std::collections::HashMap;
use vstd::prelude::*;

verus! {

broadcast use vstd::std_specs::hash::group_hash_axioms;

/// A map from positions to values, filed by the number of each position.
pub struct PosMap<V> {
    entries: HashMap<u64, V>,
}

impl<V> View for PosMap<V> {
    type V = Map<Pos, V>;

    closed spec fn view(&self) -> Map<Pos, V> {
        Map::new(
            |p: Pos| self.entries@.contains_key(key_of(p)),
            |p: Pos| self.entries@[key_of(p)],
        )
    }
}

impl<V: Copy> PosMap<V> {
    /// The empty map.
    pub fn new() -> (res: Self)
        ensures
            res@ == Map::<Pos, V>::empty(),
    {
        let res = PosMap { entries: HashMap::new() };
        assert(res@ =~= Map::<Pos, V>::empty());
        res
    }

    /// Files `value` under `p`, in place of what was filed there.
    pub fn insert(&mut self, p: Pos, value: V)
        ensures
            final(self)@ == old(self)@.insert(p, value),
    {
        self.entries.insert(key(p), value);
        assert(self@ =~= old(self)@.insert(p, value));
    }

    /// What is filed under `p`, if anything.
    pub fn get(&self, p: Pos) -> (res: Option<V>)
        ensures
            res == (if self@.contains_key(p) {
                Some(self@[p])
            } else {
                None
            }),
    {
        let k = key(p);
        match self.entries.get(&k) {
            Some(value) => Some(*value),
            None => None,
        }
    }
}

} // verus!

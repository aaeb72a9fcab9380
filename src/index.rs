//! The collision index: the last position seen for each fingerprint key.
use std::collections::HashMap;
use vstd::prelude::*;

verus! {

broadcast use vstd::std_specs::hash::group_hash_axioms;

/// Maps a fingerprint key to the most recent position that produced it.
pub struct CollisionIndex {
    table: HashMap<u64, usize>,
}

impl View for CollisionIndex {
    type V = Map<u64, usize>;

    closed spec fn view(&self) -> Map<u64, usize> {
        self.table@
    }
}

impl CollisionIndex {
    /// An empty index.
    pub fn new() -> (r: CollisionIndex)
        ensures
            r@ == Map::<u64, usize>::empty(),
    {
        CollisionIndex { table: HashMap::new() }
    }

    /// Records `pos` for `key`, replacing any earlier position, and returns
    /// the position that was held before.
    pub fn insert(&mut self, key: u64, pos: usize) -> (r: Option<usize>)
        ensures
            final(self)@ == old(self)@.insert(key, pos),
            r == (if old(self)@.contains_key(key) {
                Some(old(self)@[key])
            } else {
                None
            }),
    {
        self.table.insert(key, pos)
    }

    /// The position held for `key`, if any.
    pub fn get(&self, key: u64) -> (r: Option<usize>)
        ensures
            r == (if self@.contains_key(key) {
                Some(self@[key])
            } else {
                None
            }),
    {
        match self.table.get(&key) {
            Some(p) => Some(*p),
            None => None,
        }
    }

    /// Number of distinct keys held.
    pub fn len(&self) -> (r: usize)
        ensures
            r == self@.len(),
    {
        self.table.len()
    }
}

/// Inserting `first` and then `second` under one key: the second insert finds `first`
/// there, and afterwards the key holds `second`.
pub proof fn lemma_last_writer_wins(m: Map<u64, usize>, key: u64, first: usize, second: usize)
    ensures
        m.insert(key, first).contains_key(key),
        m.insert(key, first)[key] == first,
        m.insert(key, first).insert(key, second).contains_key(key),
        m.insert(key, first).insert(key, second)[key] == second,
        m.insert(key, first).insert(key, second).dom() == m.insert(key, first).dom(),
{
    assert(m.insert(key, first).insert(key, second).dom() =~= m.insert(key, first).dom());
}

} // verus!

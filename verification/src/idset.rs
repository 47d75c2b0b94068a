//! A set of node ids.
use std::collections::BTreeSet;
use vstd::prelude::*;

verus! {

broadcast use {vstd::std_specs::btree::group_btree_axioms, vstd::laws_cmp::group_laws_cmp};

/// A set of node ids.
pub(crate) struct IdSet {
    ids: BTreeSet<usize>,
}

impl IdSet {
    pub(crate) closed spec fn view(&self) -> Set<usize> {
        self.ids@
    }

    pub(crate) fn new() -> (r: Self)
        ensures
            r@ == Set::<usize>::empty(),
    {
        IdSet { ids: BTreeSet::new() }
    }

    pub(crate) fn insert(&mut self, id: usize)
        ensures
            final(self)@ == old(self)@.insert(id),
    {
        self.ids.insert(id);
    }

    pub(crate) fn remove(&mut self, id: usize)
        ensures
            final(self)@ == old(self)@.remove(id),
    {
        self.ids.remove(&id);
    }

    pub(crate) fn contains(&self, id: usize) -> (r: bool)
        ensures
            r == self@.contains(id),
    {
        self.ids.contains(&id)
    }
}

} // verus!

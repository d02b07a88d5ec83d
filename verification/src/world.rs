//! A minimal world from an early revision: entity bundles by id.
use vstd::prelude::*;

use std::collections::HashMap;

use crate::entity::push_entity;

verus! {

broadcast use vstd::std_specs::hash::group_hash_axioms;

/// A bare map from entity id to its component bundle.
pub struct World(HashMap<usize, ()>);

impl View for World {
    type V = Map<usize, ()>;

    closed spec fn view(&self) -> Map<usize, ()> {
        self.0@
    }
}

impl World {
    pub fn new() -> (r: Self)
        ensures
            r@ == Map::<usize, ()>::empty(),
    {
        World(HashMap::new())
    }

    /// Stores a component bundle under the given id, or under one past the
    /// current count where no id is given.
    pub fn push(&mut self, components: (), id: Option<usize>)
        requires
            old(self)@.len() < usize::MAX,
        ensures
            final(self)@ == old(self)@.insert(
                match id {
                    None => (old(self)@.len() + 1) as usize,
                    Some(i) => i,
                },
                components,
            ),
    {
        push_entity(&mut self.0, components, id)
    }
}

} // verus!

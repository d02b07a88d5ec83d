//! A primitive entity record from an early revision of the store: bare
//! component bundles keyed by entity id.
use vstd::prelude::*;

use std::collections::HashMap;

verus! {

broadcast use vstd::std_specs::hash::group_hash_axioms;

/// Inserts an entity's component bundle under the given id, or under one
/// past the current count where no id is given. An existing entry under
/// the same id is replaced.
pub fn push_entity(world: &mut HashMap<usize, ()>, components: (), id: Option<usize>)
    requires
        old(world)@.len() < usize::MAX,
    ensures
        final(world)@ == old(world)@.insert(
            match id {
                None => (old(world)@.len() + 1) as usize,
                Some(i) => i,
            },
            components,
        ),
{
    world.insert(
        match id {
            None => world.len() + 1,
            Some(i) => i,
        },
        components,
    );
}

} // verus!

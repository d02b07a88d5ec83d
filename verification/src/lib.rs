//! An entity-component store with a dependency-staged system dispatcher.
//!
//! The [`World`] owns [`Entities`] — per-component-key columns of optional
//! values plus one membership mask per entity slot — and a type-keyed
//! [`Resources`] store. Component kinds are identified by caller-chosen
//! `u64` keys registered up front; every registered key owns one bit in
//! the membership masks, assigned in registration order and never reused.
//! Queries match the slots whose mask is a superset of the requested bits.
//! Systems are named units of work with declared dependencies; compiling
//! them yields a [`Dispatcher`](systems::dispatcher::Dispatcher) whose
//! stages respect those dependencies.
use vstd::prelude::*;

pub mod bitmap;
pub mod entities;
pub mod entity;
pub mod error;
pub mod errors;
pub mod internal_errors;
pub mod resource;
pub mod resources;
pub mod systems;
pub mod world;

use entities::query::Query;
use entities::{batch_create_spec, Entities, EntitiesView};
use error::{EntityError, ResourceError};
use resources::Resources;

verus! {

/// The mathematical model of a [`World`]: its entity store and its
/// resource map.
#[verifier::ext_equal]
pub ghost struct WorldView<C> {
    pub entities: EntitiesView<C>,
    pub resources: Map<u64, C>,
}

/// The world: the entity store and the resource store.
pub struct World<C> {
    entities: Entities<C>,
    resources: Resources<C>,
}

impl<C> View for World<C> {
    type V = WorldView<C>;

    closed spec fn view(&self) -> WorldView<C> {
        WorldView { entities: self.entities@, resources: self.resources@ }
    }
}

impl<C> Default for World<C> {
    /// A world with no registered keys, no entities and no resources.
    fn default() -> (r: Self)
        ensures
            r@.entities == (EntitiesView::<C> {
                keys: Seq::empty(),
                cols: Seq::empty(),
                masks: Seq::empty(),
            }),
            r@.resources == Map::<u64, C>::empty(),
            r.wf(),
    {
        World { entities: Entities::new(), resources: Resources::default() }
    }
}

impl<C> World<C> {
    pub open spec fn wf(&self) -> bool {
        self@.entities.wf()
    }

    pub fn new() -> (r: Self)
        ensures
            r@.entities == (EntitiesView::<C> {
                keys: Seq::empty(),
                cols: Seq::empty(),
                masks: Seq::empty(),
            }),
            r@.resources == Map::<u64, C>::empty(),
            r.wf(),
    {
        Self::default()
    }

    /// Stores a resource under `key`; a key that already holds one is
    /// refused.
    pub fn add_resource(&mut self, key: u64, data: C) -> (r: Result<(), ResourceError>)
        ensures
            final(self)@.entities == old(self)@.entities,
            old(self)@.resources.contains_key(key) ==> r == Err::<(), ResourceError>(
                ResourceError::ResourceAlreadyPresent,
            ) && final(self)@.resources == old(self)@.resources,
            !old(self)@.resources.contains_key(key) ==> r == Ok::<(), ResourceError>(()) && final(self)@.resources == old(self)@.resources.insert(key, data),
    {
        self.resources.add(key, data)
    }

    /// Drops the resource under `key`, if any.
    pub fn remove_resource(&mut self, key: u64)
        ensures
            final(self)@.entities == old(self)@.entities,
            final(self)@.resources == old(self)@.resources.remove(key),
    {
        self.resources.remove(key)
    }

    /// A shared reference to the resource under `key`.
    pub fn resource_ref(&self, key: u64) -> (r: Result<&C, ResourceError>)
        ensures
            r is Ok <==> self@.resources.contains_key(key),
            !self@.resources.contains_key(key) ==> r == Err::<&C, ResourceError>(
                ResourceError::ResourceDoesNotExist,
            ),
            r matches Ok(v) ==> self@.resources[key] == *v,
    {
        self.resources.resource_ref(key)
    }

    /// A mutable reference to the resource under `key`; the world ends up
    /// with whatever the caller leaves behind the reference.
    pub fn resource_mut(&mut self, key: u64) -> (r: Result<&mut C, ResourceError>)
        ensures
            final(self)@.entities == old(self)@.entities,
            r is Ok <==> old(self)@.resources.contains_key(key),
            !old(self)@.resources.contains_key(key) ==> (r matches Err(e) && e
                == ResourceError::ResourceDoesNotExist && final(self)@.resources == old(self)@.resources),
            r matches Ok(v) ==> *v == old(self)@.resources[key] && final(self)@.resources == old(
                self,
            )@.resources.insert(key, *final(v)),
    {
        self.resources.resource_mut(key)
    }

    /// Registers a component key: it takes the next bit position and gets
    /// an empty column. A key registered before is refused.
    pub fn register_component(&mut self, key: u64) -> (r: Result<(), EntityError>)
        requires
            old(self).wf(),
            old(self)@.entities.keys.len() < u32::MAX as int,
        ensures
            final(self).wf(),
            final(self)@.resources == old(self)@.resources,
            old(self)@.entities.registered(key) ==> r == Err::<(), EntityError>(
                EntityError::DuplicateRegistration,
            ) && final(self)@.entities == old(self)@.entities,
            !old(self)@.entities.registered(key) ==> r == Ok::<(), EntityError>(()) && final(self)@.entities == old(self)@.entities.register_spec(key),
    {
        self.entities.register_component(key)
    }

    /// Creates one entity from the supplied `(key, value)` pairs; the
    /// first tombstoned slot is reused, or a fresh slot is appended.
    /// Creation is all-or-nothing: an unregistered key leaves the world
    /// untouched.
    pub fn create_entity(&mut self, components: Vec<(u64, C)>) -> (r: Result<(), EntityError>)
        requires
            old(self).wf(),
        ensures
            final(self).wf(),
            final(self)@.resources == old(self)@.resources,
            old(self)@.entities.all_registered(components@) ==> r == Ok::<(), EntityError>(())
                && final(self)@.entities == old(self)@.entities.create_spec(components@),
            !old(self)@.entities.all_registered(components@) ==> r == Err::<(), EntityError>(
                EntityError::ComponentNotRegistered,
            ) && final(self)@.entities == old(self)@.entities,
    {
        self.entities.create_entity(components)
    }

    /// Creates `num` entities in a row, each from a copy of the supplied
    /// components; all-or-nothing as [`World::create_entity`].
    pub fn create_entity_batch(&mut self, components: Vec<(u64, C)>, num: usize) -> (r: Result<
        (),
        EntityError,
    >) where C: Copy
        requires
            old(self).wf(),
        ensures
            final(self).wf(),
            final(self)@.resources == old(self)@.resources,
            num == 0 || old(self)@.entities.all_registered(components@) ==> r == Ok::<
                (),
                EntityError,
            >(()) && final(self)@.entities == batch_create_spec(
                old(self)@.entities,
                components@,
                num as nat,
            ),
            num > 0 && !old(self)@.entities.all_registered(components@) ==> r == Err::<
                (),
                EntityError,
            >(EntityError::ComponentNotRegistered) && final(self)@.entities == old(self)@.entities,
    {
        let ghost pre = self@.entities;
        let ghost pre_res = self@.resources;
        let mut k: usize = 0;
        while k < num
            invariant
                pre == old(self)@.entities,
                pre_res == old(self)@.resources,
                self.wf(),
                self@.resources == pre_res,
                self@.entities.keys == pre.keys,
                k <= num,
                self@.entities == batch_create_spec(pre, components@, k as nat),
                k > 0 ==> pre.all_registered(components@),
            decreases num - k,
        {
            let mut cs: Vec<(u64, C)> = Vec::new();
            let mut j: usize = 0;
            while j < components.len()
                invariant
                    j <= components@.len(),
                    cs@ == components@.subrange(0, j as int),
                decreases components@.len() - j,
            {
                cs.push(components[j]);
                proof {
                    assert(cs@ =~= components@.subrange(0, j + 1));
                }
                j += 1;
            }
            proof {
                assert(cs@ =~= components@);
            }
            let ghost before = self@.entities;
            match self.entities.create_entity(cs) {
                Ok(_) => {
                    proof {
                        assert(before.all_registered(components@));
                        assert(pre.all_registered(components@)) by {
                            assert(forall|t: int|
                                0 <= t < components@.len() ==> pre.registered(
                                    (#[trigger] components@[t]).0,
                                ));
                        }
                    }
                },
                Err(e) => {
                    proof {
                        assert(!before.all_registered(components@));
                        if k > 0 {
                            assert(pre.all_registered(components@));
                            assert forall|t: int| 0 <= t < components@.len() implies
                                before.registered((#[trigger] components@[t]).0) by {
                                assert(pre.registered(components@[t].0));
                            }
                            assert(false);
                        }
                    }
                    return Err(e);
                },
            }
            k += 1;
        }
        Ok(())
    }

    /// A fresh query on this world's entities.
    pub fn query(&self) -> (q: Query<C>)
        ensures
            q.target()@ == self@.entities,
            q.mask() == Set::<u32>::empty(),
            q.req() == Seq::<u64>::empty(),
    {
        self.entities.query()
    }

    /// The entity store.
    pub fn entities(&self) -> (r: &Entities<C>)
        ensures
            r@ == self@.entities,
    {
        &self.entities
    }

    /// The entity store, for mutation.
    pub fn entities_mut(&mut self) -> (r: &mut Entities<C>)
        ensures
            r@ == old(self)@.entities,
            final(self)@.entities == final(r)@,
            final(self)@.resources == old(self)@.resources,
    {
        &mut self.entities
    }
}

} // verus!

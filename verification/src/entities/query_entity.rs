//! Handles to one matched entity slot.
//!
//! A handle carries nothing but the slot index a query matched; every
//! operation routes back through the [`Entities`] store it came from.
use vstd::prelude::*;

use crate::error::EntityError;

use super::Entities;

verus! {

/// A handle bound to one entity slot, as produced by a query run.
pub struct QueryEntity {
    pub id: usize,
}

impl QueryEntity {
    pub fn new(id: usize) -> (r: Self)
        ensures
            r.id == id,
    {
        QueryEntity { id }
    }

    /// A shared reference to this entity's component `key`.
    pub fn component_ref<'e, C>(&self, entities: &'e Entities<C>, key: u64) -> (r: Result<
        &'e C,
        EntityError,
    >)
        requires
            entities.wf(),
            self.id < entities@.masks.len(),
        ensures
            !entities@.registered(key) ==> r == Err::<&'e C, EntityError>(
                EntityError::ComponentNotInQuery,
            ),
            entities@.registered(key) && entities@.cols[entities@.bit_of(key)][self.id as int] is None
                ==> r == Err::<&'e C, EntityError>(EntityError::ComponentDataDoesNotExist),
            entities@.registered(key) && entities@.cols[entities@.bit_of(key)][self.id as int] is Some
                ==> r is Ok,
            r matches Ok(v) ==> entities@.registered(key) && entities@.cols[entities@.bit_of(
                key,
            )][self.id as int] == Some(*v),
    {
        entities.get_component(self.id, key)
    }

    /// A mutable reference to this entity's component `key`; the store ends
    /// up with whatever the caller leaves behind the reference.
    pub fn component_mut<'e, C>(&self, entities: &'e mut Entities<C>, key: u64) -> (r: Result<
        &'e mut C,
        EntityError,
    >)
        requires
            old(entities).wf(),
            self.id < old(entities)@.masks.len(),
        ensures
            final(entities)@.keys == old(entities)@.keys,
            final(entities)@.masks == old(entities)@.masks,
            !old(entities)@.registered(key) ==> (r matches Err(e) && e
                == EntityError::ComponentNotInQuery && final(entities)@.cols =~~= old(
                entities,
            )@.cols),
            old(entities)@.registered(key) && old(entities)@.cols[old(entities)@.bit_of(
                key,
            )][self.id as int] is None ==> (r matches Err(e) && e
                == EntityError::ComponentDataDoesNotExist && final(entities)@.cols =~~= old(
                entities,
            )@.cols),
            old(entities)@.registered(key) && old(entities)@.cols[old(entities)@.bit_of(
                key,
            )][self.id as int] is Some ==> r is Ok,
            r matches Ok(v) ==> old(entities)@.registered(key) && old(entities)@.cols[old(
                entities,
            )@.bit_of(key)][self.id as int] == Some(*v) && final(entities)@.cols =~~= old(
                entities,
            )@.cols.update(
                old(entities)@.bit_of(key),
                old(entities)@.cols[old(entities)@.bit_of(key)].update(
                    self.id as int,
                    Some(*final(v)),
                ),
            ),
    {
        entities.get_component_mut(self.id, key)
    }

    /// Clears component `key`'s bit off this entity; a no-op where the
    /// component is not present.
    pub fn remove_component<C>(&self, entities: &mut Entities<C>, key: u64) -> (r: Result<
        (),
        EntityError,
    >)
        requires
            old(entities).wf(),
            self.id < old(entities)@.masks.len(),
        ensures
            final(entities).wf(),
            old(entities)@.registered(key) ==> r == Ok::<(), EntityError>(()) && final(entities)@
                == old(entities)@.remove_component_spec(key, self.id as int),
            !old(entities)@.registered(key) ==> r == Err::<(), EntityError>(
                EntityError::ComponentNotRegistered,
            ) && final(entities)@ == old(entities)@,
    {
        entities.remove_component_by_entity_id(key, self.id)
    }

    /// Writes `data` as this entity's component `key`.
    pub fn add_component<C>(&self, entities: &mut Entities<C>, key: u64, data: C) -> (r: Result<
        (),
        EntityError,
    >)
        requires
            old(entities).wf(),
            self.id < old(entities)@.masks.len(),
        ensures
            final(entities).wf(),
            old(entities)@.registered(key) ==> r == Ok::<(), EntityError>(()) && final(entities)@
                == old(entities)@.add_component_spec(key, data, self.id as int),
            !old(entities)@.registered(key) ==> r == Err::<(), EntityError>(
                EntityError::ComponentNotRegistered,
            ) && final(entities)@ == old(entities)@,
    {
        entities.add_component_by_entity_id(key, data, self.id)
    }

    /// Deletes this entity: its mask is cleared to a tombstone and the
    /// handle is consumed.
    pub fn delete<C>(self, entities: &mut Entities<C>)
        requires
            old(entities).wf(),
            self.id < old(entities)@.masks.len(),
        ensures
            final(entities).wf(),
            final(entities)@ == old(entities)@.delete_spec(self.id as int),
    {
        match entities.delete_entity_by_id(self.id) {
            Ok(_) => (),
            Err(_) => {
                proof {
                    assert(false);
                }
            },
        }
    }
}

} // verus!

//! The world's resource store: one value per `u64` key, with duplicate
//! adds rejected instead of silently replaced.
use vstd::prelude::*;

use crate::error::ResourceError;
use crate::resource::Resource;

verus! {

/// A type-keyed store of single values. Unlike [`Resource`], adding a
/// value for a key that already has one is rejected; the key must be
/// removed first.
pub struct Resources<C> {
    data: Resource<C>,
}

impl<C> View for Resources<C> {
    type V = Map<u64, C>;

    closed spec fn view(&self) -> Map<u64, C> {
        self.data@
    }
}

impl<C> Default for Resources<C> {
    /// An empty store.
    fn default() -> (r: Self)
        ensures
            r@ == Map::<u64, C>::empty(),
    {
        Resources { data: Resource::default() }
    }
}

impl<C> Resources<C> {
    /// Stores `data` under `key`; a key that already holds a value is
    /// refused, and the store is left unchanged.
    pub fn add(&mut self, key: u64, data: C) -> (r: Result<(), ResourceError>)
        ensures
            old(self)@.contains_key(key) ==> r == Err::<(), ResourceError>(
                ResourceError::ResourceAlreadyPresent,
            ) && final(self)@ == old(self)@,
            !old(self)@.contains_key(key) ==> r == Ok::<(), ResourceError>(()) && final(self)@
                == old(self)@.insert(key, data),
    {
        if self.data.get_ref(key).is_some() {
            Err(ResourceError::ResourceAlreadyPresent)
        } else {
            self.data.add(key, data);
            Ok(())
        }
    }

    /// A shared reference to the value under `key`.
    pub fn resource_ref(&self, key: u64) -> (r: Result<&C, ResourceError>)
        ensures
            r is Ok <==> self@.contains_key(key),
            !self@.contains_key(key) ==> r == Err::<&C, ResourceError>(
                ResourceError::ResourceDoesNotExist,
            ),
            r matches Ok(v) ==> self@[key] == *v,
    {
        match self.data.get_ref(key) {
            Some(v) => Ok(v),
            None => Err(ResourceError::ResourceDoesNotExist),
        }
    }

    /// A mutable reference to the value under `key`; the store ends up
    /// with whatever the caller leaves behind the reference.
    pub fn resource_mut(&mut self, key: u64) -> (r: Result<&mut C, ResourceError>)
        ensures
            r is Ok <==> old(self)@.contains_key(key),
            !old(self)@.contains_key(key) ==> (r matches Err(e) && e
                == ResourceError::ResourceDoesNotExist && final(self)@ == old(self)@),
            r matches Ok(v) ==> *v == old(self)@[key] && final(self)@ == old(self)@.insert(
                key,
                *final(v),
            ),
    {
        match self.data.get_mut(key) {
            Some(v) => Ok(v),
            None => Err(ResourceError::ResourceDoesNotExist),
        }
    }

    /// Drops the value under `key`, if any.
    pub fn remove(&mut self, key: u64)
        ensures
            final(self)@ == old(self)@.remove(key),
    {
        self.data.remove(key);
    }
}

} // verus!

//! Internal error list of an earlier revision of the store.
use vstd::prelude::*;

verus! {

/// Errors raised inside the store.
#[derive(Clone, Copy, Debug, PartialEq, Eq, Structural)]
pub enum EntityErrors {
    /// Attempted to use unregistered component
    ComponentNotRegistered,
}

} // verus!

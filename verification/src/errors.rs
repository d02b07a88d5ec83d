//! The unified error list of an earlier revision of the store.
use vstd::prelude::*;

verus! {

/// Entity, query and component errors, in one list.
#[derive(Clone, Copy, Debug, PartialEq, Eq, Structural)]
pub enum MecsErrors {
    /// attempted to access unregistered component
    ComponentNotRegistered,
    /// attempted to access entity that does not exist
    EntityDoesNotExist,
    /// attempted to access component not included in query
    ComponentNotInQuery,
    /// attempted getting component data that does not exist
    ComponentDataDoesNotExist,
    /// attempted downcasting to wrong type
    DowncastToWrongType,
}

} // verus!

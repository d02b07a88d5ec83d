//! Error types returned by the store, the resource maps and the dispatcher.
use vstd::prelude::*;

verus! {

/// Errors raised by entity and component operations.
#[derive(Clone, Copy, Debug, PartialEq, Eq, Structural)]
pub enum EntityError {
    /// attempted to access unregistered component
    ComponentNotRegistered,
    /// attempted to access entity that does not exist
    EntityDoesNotExist,
    /// attempted to access component not included in query
    ComponentNotInQuery,
    /// attempted getting component data that does not exist
    ComponentDataDoesNotExist,
    /// attempted downcasting to wrong type
    DowncastToWrongType,
    /// attempted to register a component key a second time
    DuplicateRegistration,
}

/// Errors raised by the resource store.
#[derive(Clone, Copy, Debug, PartialEq, Eq, Structural)]
pub enum ResourceError {
    /// attempted to access resource, that doesn't exist
    ResourceDoesNotExist,
    /// attempted to add a resource, that is already present
    ResourceAlreadyPresent,
}

/// Errors raised when compiling a system registry into dispatcher stages.
#[derive(Clone, Copy, Debug, PartialEq, Eq, Structural)]
pub enum DispatcherError {
    /// a system names a dependency that no registered system carries
    UnknownDependency,
    /// the dependency graph admits no further stage although systems remain
    CyclicDependency,
}

} // verus!

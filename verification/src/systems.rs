//! The system registry: named units of work with declared dependencies.
//!
//! The work payload `F` is opaque to the registry; the dispatcher calls it
//! once per dispatch. Compiling the registry yields a
//! [`Dispatcher`](dispatcher::Dispatcher) whose stages respect the declared
//! dependencies.
pub mod dispatcher;

use vstd::prelude::*;

use crate::error::DispatcherError;
use dispatcher::Dispatcher;

verus! {

/// One named unit of work and the names of the systems it depends on.
pub struct System<F> {
    pub run: F,
    pub name: String,
    pub deps: Vec<String>,
}

impl<F> System<F> {
    fn new(run: F, name: String, deps: Vec<String>) -> (r: Self)
        ensures
            r.run == run,
            r.name == name,
            r.deps == deps,
    {
        System { run, name, deps }
    }
}

/// Holds systems and their dependencies, in registration order.
pub struct Systems<F>(pub Vec<System<F>>);

/// Turns a dependency-name slice into owned strings, views kept.
fn to_names(deps: &[&str]) -> (r: Vec<String>)
    ensures
        r@.len() == deps@.len(),
        forall|i: int| 0 <= i < deps@.len() ==> (#[trigger] r@[i])@ == (deps@[i])@,
{
    let mut r: Vec<String> = Vec::new();
    let mut i: usize = 0;
    while i < deps.len()
        invariant
            i <= deps@.len(),
            r@.len() == i,
            forall|t: int| 0 <= t < i ==> (#[trigger] r@[t])@ == (deps@[t])@,
        decreases deps@.len() - i,
    {
        r.push(deps[i].to_owned());
        i += 1;
    }
    r
}

impl<F> Systems<F> {
    pub fn new() -> (r: Self)
        ensures
            r.0@ == Seq::<System<F>>::empty(),
    {
        Systems(Vec::new())
    }

    /// Adds a system on creation: its work function, its unique name, and
    /// the names of the systems it depends on.
    pub fn with(self, run: F, name: &str, deps: &[&str]) -> (r: Self)
        ensures
            r.0@.len() == self.0@.len() + 1,
            forall|i: int| 0 <= i < self.0@.len() ==> r.0@[i] == self.0@[i],
            r.0@.last().run == run,
            r.0@.last().name@ == name@,
            r.0@.last().deps@.len() == deps@.len(),
            forall|i: int|
                0 <= i < deps@.len() ==> (#[trigger] r.0@.last().deps@[i])@ == (deps@[i])@,
    {
        let mut s = self;
        s.0.push(System::new(run, name.to_owned(), to_names(deps)));
        s
    }

    /// Adds a system in place; otherwise as [`Systems::with`].
    pub fn add(&mut self, run: F, name: &str, deps: &[&str])
        ensures
            final(self).0@.len() == old(self).0@.len() + 1,
            forall|i: int| 0 <= i < old(self).0@.len() ==> final(self).0@[i] == old(self).0@[i],
            final(self).0@.last().run == run,
            final(self).0@.last().name@ == name@,
            final(self).0@.last().deps@.len() == deps@.len(),
            forall|i: int|
                0 <= i < deps@.len() ==> (#[trigger] final(self).0@.last().deps@[i])@ == (
                deps@[i])@,
    {
        self.0.push(System::new(run, name.to_owned(), to_names(deps)));
    }

    /// Compiles the registry into ordered stages. A dependency name that no
    /// system carries, or a dependency cycle, is refused instead of looping.
    pub fn build_dispatcher(self) -> (r: Result<Dispatcher<F>, DispatcherError>)
        ensures
            dispatcher::spec_stages(self.0@, Seq::empty()) matches Some(st) ==> (r matches Ok(d)
                && d.stages() == st),
            dispatcher::spec_stages(self.0@, Seq::empty()) is None ==> (r matches Err(e) && (e
                == DispatcherError::UnknownDependency <==> dispatcher::has_unknown_dep(self.0@))),
    {
        Dispatcher::from_systems(self)
    }
}

} // verus!

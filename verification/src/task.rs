//! What the engine asks of a task.

use vstd::prelude::*;

verus! {

/// A unit of work with an identifier and declared dependencies.
pub trait Task {
    /// The identifier of the task, the same at every call.
    fn id(&self) -> u64;

    /// The identifiers of the tasks that must be scheduled before this one.
    /// A task that declares none is a source of the graph.
    fn dependencies(&self) -> (dependencies: Vec<u64>)
        default_ensures
            dependencies@ == Seq::<u64>::empty(),
    {
        Vec::new()
    }

    /// A flag of the task that the engine does not read: `true` unless
    /// the task says otherwise.
    fn is_auto(&self) -> (auto: bool)
        default_ensures
            auto,
    {
        true
    }
}

/// `task.id()` may return `id`.
pub open spec fn identifies<T: Task>(task: T, id: u64) -> bool {
    call_ensures(T::id, (&task,), id)
}

/// `task.dependencies()` may return the identifiers `dependencies`.
pub open spec fn declares<T: Task>(task: T, dependencies: Seq<u64>) -> bool {
    exists|list: Vec<u64>| list@ == dependencies && call_ensures(T::dependencies, (&task,), list)
}

} // verus!

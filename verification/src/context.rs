//! The result store of one run: for each task that was started, the handle
//! to its result.

use std::collections::HashMap;
use vstd::prelude::*;

verus! {

/// Maps the identifier of each started task to the handle of its result.
/// An entry is written when the task is started, replaces an earlier entry
/// under the same identifier, and is never taken out.
pub struct Context<V> {
    context: HashMap<u64, V>,
}

impl<V> Context<V> {
    /// The entries of the store.
    pub closed spec fn view(&self) -> Map<u64, V> {
        self.context@
    }

    pub fn new() -> (context: Self)
        ensures
            context@ == Map::<u64, V>::empty(),
    {
        Self { context: HashMap::new() }
    }

    /// The handle stored under `key`, if there is one.
    pub fn get(&self, key: &u64) -> (value: Option<&V>)
        ensures
            match value {
                Some(handle) => self@.contains_key(*key) && *handle == self@[*key],
                None => !self@.contains_key(*key),
            },
    {
        self.context.get(key)
    }

    /// Stores `value` under `key` and returns the handle that it replaces.
    pub fn set(&mut self, key: u64, value: V) -> (previous: Option<V>)
        ensures
            final(self)@ == old(self)@.insert(key, value),
            match previous {
                Some(handle) => old(self)@.contains_key(key) && handle == old(self)@[key],
                None => !old(self)@.contains_key(key),
            },
    {
        self.context.insert(key, value)
    }
}

impl<V> Default for Context<V> {
    fn default() -> (context: Self)
        ensures
            context@ == Map::<u64, V>::empty(),
    {
        Self::new()
    }
}

} // verus!

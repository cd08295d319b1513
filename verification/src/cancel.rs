//! Cooperative cancellation: shared flags that long-running tasks poll, and a
//! registry that maps task ids to their flags.
use std::sync::Arc;
use std::sync::atomic::{AtomicBool, Ordering};
use vstd::prelude::*;
use vstd::hash_map::StringHashMap;

verus! {

/// A cancellation flag shared by every clone of the token.
#[derive(Clone)]
pub struct CancelToken(Arc<AtomicBool>);

impl CancelToken {
    /// A fresh token that is not cancelled.
    pub fn new() -> (r: Self) {
        CancelToken(Arc::new(AtomicBool::new(false)))
    }

    /// Marks the token (and every clone of it) as cancelled.
    pub fn cancel(&self) {
        self.0.store(true, Ordering::SeqCst);
    }

    /// Whether the token has been cancelled.
    pub fn is_cancelled(&self) -> (b: bool) {
        self.0.load(Ordering::SeqCst)
    }
}

impl Default for CancelToken {
    fn default() -> (r: Self) {
        CancelToken::new()
    }
}

/// A registry of cancellation tokens keyed by task id.
pub struct CancelRegistry {
    tokens: StringHashMap<CancelToken>,
}

impl CancelRegistry {
    /// The ids of the registered tasks.
    pub closed spec fn view(&self) -> Set<Seq<char>> {
        self.tokens@.dom()
    }

    /// An empty registry.
    pub fn new() -> (r: Self)
        ensures
            r.view() == Set::<Seq<char>>::empty(),
    {
        CancelRegistry { tokens: StringHashMap::new() }
    }

    /// Registers a fresh token under `task_id` (replacing any earlier one) and returns it.
    pub fn register(&mut self, task_id: &str) -> (r: CancelToken)
        ensures
            final(self).view() == old(self).view().insert(task_id@),
    {
        let token = CancelToken::new();
        self.tokens.insert(task_id.to_string(), token.clone());
        token
    }

    /// Cancels a task. Returns `true` if the task was found and cancelled, `false` otherwise.
    pub fn cancel(&self, task_id: &str) -> (b: bool)
        ensures
            b == self.view().contains(task_id@),
    {
        match self.tokens.get(task_id) {
            Some(token) => {
                token.cancel();
                true
            },
            None => false,
        }
    }

    /// Whether the task is registered and its token has been cancelled.
    pub fn is_cancelled(&self, task_id: &str) -> (b: bool)
        ensures
            b ==> self.view().contains(task_id@),
    {
        match self.tokens.get(task_id) {
            Some(token) => token.is_cancelled(),
            None => false,
        }
    }

    /// Whether a token is registered under `task_id`.
    pub fn contains(&self, task_id: &str) -> (b: bool)
        ensures
            b == self.view().contains(task_id@),
    {
        self.tokens.contains_key(task_id)
    }

    /// Forgets the token of `task_id`, if any.
    pub fn unregister(&mut self, task_id: &str)
        ensures
            final(self).view() == old(self).view().remove(task_id@),
    {
        self.tokens.remove(task_id);
    }

    /// Removes the token of `task_id` and hands it back, if it was registered.
    pub fn take(&mut self, task_id: &str) -> (r: Option<CancelToken>)
        ensures
            r is Some == old(self).view().contains(task_id@),
            final(self).view() == old(self).view().remove(task_id@),
    {
        let found = match self.tokens.get(task_id) {
            Some(token) => Some(token.clone()),
            None => None,
        };
        self.tokens.remove(task_id);
        found
    }
}


/// A registered task is known to the registry, and registering one task
/// leaves the others as they were.
pub proof fn law_register_then_contains(ids: Set<Seq<char>>, id: Seq<char>, other: Seq<char>)
    ensures
        ids.insert(id).contains(id),
        other != id ==> (ids.insert(id).contains(other) == ids.contains(other)),
{
}

/// An unregistered (or taken) task is no longer known to the registry, and
/// the others stay as they were.
pub proof fn law_unregister_then_absent(ids: Set<Seq<char>>, id: Seq<char>, other: Seq<char>)
    ensures
        !ids.remove(id).contains(id),
        other != id ==> (ids.remove(id).contains(other) == ids.contains(other)),
{
}

} // verus!

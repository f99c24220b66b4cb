//! A cache that hands out shared handles to loaded content by key, without
//! keeping the content alive by itself.
use std::collections::HashMap;
use std::hash::Hash;
use std::sync::{Arc, Weak};
use vstd::prelude::*;
use vstd::std_specs::hash::obeys_key_model;

verus! {

/// A weak handle to shared content. `std::sync::Weak` carries an allocator
/// parameter that cannot be declared to the verifier, so it is held here,
/// out of the verifier's sight; only the two functions below touch it.
#[verifier::external_body]
#[verifier::reject_recursive_types(U)]
pub struct WeakHandle<U> {
    handle: Weak<U>,
}

/// Relies on `Arc::downgrade`: a weak handle to the same allocation.
/// Nothing about the handle is stated; it is only stored.
#[verifier::external_body]
fn downgrade<U>(rc: &Arc<U>) -> (r: WeakHandle<U>) {
    WeakHandle { handle: Arc::downgrade(rc) }
}

/// Relies on `Weak::upgrade`: a strong handle while the content is still
/// alive, `None` once every strong handle has been dropped. Which of the
/// two comes back depends on the rest of the program, so nothing is stated.
#[verifier::external_body]
fn upgrade<U>(w: &WeakHandle<U>) -> (r: Option<Arc<U>>) {
    w.handle.upgrade()
}

/// Maps keys to weak handles of content that was inserted under them.
#[verifier::reject_recursive_types(T)]
#[verifier::reject_recursive_types(U)]
pub struct ContentCache<T, U> {
    items: HashMap<T, WeakHandle<U>>,
}

impl<T, U> ContentCache<T, U> {
    /// The weak handle stored under each key.
    pub closed spec fn handles(&self) -> Map<T, WeakHandle<U>> {
        self.items@
    }

    /// The keys under which content has been inserted.
    pub open spec fn keys(&self) -> Set<T> {
        self.handles().dom()
    }
}

impl<T, U> ContentCache<T, U> where T: Eq + Hash {
    /// An empty cache.
    pub fn new() -> (r: Self)
        ensures
            r.keys() == Set::<T>::empty(),
    {
        ContentCache { items: HashMap::new() }
    }

    /// The content stored under `key`, if there is any and it is still alive.
    pub fn get(&self, key: T) -> (r: Option<Arc<U>>)
        requires
            obeys_key_model::<T>(),
        ensures
            !self.keys().contains(key) ==> r is None,
    {
        match self.items.get(&key) {
            Some(w) => upgrade(w),
            None => None,
        }
    }

    /// Stores `item` under `key`, replacing what was there, and returns the
    /// only strong handle to it. The cache keeps a weak handle only.
    pub fn insert(&mut self, key: T, item: U) -> (r: Arc<U>)
        requires
            obeys_key_model::<T>(),
        ensures
            *r == item,
            final(self).keys() == old(self).keys().insert(key),
            forall|k: T| k != key && #[trigger] old(self).handles().contains_key(k)
                ==> final(self).handles()[k] == old(self).handles()[k],
    {
        let rc = Arc::new(item);
        let w = downgrade(&rc);
        self.items.insert(key, w);
        rc
    }
}

} // verus!

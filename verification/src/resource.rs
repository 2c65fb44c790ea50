use vstd::prelude::*;

use std::collections::hash_map::Entry;
use std::collections::HashMap;

verus! {

broadcast use vstd::std_specs::hash::group_hash_axioms;

/// Identifies a resource kind; the world holds at most one value per kind.
pub type ResourceId = u64;

/// Singleton values stored on the world, not attached to entities.
pub struct ResourceStorage<V> {
    resources: HashMap<ResourceId, V>,
}

impl<V> View for ResourceStorage<V> {
    type V = Map<ResourceId, V>;

    closed spec fn view(&self) -> Map<ResourceId, V> {
        self.resources@
    }
}

impl<V> ResourceStorage<V> {
    pub fn new() -> (s: Self)
        ensures
            s@ == Map::<ResourceId, V>::empty(),
    {
        ResourceStorage { resources: HashMap::new() }
    }

    /// Stores `resource` under `id`, replacing any previous value.
    pub fn insert(&mut self, id: ResourceId, resource: V)
        ensures
            final(self)@ == old(self)@.insert(id, resource),
    {
        self.resources.insert(id, resource);
    }

    /// The value under `id`, stored first as `V::default()` when there is none.
    pub fn init(&mut self, id: ResourceId) -> (r: &mut V)
        where V: Default,
        ensures
            old(self)@.contains_key(id) ==> *r == old(self)@[id],
            !old(self)@.contains_key(id) ==> call_ensures(V::default, (), *r),
            final(self)@ == old(self)@.insert(id, *final(r)),
    {
        match self.resources.entry(id) {
            Entry::Occupied(o) => o.into_mut(),
            Entry::Vacant(v) => v.insert(V::default()),
        }
    }

    /// The value under `id`, stored first as the result of `f` when there is none.
    pub fn init_with<F: FnOnce() -> V>(&mut self, id: ResourceId, f: F) -> (r: &mut V)
        requires
            f.requires(()),
        ensures
            old(self)@.contains_key(id) ==> *r == old(self)@[id],
            !old(self)@.contains_key(id) ==> f.ensures((), *r),
            final(self)@ == old(self)@.insert(id, *final(r)),
    {
        match self.resources.entry(id) {
            Entry::Occupied(o) => o.into_mut(),
            Entry::Vacant(v) => v.insert(f()),
        }
    }

    /// Takes the value under `id` out of the storage.
    pub fn remove(&mut self, id: ResourceId) -> (r: Option<V>)
        ensures
            r == old(self)@.get(id),
            final(self)@ == old(self)@.remove(id),
    {
        self.resources.remove(&id)
    }

    pub fn contains(&self, id: ResourceId) -> (b: bool)
        ensures
            b == self@.contains_key(id),
    {
        self.resources.contains_key(&id)
    }

    pub fn get(&self, id: ResourceId) -> (r: Option<&V>)
        ensures
            r == (if self@.contains_key(id) { Some(&self@[id]) } else { None }),
    {
        self.resources.get(&id)
    }

    pub fn get_mut(&mut self, id: ResourceId) -> (r: Option<&mut V>)
        ensures
            (r is Some) == old(self)@.contains_key(id),
            r is Some ==> *r->0 == old(self)@[id] && final(self)@ == old(self)@.insert(id, *final(r->0)),
            r is None ==> final(self)@ == old(self)@,
    {
        match self.resources.entry(id) {
            Entry::Occupied(o) => Some(o.into_mut()),
            Entry::Vacant(_) => None,
        }
    }
}

impl<V> Default for ResourceStorage<V> {
    fn default() -> (s: Self)
        ensures
            s@ == Map::<ResourceId, V>::empty(),
    {
        Self::new()
    }
}

} // verus!

use vstd::prelude::*;

use std::collections::HashSet;

use crate::error::EcsError;

verus! {

broadcast use vstd::std_specs::hash::group_hash_axioms;

/// Identifies a component kind. Values of one kind live in one column per archetype.
pub type ComponentId = u64;

/// An owned, contiguous array of the values of one component kind.
pub struct TypedColumn<T> {
    pub data: Vec<T>,
}

impl<T> View for TypedColumn<T> {
    type V = Seq<T>;

    open spec fn view(&self) -> Seq<T> {
        self.data@
    }
}

impl<T> TypedColumn<T> {
    pub fn new() -> (col: Self)
        ensures
            col@ == Seq::<T>::empty(),
    {
        TypedColumn { data: Vec::new() }
    }

    pub fn as_slice(&self) -> (s: &[T])
        ensures
            s@ == self@,
    {
        self.data.as_slice()
    }

    pub fn as_slice_mut(&mut self) -> (s: &mut [T])
        ensures
            s@ == old(self)@,
            final(self)@ == final(s)@,
    {
        self.data.as_mut_slice()
    }

    /// Appends a value. A column holds a single value type, so this never fails.
    pub fn push_any(&mut self, value: T) -> (r: Result<(), EcsError>)
        ensures
            r is Ok,
            final(self)@ == old(self)@.push(value),
    {
        self.data.push(value);
        Ok(())
    }

    /// Removes the value at `row`, moving the last value into its place.
    pub fn swap_remove_any(&mut self, row: usize) -> (value: T)
        requires
            row < old(self)@.len(),
        ensures
            value == old(self)@[row as int],
            final(self)@ == old(self)@.update(row as int, old(self)@.last()).drop_last(),
    {
        self.data.swap_remove(row)
    }

    pub fn len(&self) -> (n: usize)
        ensures
            n == self@.len(),
    {
        self.data.len()
    }

    pub fn is_empty(&self) -> (b: bool)
        ensures
            b == (self@.len() == 0),
    {
        self.data.len() == 0
    }

    pub fn get_any(&self, row: usize) -> (r: Option<&T>)
        ensures
            r == (if row < self@.len() { Some(&self@[row as int]) } else { None }),
    {
        if row < self.data.len() {
            Some(&self.data[row])
        } else {
            None
        }
    }

    pub fn get_any_mut(&mut self, row: usize) -> (r: Option<&mut T>)
        ensures
            (row < old(self)@.len()) == (r is Some),
            row < old(self)@.len() ==> {
                &&& *r->0 == old(self)@[row as int]
                &&& final(self)@ == old(self)@.update(row as int, *final(r->0))
            },
            row >= old(self)@.len() ==> final(self)@ == old(self)@,
    {
        if row < self.data.len() {
            Some(&mut self.data[row])
        } else {
            None
        }
    }
}

/// The set of component kinds that archetypes may hold columns for.
pub struct ComponentRegistry {
    registered: HashSet<ComponentId>,
}

impl View for ComponentRegistry {
    type V = Set<ComponentId>;

    closed spec fn view(&self) -> Set<ComponentId> {
        self.registered@
    }
}

impl ComponentRegistry {
    pub fn new() -> (r: Self)
        ensures
            r@ == Set::<ComponentId>::empty(),
    {
        ComponentRegistry { registered: HashSet::new() }
    }

    pub fn register(&mut self, id: ComponentId)
        ensures
            final(self)@ == old(self)@.insert(id),
    {
        self.registered.insert(id);
    }

    /// An empty column for a registered kind; `None` for an unregistered one.
    pub fn create_column<T>(&self, id: ComponentId) -> (col: Option<TypedColumn<T>>)
        ensures
            col is Some == self@.contains(id),
            col matches Some(c) ==> c@ == Seq::<T>::empty(),
    {
        if self.registered.contains(&id) {
            Some(TypedColumn::new())
        } else {
            None
        }
    }

    pub fn is_registered(&self, id: ComponentId) -> (b: bool)
        ensures
            b == self@.contains(id),
    {
        self.registered.contains(&id)
    }
}

impl Default for ComponentRegistry {
    fn default() -> (r: Self)
        ensures
            r@ == Set::<ComponentId>::empty(),
    {
        Self::new()
    }
}

} // verus!

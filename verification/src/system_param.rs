use vstd::prelude::*;

use crate::event::{EventCursor, EventId, EventReader, EventWriter, Events};
use crate::resource::ResourceId;
use crate::world::World;

verus! {

/// Read-only access to a resource.
pub struct Res<'w, V> {
    value: &'w V,
}

impl<'w, V> Res<'w, V> {
    pub closed spec fn value_spec(&self) -> V {
        *self.value
    }

    pub fn new(value: &'w V) -> (r: Self)
        ensures
            r.value_spec() == *value,
    {
        Res { value }
    }
}

impl<'w, V> std::ops::Deref for Res<'w, V> {
    type Target = V;

    fn deref(&self) -> (r: &V)
        ensures
            *r == self.value_spec(),
    {
        self.value
    }
}

/// Mutable access to a resource.
pub struct ResMut<'w, V> {
    pub value: &'w mut V,
}

impl<'w, V> ResMut<'w, V> {
    pub open spec fn value_spec(&self) -> V {
        *self.value
    }

    pub fn new(value: &'w mut V) -> (r: Self)
        ensures
            r.value_spec() == *old(value),
            *final(r.value) == *final(value),
    {
        ResMut { value }
    }
}

impl<'w, V> std::ops::Deref for ResMut<'w, V> {
    type Target = V;

    fn deref(&self) -> (r: &V)
        ensures
            *r == self.value_spec(),
    {
        self.value
    }
}

impl<'w, V> std::ops::DerefMut for ResMut<'w, V> {
    fn deref_mut(&mut self) -> (r: &mut V)
        ensures
            *r == old(self).value_spec(),
            final(self).value_spec() == *final(r),
            *final(final(self).value) == *final(old(self).value),
    {
        self.value
    }
}

impl<V> World<V> {
    /// Read access to the resource of kind `id`, if there is one.
    pub fn res(&self, id: ResourceId) -> (r: Option<Res<'_, V>>)
        ensures
            r is Some == self.resources_spec().contains_key(id),
            r matches Some(res) ==> res.value_spec() == self.resources_spec()[id],
    {
        match self.resource(id) {
            Some(v) => Some(Res::new(v)),
            None => None,
        }
    }

    /// Mutable access to the resource of kind `id`, if there is one.
    pub fn res_mut(&mut self, id: ResourceId) -> (r: Option<ResMut<'_, V>>)
        requires
            old(self).wf(),
        ensures
            r is Some == old(self).resources_spec().contains_key(id),
            r matches Some(res) ==> res.value_spec() == old(self).resources_spec()[id]
                && final(self).resources_spec() == old(self).resources_spec().insert(id, *final(res.value)),
            r is None ==> final(self).resources_spec() == old(self).resources_spec(),
            final(self).wf(),
            final(self)@ == old(self)@,
            final(self).allocator_spec() == old(self).allocator_spec(),
            final(self).archetypes_spec() == old(self).archetypes_spec(),
            final(self).registered() == old(self).registered(),
            final(self).events_spec() == old(self).events_spec(),
    {
        match self.resource_mut(id) {
            Some(v) => Some(ResMut::new(v)),
            None => None,
        }
    }

    /// Same as [`World::event_reader`].
    pub fn event_reader_param(&self, id: EventId) -> (r: Option<EventReader<'_, V>>)
        requires
            self.wf(),
        ensures
            r is Some == self.events_spec().contains_key(id),
            r matches Some(reader) ==> {
                &&& reader.events_spec().wf()
                &&& reader.events_spec()@ == self.events_spec()[id]
                &&& reader.cursor_spec().position() == 0
            },
    {
        self.event_reader(id)
    }

    /// Same as [`World::event_reader_with_cursor`].
    pub fn event_reader_param_with_cursor(&self, id: EventId, cursor: EventCursor) -> (r: Option<EventReader<'_, V>>)
        requires
            self.wf(),
        ensures
            r is Some == self.events_spec().contains_key(id),
            r matches Some(reader) ==> {
                &&& reader.events_spec().wf()
                &&& reader.events_spec()@ == self.events_spec()[id]
                &&& reader.cursor_spec() == cursor
            },
    {
        self.event_reader_with_cursor(id, cursor)
    }

    /// Same as [`World::event_writer`].
    pub fn event_writer_param(&mut self, id: EventId) -> (r: Option<EventWriter<'_, V>>)
        requires
            old(self).wf(),
        ensures
            r is Some,
            r matches Some(writer) ==> writer.target().wf() && writer.target()@ == (if old(self).events_spec().contains_key(id) {
                old(self).events_spec()[id]
            } else {
                Seq::empty()
            }),
            r matches Some(writer) ==> {
                &&& (final(writer.events).wf() ==> final(self).wf())
                &&& final(self).events_spec() == old(self).events_spec().insert(id, final(writer.events)@)
            },
            final(self)@ == old(self)@,
            final(self).allocator_spec() == old(self).allocator_spec(),
            final(self).archetypes_spec() == old(self).archetypes_spec(),
            final(self).registered() == old(self).registered(),
            final(self).resources_spec() == old(self).resources_spec(),
    {
        self.event_writer(id)
    }

    /// Gives event kind `id` a queue if needed and returns it.
    pub fn init_events(&mut self, id: EventId) -> (r: &mut Events<V>)
        requires
            old(self).wf(),
        ensures
            r.wf(),
            r@ == (if old(self).events_spec().contains_key(id) { old(self).events_spec()[id] } else { Seq::empty() }),
            final(r).wf() ==> final(self).wf(),
            final(self).events_spec() == old(self).events_spec().insert(id, final(r)@),
            final(self)@ == old(self)@,
            final(self).allocator_spec() == old(self).allocator_spec(),
            final(self).archetypes_spec() == old(self).archetypes_spec(),
            final(self).registered() == old(self).registered(),
            final(self).resources_spec() == old(self).resources_spec(),
    {
        self.add_event(id);
        let r = self.events_mut(id);
        r.unwrap()
    }
}

} // verus!

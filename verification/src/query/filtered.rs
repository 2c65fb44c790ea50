use vstd::prelude::*;

use crate::entity::Entity;
use crate::query::access::{AccessModel, QueryAccess};
use crate::storage::ComponentId;
use crate::world::World;

verus! {

/// Read access, checked at runtime against a query's access, to the components of one
/// entity visited by the query.
pub struct FilteredEntityRef<'w, V> {
    world: &'w World<V>,
    entity: Entity,
    arch_idx: usize,
    row: usize,
    access: QueryAccess,
}

impl<'w, V> FilteredEntityRef<'w, V> {
    pub closed spec fn world_spec(&self) -> World<V> {
        *self.world
    }

    pub closed spec fn entity_spec(&self) -> Entity {
        self.entity
    }

    pub closed spec fn position(&self) -> (int, int) {
        (self.arch_idx as int, self.row as int)
    }

    pub closed spec fn access_spec(&self) -> AccessModel {
        self.access@
    }

    /// The reference names the entity stored at its position in a well-formed world.
    pub closed spec fn wf(&self) -> bool {
        &&& self.world.wf()
        &&& (self.arch_idx as int) < self.world.archetypes_spec().len()
        &&& (self.row as int) < self.world.archetypes_spec()[self.arch_idx as int].entities@.len()
        &&& self.world.archetypes_spec()[self.arch_idx as int].entities@[self.row as int] == self.entity
    }

    pub(crate) fn new(world: &'w World<V>, entity: Entity, arch_idx: usize, row: usize) -> (r: Self)
        ensures
            r.world_spec() == *world,
            r.entity_spec() == entity,
            r.position() == (arch_idx as int, row as int),
            r.access_spec() == AccessModel::empty(),
            world.wf() && (arch_idx as int) < world.archetypes_spec().len()
                && (row as int) < world.archetypes_spec()[arch_idx as int].entities@.len()
                && world.archetypes_spec()[arch_idx as int].entities@[row as int] == entity ==> r.wf(),
    {
        FilteredEntityRef { world, entity, arch_idx, row, access: QueryAccess::new() }
    }

    pub(crate) fn with_access(world: &'w World<V>, entity: Entity, arch_idx: usize, row: usize, access: QueryAccess) -> (r: Self)
        ensures
            r.world_spec() == *world,
            r.entity_spec() == entity,
            r.position() == (arch_idx as int, row as int),
            r.access_spec() == access@,
            world.wf() && (arch_idx as int) < world.archetypes_spec().len()
                && (row as int) < world.archetypes_spec()[arch_idx as int].entities@.len()
                && world.archetypes_spec()[arch_idx as int].entities@[row as int] == entity ==> r.wf(),
    {
        FilteredEntityRef { world, entity, arch_idx, row, access }
    }

    pub fn entity(&self) -> (e: Entity)
        ensures
            e == self.entity_spec(),
    {
        self.entity
    }

    /// Component `id` of the entity, if the query may read it and the entity has it.
    pub fn get(&self, id: ComponentId) -> (r: Option<&'w V>)
        requires
            self.wf(),
        ensures
            r == (if self.access_spec().can_read(id) && self.world_spec()@[self.entity_spec()].contains_key(id) {
                Some(&self.world_spec()@[self.entity_spec()][id])
            } else {
                None
            }),
    {
        self.get_by_id(id)
    }

    /// Component `id` of the entity, if the query may read it and the entity has it.
    pub fn get_by_id(&self, id: ComponentId) -> (r: Option<&'w V>)
        requires
            self.wf(),
        ensures
            r == (if self.access_spec().can_read(id) && self.world_spec()@[self.entity_spec()].contains_key(id) {
                Some(&self.world_spec()@[self.entity_spec()][id])
            } else {
                None
            }),
    {
        if !self.access.can_read(id) {
            return None;
        }
        proof {
            self.world.lemma_row_is_spawned(self.arch_idx as int, self.row as int);
            self.world.lemma_archetypes_wf();
        }
        let world: &'w World<V> = self.world;
        world.get_component_at(self.entity, id, self.arch_idx, self.row)
    }
}

/// Read and write access, checked at runtime against a query's access, to the components of
/// one entity visited by a mutable query.
pub struct FilteredEntityMut<'w, V> {
    pub world: &'w mut World<V>,
    pub entity: Entity,
    pub arch_idx: usize,
    pub row: usize,
    pub access: QueryAccess,
}

impl<'w, V> FilteredEntityMut<'w, V> {
    /// The world as the reference currently sees it.
    pub open spec fn world_spec(&self) -> World<V> {
        *self.world
    }

    pub closed spec fn entity_spec(&self) -> Entity {
        self.entity
    }

    pub closed spec fn position(&self) -> (int, int) {
        (self.arch_idx as int, self.row as int)
    }

    pub closed spec fn access_spec(&self) -> AccessModel {
        self.access@
    }

    /// The reference names the entity stored at its position in a well-formed world.
    pub open spec fn wf(&self) -> bool {
        &&& self.world.wf()
        &&& (self.arch_idx as int) < self.world.archetypes_spec().len()
        &&& (self.row as int) < self.world.archetypes_spec()[self.arch_idx as int].entities@.len()
        &&& self.world.archetypes_spec()[self.arch_idx as int].entities@[self.row as int] == self.entity
    }

    pub(crate) fn new(world: &'w mut World<V>, entity: Entity, arch_idx: usize, row: usize) -> (r: Self)
        ensures
            r.world_spec() == *old(world),
            *final(r.world) == *final(world),
            r.entity_spec() == entity,
            r.position() == (arch_idx as int, row as int),
            r.access_spec() == AccessModel::empty(),
    {
        FilteredEntityMut { world, entity, arch_idx, row, access: QueryAccess::new() }
    }

    pub(crate) fn with_access(world: &'w mut World<V>, entity: Entity, arch_idx: usize, row: usize, access: QueryAccess) -> (r: Self)
        ensures
            r.world_spec() == *old(world),
            *final(r.world) == *final(world),
            r.entity_spec() == entity,
            r.position() == (arch_idx as int, row as int),
            r.access_spec() == access@,
            old(world).wf() && (arch_idx as int) < old(world).archetypes_spec().len()
                && (row as int) < old(world).archetypes_spec()[arch_idx as int].entities@.len()
                && old(world).archetypes_spec()[arch_idx as int].entities@[row as int] == entity ==> r.wf(),
    {
        FilteredEntityMut { world, entity, arch_idx, row, access }
    }

    pub fn entity(&self) -> (e: Entity)
        ensures
            e == self.entity_spec(),
    {
        self.entity
    }

    /// Component `id` of the entity, if the query may read it and the entity has it.
    pub fn get(&self, id: ComponentId) -> (r: Option<&V>)
        requires
            self.wf(),
        ensures
            r == (if self.access_spec().can_read(id) && self.world_spec()@[self.entity_spec()].contains_key(id) {
                Some(&self.world_spec()@[self.entity_spec()][id])
            } else {
                None
            }),
    {
        self.get_by_id(id)
    }

    /// Component `id` of the entity, if the query may read it and the entity has it.
    pub fn get_by_id(&self, id: ComponentId) -> (r: Option<&V>)
        requires
            self.wf(),
        ensures
            r == (if self.access_spec().can_read(id) && self.world_spec()@[self.entity_spec()].contains_key(id) {
                Some(&self.world_spec()@[self.entity_spec()][id])
            } else {
                None
            }),
    {
        if !self.access.can_read(id) {
            return None;
        }
        proof {
            self.world.lemma_row_is_spawned(self.arch_idx as int, self.row as int);
        }
        self.world.get_component_at(self.entity, id, self.arch_idx, self.row)
    }

    /// Mutable access to component `id` of the entity, if the query may write it and the
    /// entity has it.
    pub fn get_mut(&mut self, id: ComponentId) -> (r: Option<&mut V>)
        requires
            old(self).wf(),
        ensures
            old(self).world_spec()@.contains_key(old(self).entity_spec()),
            (r is Some) == (old(self).access_spec().can_write(id) && old(self).world_spec()@[old(self).entity_spec()].contains_key(id)),
            r is Some ==> {
                &&& *r->0 == old(self).world_spec()@[old(self).entity_spec()][id]
                &&& final(self).wf()
                &&& final(self).world_spec()@ == old(self).world_spec()@.insert(
                    old(self).entity_spec(),
                    old(self).world_spec()@[old(self).entity_spec()].insert(id, *final(r->0)),
                )
                &&& final(self).world_spec().allocator_spec() == old(self).world_spec().allocator_spec()
                &&& final(self).world_spec().registered() == old(self).world_spec().registered()
                &&& final(self).world_spec().resources_spec() == old(self).world_spec().resources_spec()
                &&& final(self).world_spec().events_spec() == old(self).world_spec().events_spec()
                &&& final(self).world_spec().archetypes_spec().len() == old(self).world_spec().archetypes_spec().len()
                &&& forall|a: int| 0 <= a < old(self).world_spec().archetypes_spec().len() ==>
                    (#[trigger] final(self).world_spec().archetypes_spec()[a]).entities@ == old(self).world_spec().archetypes_spec()[a].entities@
                        && final(self).world_spec().archetypes_spec()[a].sig() == old(self).world_spec().archetypes_spec()[a].sig()
            },
            r is None ==> final(self).world_spec() == old(self).world_spec(),
            final(self).wf(),
            final(self).entity_spec() == old(self).entity_spec(),
            final(self).access_spec() == old(self).access_spec(),
            final(self).position() == old(self).position(),
            *final(final(self).world) == *final(old(self).world),
    {
        self.get_mut_by_id(id)
    }

    /// Mutable access to component `id` of the entity, if the query may write it and the
    /// entity has it.
    pub fn get_mut_by_id(&mut self, id: ComponentId) -> (r: Option<&mut V>)
        requires
            old(self).wf(),
        ensures
            old(self).world_spec()@.contains_key(old(self).entity_spec()),
            (r is Some) == (old(self).access_spec().can_write(id) && old(self).world_spec()@[old(self).entity_spec()].contains_key(id)),
            r is Some ==> {
                &&& *r->0 == old(self).world_spec()@[old(self).entity_spec()][id]
                &&& final(self).wf()
                &&& final(self).world_spec()@ == old(self).world_spec()@.insert(
                    old(self).entity_spec(),
                    old(self).world_spec()@[old(self).entity_spec()].insert(id, *final(r->0)),
                )
                &&& final(self).world_spec().allocator_spec() == old(self).world_spec().allocator_spec()
                &&& final(self).world_spec().registered() == old(self).world_spec().registered()
                &&& final(self).world_spec().resources_spec() == old(self).world_spec().resources_spec()
                &&& final(self).world_spec().events_spec() == old(self).world_spec().events_spec()
                &&& final(self).world_spec().archetypes_spec().len() == old(self).world_spec().archetypes_spec().len()
                &&& forall|a: int| 0 <= a < old(self).world_spec().archetypes_spec().len() ==>
                    (#[trigger] final(self).world_spec().archetypes_spec()[a]).entities@ == old(self).world_spec().archetypes_spec()[a].entities@
                        && final(self).world_spec().archetypes_spec()[a].sig() == old(self).world_spec().archetypes_spec()[a].sig()
            },
            r is None ==> final(self).world_spec() == old(self).world_spec(),
            final(self).wf(),
            final(self).entity_spec() == old(self).entity_spec(),
            final(self).access_spec() == old(self).access_spec(),
            final(self).position() == old(self).position(),
            *final(final(self).world) == *final(old(self).world),
    {
        proof {
            self.world.lemma_row_is_spawned(self.arch_idx as int, self.row as int);
        }
        if !self.access.can_write(id) {
            return None;
        }
        self.world.get_component_at_mut(self.entity, id, self.arch_idx, self.row)
    }
}

} // verus!

use vstd::prelude::*;

use std::collections::HashMap;

use crate::allocator::EntityAllocator;
use crate::archetype::{
    lemma_sorted_insert, lemma_sorted_remove, lemma_sorted_set_eq, lemma_values_map_insert,
    lemma_values_map_remove, lemma_values_map_update, search_signature, sorted_ids, values_map,
    Archetype, ArchetypeId,
};
use crate::entity::Entity;
use crate::error::EcsError;
use crate::event::{EventCursor, EventId, EventReader, EventStorage, EventWriter, Events};
use crate::resource::{ResourceId, ResourceStorage};
use crate::query::access::{filter_matches, AccessModel, FilterDesc};
use crate::query::builder::QueryBuilder;
use crate::query::data::{covers, EntityData, QueryData, ReadData};
use crate::query::filter::{Allow, QueryFilter};
use crate::query::iter::{DynamicQueryIter, DynamicQueryIterMut, Query};
use crate::query::state::{archetype_matches, entity_total, lemma_matching_indices, matching_indices, QueryState};
use crate::storage::{ComponentId, ComponentRegistry, TypedColumn};

verus! {

broadcast use vstd::std_specs::hash::group_hash_axioms;

/// Where a spawned entity's components are stored: an archetype and a row in it.
#[derive(Clone, Copy, Debug, PartialEq, Eq, Structural)]
pub struct EntityLocation {
    pub archetype_id: ArchetypeId,
    pub row: usize,
}

/// Entities, their components grouped by signature into archetypes, and the world's
/// registries. `V` is the type of the values stored for components.
pub struct World<V> {
    allocator: EntityAllocator,
    archetypes: Vec<Archetype<V>>,
    locations: HashMap<u32, EntityLocation>,
    registry: ComponentRegistry,
    resources: ResourceStorage<V>,
    events: EventStorage<V>,
}

/// The ids of `ids`, sorted in increasing order, each once.
fn sorted_unique(ids: &Vec<ComponentId>) -> (r: Vec<ComponentId>)
    ensures
        sorted_ids(r@),
        r@.to_set() == ids@.to_set(),
{
    let mut r: Vec<ComponentId> = Vec::new();
    let mut i: usize = 0;
    proof {
        assert(ids@.take(0).to_set() =~= Set::<ComponentId>::empty());
        assert(r@.to_set() =~= Set::<ComponentId>::empty());
    }
    while i < ids.len()
        invariant
            0 <= i <= ids@.len(),
            sorted_ids(r@),
            r@.to_set() == ids@.take(i as int).to_set(),
        decreases ids@.len() - i,
    {
        let x = ids[i];
        proof {
            assert(ids@.take(i + 1 as int) =~= ids@.take(i as int).push(x));
            ids@.take(i as int).lemma_push_to_set_commute(x);
        }
        match search_signature(&r, x) {
            Ok(_) => {
                proof {
                    assert(r@.to_set().contains(x));
                    assert(r@.to_set().insert(x) =~= r@.to_set());
                }
            },
            Err(p) => {
                proof {
                    lemma_sorted_insert(r@, p as int, x);
                }
                r.insert(p, x);
            },
        }
        i = i + 1;
    }
    assert(ids@.take(ids@.len() as int) =~= ids@);
    r
}

/// Two signatures are the same list of ids.
fn same_signature(a: &Vec<ComponentId>, b: &Vec<ComponentId>) -> (r: bool)
    ensures
        r == (a@ == b@),
{
    if a.len() != b.len() {
        return false;
    }
    let mut i: usize = 0;
    while i < a.len()
        invariant
            a@.len() == b@.len(),
            0 <= i <= a@.len(),
            forall|k: int| 0 <= k < i ==> a@[k] == b@[k],
        decreases a@.len() - i,
    {
        if a[i] != b[i] {
            return false;
        }
        i = i + 1;
    }
    assert(a@ =~= b@);
    true
}

impl<V> World<V> {
    // ----- model -----

    pub closed spec fn archetypes_spec(&self) -> Seq<Archetype<V>> {
        self.archetypes@
    }

    pub closed spec fn registered(&self) -> Set<ComponentId> {
        self.registry@
    }

    /// The world's entity allocator.
    pub closed spec fn allocator_spec(&self) -> EntityAllocator {
        self.allocator
    }

    pub open spec fn spec_is_alive(&self, entity: Entity) -> bool {
        self.allocator_spec().spec_is_alive(entity)
    }

    /// The handle that the next `spawn` returns.
    pub open spec fn next_entity(&self) -> Entity {
        self.allocator_spec().next_entity()
    }

    /// `spawn` can hand out another handle (a freed slot exists, or a fresh index fits in `u32`).
    pub open spec fn can_spawn(&self) -> bool {
        self.allocator_spec().can_alloc()
    }

    /// How many more entities `spawn` can hand out: the freed slots plus the fresh indices
    /// left in `u32`.
    pub open spec fn spawn_room(&self) -> int {
        self.allocator_spec().free_list().len() + (u32::MAX + 1 - self.allocator_spec().generations().len())
    }

    /// `spawn` can proceed exactly when there is room.
    pub proof fn lemma_can_spawn_iff_room(&self)
        requires
            self.wf(),
        ensures
            self.can_spawn() == (self.spawn_room() > 0),
            self.spawn_room() >= 0,
    {
    }

    /// `later` holds every archetype of this world at the same position with the same
    /// signature: archetypes are only ever appended.
    pub open spec fn keeps_archetypes(&self, later: World<V>) -> bool {
        &&& self.archetypes_spec().len() <= later.archetypes_spec().len()
        &&& forall|a: int| 0 <= a < self.archetypes_spec().len()
            ==> #[trigger] later.archetypes_spec()[a].sig() == self.archetypes_spec()[a].sig()
    }

    /// Keeping archetypes in place over one step and then another keeps them over both.
    pub proof fn lemma_keeps_archetypes_trans(&self, mid: World<V>, later: World<V>)
        requires
            self.keeps_archetypes(mid),
            mid.keeps_archetypes(later),
        ensures
            self.keeps_archetypes(later),
    {
        assert forall|a: int| 0 <= a < self.archetypes_spec().len()
            implies #[trigger] later.archetypes_spec()[a].sig() == self.archetypes_spec()[a].sig() by {
            assert(later.archetypes_spec()[a].sig() == mid.archetypes_spec()[a].sig());
        }
    }

    pub closed spec fn archetype_count(&self) -> nat {
        self.archetypes@.len()
    }

    /// The entity has been spawned and not despawned since.
    pub closed spec fn is_spawned(&self, entity: Entity) -> bool {
        &&& self.locations@.contains_key(entity.index)
        &&& (entity.index as int) < self.allocator.generations().len()
        &&& self.allocator.generations()[entity.index as int] == entity.generation
    }

    /// The components of a spawned entity.
    pub closed spec fn components(&self, entity: Entity) -> Map<ComponentId, V> {
        let loc = self.locations@[entity.index];
        self.archetypes@[loc.archetype_id as int].row_values(loc.row as int)
    }

    spec fn loc_valid(&self, loc: EntityLocation) -> bool {
        &&& (loc.archetype_id as int) < self.archetypes@.len()
        &&& (loc.row as int) < self.archetypes@[loc.archetype_id as int].entities@.len()
    }

    spec fn entity_at(&self, loc: EntityLocation) -> Entity {
        self.archetypes@[loc.archetype_id as int].entities@[loc.row as int]
    }

    /// Archetypes: sorted signatures of registered kinds, one per signature, the empty one
    /// first, and cached edges that lead to the signature with one kind added or removed.
    spec fn archetypes_wf(&self) -> bool {
        &&& 1 <= self.archetypes@.len() <= u32::MAX + 1
        &&& self.archetypes@[0].sig().len() == 0
        &&& forall|a: int| 0 <= a < self.archetypes@.len() ==> {
            &&& (#[trigger] self.archetypes@[a]).wf()
            &&& self.archetypes@[a].id == a
        }
        &&& forall|a: int, j: int| 0 <= a < self.archetypes@.len() && 0 <= j < self.archetypes@[a].sig().len()
            ==> self.registry@.contains(#[trigger] self.archetypes@[a].sig()[j])
        &&& forall|a: int, b: int| 0 <= a < self.archetypes@.len() && 0 <= b < self.archetypes@.len() && a != b
            ==> #[trigger] self.archetypes@[a].sig() != #[trigger] self.archetypes@[b].sig()
        &&& forall|a: int, c: ComponentId| 0 <= a < self.archetypes@.len() && #[trigger] self.archetypes@[a].add_edges@.contains_key(c) ==> {
            let d = self.archetypes@[a].add_edges@[c] as int;
            &&& d < self.archetypes@.len()
            &&& self.archetypes@[d].sig().to_set() == self.archetypes@[a].sig().to_set().insert(c)
        }
        &&& forall|a: int, c: ComponentId| 0 <= a < self.archetypes@.len() && #[trigger] self.archetypes@[a].remove_edges@.contains_key(c) ==> {
            let d = self.archetypes@[a].remove_edges@[c] as int;
            &&& d < self.archetypes@.len()
            &&& self.archetypes@[d].sig().to_set() == self.archetypes@[a].sig().to_set().remove(c)
        }
    }

    /// The world's invariant, except that the slots in `detached` are allocated but hold no
    /// row (an entity between two archetypes).
    spec fn wf_core(&self, detached: Set<u32>) -> bool {
        &&& self.allocator.wf()
        &&& self.allocator.generations().len() <= u32::MAX + 1
        &&& self.allocator.free_list().no_duplicates()
        &&& self.archetypes_wf()
        &&& forall|i: u32| #[trigger] self.locations@.contains_key(i) ==> {
            let loc = self.locations@[i];
            &&& (i as int) < self.allocator.generations().len()
            &&& self.loc_valid(loc)
            &&& self.entity_at(loc) == Entity { index: i, generation: self.allocator.generations()[i as int] }
            &&& !detached.contains(i)
        }
        &&& forall|a: int, k: int| 0 <= a < self.archetypes@.len() && 0 <= k < self.archetypes@[a].entities@.len() ==> {
            let x = #[trigger] self.archetypes@[a].entities@[k];
            &&& self.locations@.contains_key(x.index)
            &&& self.locations@[x.index].archetype_id == a
                &&& self.locations@[x.index].row == k
        }
        &&& forall|i: u32| #![trigger self.locations@.contains_key(i)] #![trigger self.allocator.free_list().contains(i)]
            (i as int) < self.allocator.generations().len() && !detached.contains(i) ==>
                (self.locations@.contains_key(i) <==> !self.allocator.free_list().contains(i))
        &&& forall|i: u32| #[trigger] detached.contains(i) ==> {
            &&& (i as int) < self.allocator.generations().len()
            &&& !self.allocator.free_list().contains(i)
            &&& !self.locations@.contains_key(i)
        }
    }

    pub closed spec fn wf(&self) -> bool {
        &&& self.wf_core(Set::empty())
        &&& self.events.wf()
    }

    /// The resource stored for each resource kind.
    pub closed spec fn resources_spec(&self) -> Map<ResourceId, V> {
        self.resources@
    }

    /// The current events of each registered event kind.
    pub closed spec fn events_spec(&self) -> Map<EventId, Seq<V>> {
        self.events@
    }
}

impl<V> World<V> {
    pub fn new() -> (w: Self)
        ensures
            w.wf(),
            w@ == Map::<Entity, Map<ComponentId, V>>::empty(),
            w.registered() == Set::<ComponentId>::empty(),
            w.resources_spec() == Map::<ResourceId, V>::empty(),
            w.events_spec() == Map::<EventId, Seq<V>>::empty(),
            w.allocator_spec().generations() == Seq::<u32>::empty(),
            w.allocator_spec().free_list() == Seq::<u32>::empty(),
            forall|e: Entity| !w.spec_is_alive(e),
            w.next_entity() == (Entity { index: 0, generation: 0 }),
            w.can_spawn(),
            w.spawn_room() == u32::MAX + 1,
            w.archetype_count() == 1,
    {
        let mut archetypes: Vec<Archetype<V>> = Vec::new();
        archetypes.push(Archetype::new(0, Vec::new(), Vec::new()));
        let w = World {
            allocator: EntityAllocator::new(),
            archetypes,
            locations: HashMap::new(),
            registry: ComponentRegistry::new(),
            resources: ResourceStorage::new(),
            events: EventStorage::new(),
        };
        assert(w@ =~= Map::<Entity, Map<ComponentId, V>>::empty());
        w
    }

    /// Allows archetypes to hold columns of kind `id`.
    pub fn register_component(&mut self, id: ComponentId)
        requires
            old(self).wf(),
        ensures
            final(self).archetype_count() == old(self).archetype_count(),
            final(self).spawn_room() == old(self).spawn_room(),
            final(self).resources_spec() == old(self).resources_spec(),
            final(self).events_spec() == old(self).events_spec(),
            final(self).wf(),
            final(self)@ == old(self)@,
            final(self).registered() == old(self).registered().insert(id),
            final(self).allocator_spec() == old(self).allocator_spec(),
            final(self).archetypes_spec() == old(self).archetypes_spec(),
    {
        self.registry.register(id);
        assert(self@ =~= old(self)@);
    }

    /// Whether `spawn` can hand out another entity (see [`World::can_spawn`]).
    pub fn has_room_to_spawn(&self) -> (b: bool)
        ensures
            b == self.can_spawn(),
    {
        self.allocator.can_allocate()
    }

    /// The number of archetypes, as `insert_component` and `remove_component` bound it.
    pub fn archetype_len(&self) -> (n: usize)
        ensures
            n == self.archetype_count(),
    {
        self.archetypes.len()
    }

    pub fn is_alive(&self, entity: Entity) -> (b: bool)
        ensures
            b == self.spec_is_alive(entity),
    {
        self.allocator.is_alive(entity)
    }

    /// The archetype whose signature holds exactly the ids of `input` (sorted, each once),
    /// created (with empty columns) if no archetype has that set of ids yet.
    fn get_or_create_archetype(&mut self, input: Vec<ComponentId>) -> (id: ArchetypeId)
        requires
            old(self).wf(),
            forall|j: int| 0 <= j < input@.len() ==> old(self).registry@.contains(#[trigger] input@[j]),
            old(self).archetypes@.len() <= u32::MAX,
        ensures
            final(self).events == old(self).events,
            final(self).resources == old(self).resources,
            final(self).wf(),
            (id as int) < final(self).archetypes@.len(),
            sorted_ids(final(self).archetypes@[id as int].sig()),
            final(self).archetypes@[id as int].sig().to_set() == input@.to_set(),
            sorted_ids(input@) ==> final(self).archetypes@[id as int].sig() == input@,
            (final(self).archetypes@.len() == old(self).archetypes@.len() + 1) == (forall|a: int| 0 <= a < old(self).archetypes@.len()
                ==> #[trigger] old(self).archetypes@[a].sig().to_set() != input@.to_set()),
            final(self).archetypes@.len() == old(self).archetypes@.len() + 1 ==> id == old(self).archetypes@.len(),
            forall|a: int| 0 <= a < old(self).archetypes@.len() && #[trigger] old(self).archetypes@[a].sig().to_set() == input@.to_set()
                ==> id == a,
            old(self).archetypes@.len() <= final(self).archetypes@.len() <= old(self).archetypes@.len() + 1,
            forall|a: int| 0 <= a < old(self).archetypes@.len() ==> #[trigger] final(self).archetypes@[a] == old(self).archetypes@[a],
            final(self).allocator == old(self).allocator,
            final(self).locations@ == old(self).locations@,
            final(self).registry@ == old(self).registry@,
            final(self)@ == old(self)@,
    {
        let signature = sorted_unique(&input);
        proof {
            self.lemma_archetypes_wf();
            if sorted_ids(input@) {
                lemma_sorted_set_eq(signature@, input@);
            }
            assert forall|k: int| 0 <= k < signature@.len() implies old(self).registry@.contains(#[trigger] signature@[k]) by {
                assert(signature@.to_set().contains(signature@[k]));
                assert(input@.to_set().contains(signature@[k]));
                let j = choose|j: int| 0 <= j < input@.len() && input@[j] == signature@[k];
                assert(old(self).registry@.contains(input@[j]));
            }
            // Archetype signatures are sorted, so equal id sets mean equal signatures.
            assert forall|a: int| 0 <= a < old(self).archetypes@.len()
                implies (#[trigger] old(self).archetypes@[a].sig().to_set() == input@.to_set()) == (old(self).archetypes@[a].sig() == signature@) by {
                assert(old(self).archetypes@[a].wf());
                if old(self).archetypes@[a].sig().to_set() == input@.to_set() {
                    lemma_sorted_set_eq(old(self).archetypes@[a].sig(), signature@);
                }
            }
        }
        // Archetypes are found by comparing signatures one by one: a map keyed by a `Vec` of
        // ids would come with no specification of its lookups here, only maps keyed by an
        // integer do.
        let mut i: usize = 0;
        while i < self.archetypes.len()
            invariant
                *self == *old(self),
                old(self).wf(),
                0 <= i <= self.archetypes@.len(),
                forall|k: int| 0 <= k < i ==> self.archetypes@[k].sig() != signature@,
                sorted_ids(signature@),
                signature@.to_set() == input@.to_set(),
                sorted_ids(input@) ==> signature@ == input@,
                forall|a: int| 0 <= a < old(self).archetypes@.len()
                    ==> (#[trigger] old(self).archetypes@[a].sig().to_set() == input@.to_set()) == (old(self).archetypes@[a].sig() == signature@),
            decreases self.archetypes@.len() - i,
        {
            if same_signature(&self.archetypes[i].type_signature, &signature) {
                proof {
                    assert(old(self).archetypes@[i as int].sig().to_set() == input@.to_set());
                    assert forall|a: int| 0 <= a < old(self).archetypes@.len() && #[trigger] old(self).archetypes@[a].sig().to_set() == input@.to_set()
                        implies i == a by {
                        old(self).lemma_signature_set_unique(a, i as int);
                    }
                }
                return i as ArchetypeId;
            }
            i = i + 1;
        }
        let mut columns: Vec<TypedColumn<V>> = Vec::new();
        let mut j: usize = 0;
        while j < signature.len()
            invariant
                *self == *old(self),
                old(self).wf(),
                0 <= j <= signature@.len(),
                columns@.len() == j,
                forall|k: int| 0 <= k < j ==> (#[trigger] columns@[k])@.len() == 0,
                forall|k: int| 0 <= k < signature@.len() ==> old(self).registry@.contains(#[trigger] signature@[k]),
                forall|k: int| 0 <= k < old(self).archetypes@.len() ==> old(self).archetypes@[k].sig() != signature@,
                sorted_ids(signature@),
                signature@.to_set() == input@.to_set(),
                sorted_ids(input@) ==> signature@ == input@,
                forall|a: int| 0 <= a < old(self).archetypes@.len()
                    ==> (#[trigger] old(self).archetypes@[a].sig().to_set() == input@.to_set()) == (old(self).archetypes@[a].sig() == signature@),
            decreases signature@.len() - j,
        {
            let col = self.registry.create_column(signature[j]);
            columns.push(col.unwrap());
            j = j + 1;
        }
        let id = self.archetypes.len() as ArchetypeId;
        let ghost sig = signature@;
        self.archetypes.push(Archetype::new(id, signature, columns));
        proof {
            let n = old(self).archetypes@.len();
            assert(self.archetypes@[n as int].sig() == sig);
            assert forall|a: int| 0 <= a < n implies #[trigger] self.archetypes@[a] == old(self).archetypes@[a] by {}
            assert forall|a: int, b: int| 0 <= a < self.archetypes@.len() && 0 <= b < self.archetypes@.len() && a != b
                implies #[trigger] self.archetypes@[a].sig() != #[trigger] self.archetypes@[b].sig() by {
                if a < n && b < n {
                    assert(old(self).archetypes@[a].sig() != old(self).archetypes@[b].sig());
                }
            }
            assert forall|a: int, k: int| 0 <= a < self.archetypes@.len() && 0 <= k < self.archetypes@[a].entities@.len() implies {
                let x = #[trigger] self.archetypes@[a].entities@[k];
                &&& self.locations@.contains_key(x.index)
                &&& self.locations@[x.index].archetype_id == a
                &&& self.locations@[x.index].row == k
            } by {
                assert(a < n);
                assert(old(self).archetypes@[a].entities@[k] == self.archetypes@[a].entities@[k]);
            }
            assert forall|i: u32| #[trigger] self.locations@.contains_key(i) implies {
                let loc = self.locations@[i];
                &&& (i as int) < self.allocator.generations().len()
                &&& self.loc_valid(loc)
                &&& self.entity_at(loc) == Entity { index: i, generation: self.allocator.generations()[i as int] }
            } by {
                let loc = self.locations@[i];
                assert(old(self).loc_valid(loc));
                assert(self.archetypes@[loc.archetype_id as int] == old(self).archetypes@[loc.archetype_id as int]);
            }
            assert(self@ =~= old(self)@);
        }
        id
    }
}

impl<V> World<V> {
    /// Puts an allocated, detached entity into a new row of archetype `dst`.
    fn attach_row(&mut self, dst: usize, entity: Entity, values: Vec<V>, Ghost(detached): Ghost<Set<u32>>)
        requires
            old(self).wf_core(detached),
            detached.contains(entity.index),
            old(self).allocator.generations()[entity.index as int] == entity.generation,
            dst < old(self).archetypes@.len(),
            values@.len() == old(self).archetypes@[dst as int].sig().len(),
        ensures
            final(self).events == old(self).events,
            final(self).resources == old(self).resources,
            final(self).wf_core(detached.remove(entity.index)),
            final(self)@ == old(self)@.insert(entity, values_map(old(self).archetypes@[dst as int].sig(), values@)),
            final(self).allocator == old(self).allocator,
            final(self).registry@ == old(self).registry@,
            final(self).archetypes@.len() == old(self).archetypes@.len(),
            forall|a: int| 0 <= a < final(self).archetypes@.len() ==> (#[trigger] final(self).archetypes@[a]).sig()
                == old(self).archetypes@[a].sig(),
    {
        let ghost vals = values@;
        let ghost n = old(self).archetypes@[dst as int].entities@.len();
        let row = self.archetypes[dst].push_row(entity, values);
        self.locations.insert(entity.index, EntityLocation { archetype_id: dst as ArchetypeId, row });
        proof {
            let d2 = detached.remove(entity.index);
            let o = old(self);
            assert(forall|a: int| 0 <= a < self.archetypes@.len() && a != dst ==> #[trigger] self.archetypes@[a] == o.archetypes@[a]);
            assert(self.archetypes_wf()) by {
                Self::lemma_rows_frame(*o, *self);
            }
            assert forall|i: u32| #[trigger] self.locations@.contains_key(i) implies {
                let loc = self.locations@[i];
                &&& (i as int) < self.allocator.generations().len()
                &&& self.loc_valid(loc)
                &&& self.entity_at(loc) == Entity { index: i, generation: self.allocator.generations()[i as int] }
                &&& !d2.contains(i)
            } by {
                if i != entity.index {
                    assert(o.locations@.contains_key(i));
                    let loc = o.locations@[i];
                    assert(o.loc_valid(loc));
                    if loc.archetype_id as int == dst as int {
                        assert(self.archetypes@[dst as int].entities@[loc.row as int] == o.archetypes@[dst as int].entities@[loc.row as int]);
                    }
                }
            }
            assert forall|a: int, k: int| 0 <= a < self.archetypes@.len() && 0 <= k < self.archetypes@[a].entities@.len() implies {
                let x = #[trigger] self.archetypes@[a].entities@[k];
                &&& self.locations@.contains_key(x.index)
                &&& self.locations@[x.index].archetype_id == a
                &&& self.locations@[x.index].row == k
            } by {
                let x = self.archetypes@[a].entities@[k];
                if a == dst && k == n {
                    assert(x == entity);
                } else {
                    assert(x == o.archetypes@[a].entities@[k]);
                    assert(o.locations@.contains_key(x.index));
                    assert(x.index != entity.index);
                }
            }
            assert forall|i: u32| #[trigger] d2.contains(i) implies {
                &&& (i as int) < self.allocator.generations().len()
                &&& !self.allocator.free_list().contains(i)
                &&& !self.locations@.contains_key(i)
            } by {
                assert(detached.contains(i));
            }
            assert(self.wf_core(d2));
            let comps = values_map(o.archetypes@[dst as int].sig(), vals);
            assert forall|e: Entity| #[trigger] self.is_spawned(e) == old(self)@.insert(entity, comps).contains_key(e) by {
                if e.index == entity.index && e != entity {
                    assert(e.generation != entity.generation);
                }
            }
            assert forall|e: Entity| #[trigger] self.is_spawned(e) implies self.components(e) == old(self)@.insert(entity, comps)[e] by {
                if e == entity {
                    assert(self.locations@[e.index] == EntityLocation { archetype_id: dst as u32, row });
                } else {
                    assert(o.is_spawned(e));
                    let loc = o.locations@[e.index];
                    assert(o.loc_valid(loc));
                    assert(self.locations@[e.index] == loc);
                    if loc.archetype_id as int == dst as int {
                        assert(self.archetypes@[dst as int].row(loc.row as int) == o.archetypes@[dst as int].row(loc.row as int));
                    }
                }
            }
            assert(self@ =~= old(self)@.insert(entity, comps));
        }
    }

    /// Takes a spawned entity out of its row, leaving its slot allocated but detached.
    /// Returns the entity's values in its archetype's signature order.
    fn detach_row(&mut self, entity: Entity, loc: EntityLocation, Ghost(detached): Ghost<Set<u32>>) -> (values: Vec<V>)
        requires
            old(self).wf_core(detached),
            old(self).locations@.contains_key(entity.index),
            old(self).locations@[entity.index] == loc,
            old(self).allocator.generations()[entity.index as int] == entity.generation,
        ensures
            final(self).events == old(self).events,
            final(self).resources == old(self).resources,
            final(self).wf_core(detached.insert(entity.index)),
            final(self)@ == old(self)@.remove(entity),
            values@ == old(self).archetypes@[loc.archetype_id as int].row(loc.row as int),
            old(self)@[entity] == values_map(old(self).archetypes@[loc.archetype_id as int].sig(), values@),
            final(self).allocator == old(self).allocator,
            final(self).registry@ == old(self).registry@,
            final(self).archetypes@.len() == old(self).archetypes@.len(),
            forall|a: int| 0 <= a < final(self).archetypes@.len() ==> (#[trigger] final(self).archetypes@[a]).sig()
                == old(self).archetypes@[a].sig(),
    {
        let ghost o = *old(self);
        let ghost src = loc.archetype_id as int;
        let ghost r = loc.row as int;
        let ghost n = o.archetypes@[src].entities@.len();
        proof {
            assert(o.loc_valid(loc));
            assert(o.is_spawned(entity));
        }
        let (values, displaced) = self.archetypes[loc.archetype_id as usize].take_row(loc.row);
        match displaced {
            Some(d) => {
                self.locations.insert(d.index, loc);
            },
            None => {},
        }
        self.locations.remove(&entity.index);
        proof {
            let d2 = detached.insert(entity.index);
            let last = o.archetypes@[src].entities@[n - 1];
            assert(o.locations@[last.index].archetype_id == src && o.locations@[last.index].row == n - 1);
            assert(o.archetypes@[src].entities@[r] == entity);
            assert(forall|a: int| 0 <= a < self.archetypes@.len() && a != src ==> #[trigger] self.archetypes@[a] == o.archetypes@[a]);
            if r < n - 1 {
                assert(displaced == Some(last));
                assert(last.index != entity.index);
            }
            assert(self.archetypes_wf()) by {
                Self::lemma_rows_frame(o, *self);
            }
            assert forall|i: u32| #[trigger] self.locations@.contains_key(i) implies {
                let l = self.locations@[i];
                &&& (i as int) < self.allocator.generations().len()
                &&& self.loc_valid(l)
                &&& self.entity_at(l) == Entity { index: i, generation: self.allocator.generations()[i as int] }
                &&& !d2.contains(i)
            } by {
                assert(i != entity.index);
                assert(o.locations@.contains_key(i));
                let l = o.locations@[i];
                assert(o.loc_valid(l));
                assert(!detached.contains(i));
                if r < n - 1 && i == last.index {
                    assert(self.locations@[i] == loc);
                    assert(self.archetypes@[src].entities@[r] == last);
                    assert(last == o.entity_at(l));
                    assert(self.loc_valid(loc));
                } else {
                    assert(self.locations@[i] == l);
                    if l.archetype_id as int == src {
                        assert(o.entity_at(l).index == i);
                        assert(l.row as int != r);
                        assert(l.row as int != n - 1);
                        assert(self.archetypes@[src].entities@[l.row as int] == o.archetypes@[src].entities@[l.row as int]);
                    }
                }
            }
            assert forall|a: int, k: int| 0 <= a < self.archetypes@.len() && 0 <= k < self.archetypes@[a].entities@.len() implies {
                let x = #[trigger] self.archetypes@[a].entities@[k];
                &&& self.locations@.contains_key(x.index)
                &&& self.locations@[x.index].archetype_id == a
                &&& self.locations@[x.index].row == k
            } by {
                let x = self.archetypes@[a].entities@[k];
                if a == src && k == r {
                    assert(x == last);
                } else {
                    assert(x == o.archetypes@[a].entities@[k]);
                    assert(o.locations@[x.index].archetype_id == a && o.locations@[x.index].row == k);
                    assert(x.index != entity.index);
                    assert(x.index != last.index);
                }
            }
            assert forall|i: u32| #![trigger self.locations@.contains_key(i)] #![trigger self.allocator.free_list().contains(i)]
                (i as int) < self.allocator.generations().len() && !d2.contains(i) implies
                    (self.locations@.contains_key(i) <==> !self.allocator.free_list().contains(i)) by {
                assert(o.locations@.contains_key(i) == self.locations@.contains_key(i));
            }
            assert forall|i: u32| #[trigger] d2.contains(i) implies {
                &&& (i as int) < self.allocator.generations().len()
                &&& !self.allocator.free_list().contains(i)
                &&& !self.locations@.contains_key(i)
            } by {
                if i == entity.index {
                    assert(o.locations@.contains_key(i));
                } else {
                    assert(detached.contains(i));
                }
            }
            assert(self.wf_core(d2));
            assert forall|e: Entity| #[trigger] self.is_spawned(e) == old(self)@.remove(entity).contains_key(e) by {
                if e.index != entity.index {
                    assert(o.locations@.contains_key(e.index) == self.locations@.contains_key(e.index));
                } else if e != entity {
                    assert(e.generation != entity.generation);
                }
            }
            assert forall|e: Entity| #[trigger] self.is_spawned(e) implies self.components(e) == old(self)@.remove(entity)[e] by {
                assert(o.is_spawned(e));
                let l = o.locations@[e.index];
                assert(o.loc_valid(l));
                assert(o.entity_at(l) == e);
                if r < n - 1 && e.index == last.index {
                    assert(e == last);
                    assert(self.archetypes@[src].row(r) == o.archetypes@[src].row(n - 1));
                } else {
                    assert(self.locations@[e.index] == l);
                    if l.archetype_id as int == src {
                        assert(l.row as int != r);
                        assert(l.row as int != n - 1);
                        assert(self.archetypes@[src].row(l.row as int) == o.archetypes@[src].row(l.row as int));
                    }
                }
            }
            assert(self@ =~= old(self)@.remove(entity));
        }
        values
    }

    /// Creates an entity with no components.
    pub fn spawn(&mut self) -> (entity: Entity)
        requires
            old(self).wf(),
            old(self).can_spawn(),
        ensures
            old(self).keeps_archetypes(*final(self)),
            final(self).archetype_count() == old(self).archetype_count(),
            final(self).spawn_room() == old(self).spawn_room() - 1,
            final(self).resources_spec() == old(self).resources_spec(),
            final(self).events_spec() == old(self).events_spec(),
            final(self).wf(),
            entity == old(self).next_entity(),
            !old(self)@.contains_key(entity),
            final(self)@ == old(self)@.insert(entity, Map::<ComponentId, V>::empty()),
            final(self).spec_is_alive(entity),
            old(self).allocator_spec().free_list().len() > 0 ==> {
                &&& final(self).allocator_spec().free_list() == old(self).allocator_spec().free_list().drop_last()
                &&& final(self).allocator_spec().generations() == old(self).allocator_spec().generations()
            },
            old(self).allocator_spec().free_list().len() == 0 ==> {
                &&& final(self).allocator_spec().free_list() == old(self).allocator_spec().free_list()
                &&& final(self).allocator_spec().generations() == old(self).allocator_spec().generations().push(0)
            },
            final(self).registered() == old(self).registered(),
    {
        let ghost o = *old(self);
        let entity = self.allocator.allocate();
        let ghost i = entity.index;
        proof {
            let d = Set::<u32>::empty().insert(i);
            assert(!o.locations@.contains_key(i)) by {
                if o.locations@.contains_key(i) {
                    if o.allocator.free_list().len() > 0 {
                        assert(o.allocator.free_list().contains(i));
                    }
                }
            }
            assert(self.archetypes_wf());
            assert forall|j: u32| #[trigger] self.locations@.contains_key(j) implies {
                let loc = self.locations@[j];
                &&& (j as int) < self.allocator.generations().len()
                &&& self.loc_valid(loc)
                &&& self.entity_at(loc) == Entity { index: j, generation: self.allocator.generations()[j as int] }
                &&& !d.contains(j)
            } by {
                assert(o.allocator.generations()[j as int] == self.allocator.generations()[j as int]);
            }
            assert forall|j: u32| #![trigger self.locations@.contains_key(j)] #![trigger self.allocator.free_list().contains(j)]
                (j as int) < self.allocator.generations().len() && !d.contains(j) implies
                    (self.locations@.contains_key(j) <==> !self.allocator.free_list().contains(j)) by {
                if o.allocator.free_list().len() > 0 {
                    let fl = o.allocator.free_list();
                    if fl.contains(j) {
                        let k = choose|k: int| 0 <= k < fl.len() && fl[k] == j;
                        assert(k != fl.len() - 1);
                        assert(self.allocator.free_list()[k] == j);
                    }
                    if self.allocator.free_list().contains(j) {
                        let k = choose|k: int| 0 <= k < self.allocator.free_list().len() && self.allocator.free_list()[k] == j;
                        assert(fl[k] == j);
                    }
                } else {
                    assert((j as int) < o.allocator.generations().len());
                }
            }
            assert forall|j: u32| #[trigger] d.contains(j) implies {
                &&& (j as int) < self.allocator.generations().len()
                &&& !self.allocator.free_list().contains(j)
                &&& !self.locations@.contains_key(j)
            } by {
                if o.allocator.free_list().len() > 0 {
                    let fl = o.allocator.free_list();
                    if self.allocator.free_list().contains(j) {
                        let k = choose|k: int| 0 <= k < self.allocator.free_list().len() && self.allocator.free_list()[k] == j;
                        assert(fl[k] == j);
                        assert(fl[fl.len() - 1] == j);
                    }
                } else {
                    if self.allocator.free_list().contains(j) {
                        let k = choose|k: int| 0 <= k < self.allocator.free_list().len() && self.allocator.free_list()[k] == j;
                        assert(o.allocator.free_list()[k] < o.allocator.generations().len());
                    }
                }
            }
            assert(self.allocator.free_list().no_duplicates());
            assert(self.wf_core(d));
            assert forall|e: Entity| #[trigger] self.is_spawned(e) == o.is_spawned(e) by {
                if self.locations@.contains_key(e.index) {
                    assert(o.allocator.generations()[e.index as int] == self.allocator.generations()[e.index as int]);
                }
            }
            assert(self@ =~= o@);
        }
        let ghost sig0 = self.archetypes@[0].sig();
        self.attach_row(0, entity, Vec::new(), Ghost(Set::<u32>::empty().insert(entity.index)));
        proof {
            assert(Set::<u32>::empty().insert(i).remove(i) =~= Set::<u32>::empty());
            assert(values_map(sig0, Seq::<V>::empty()) =~= Map::<ComponentId, V>::empty());
        }
        entity
    }
}

impl<V> World<V> {
    /// A step that changes only the rows of archetypes (entities and columns), leaving every
    /// signature, id and cached edge in place, keeps the archetype part of the invariant.
    proof fn lemma_rows_frame(o: Self, w: Self)
        requires
            o.archetypes_wf(),
            w.registry@ == o.registry@,
            w.archetypes@.len() == o.archetypes@.len(),
            forall|a: int| 0 <= a < w.archetypes@.len() ==> {
                &&& (#[trigger] w.archetypes@[a]).sig() == o.archetypes@[a].sig()
                &&& w.archetypes@[a].id == o.archetypes@[a].id
                &&& w.archetypes@[a].add_edges@ == o.archetypes@[a].add_edges@
                &&& w.archetypes@[a].remove_edges@ == o.archetypes@[a].remove_edges@
                &&& w.archetypes@[a].wf()
            },
        ensures
            w.archetypes_wf(),
    {
        assert forall|a: int, c: ComponentId| 0 <= a < w.archetypes@.len() && #[trigger] w.archetypes@[a].add_edges@.contains_key(c) implies {
            let d = w.archetypes@[a].add_edges@[c] as int;
            &&& d < w.archetypes@.len()
            &&& w.archetypes@[d].sig().to_set() == w.archetypes@[a].sig().to_set().insert(c)
        } by {
            assert(o.archetypes@[a].add_edges@.contains_key(c));
            let d = o.archetypes@[a].add_edges@[c] as int;
            assert(w.archetypes@[d].sig() == o.archetypes@[d].sig());
        }
        assert forall|a: int, c: ComponentId| 0 <= a < w.archetypes@.len() && #[trigger] w.archetypes@[a].remove_edges@.contains_key(c) implies {
            let d = w.archetypes@[a].remove_edges@[c] as int;
            &&& d < w.archetypes@.len()
            &&& w.archetypes@[d].sig().to_set() == w.archetypes@[a].sig().to_set().remove(c)
        } by {
            assert(o.archetypes@[a].remove_edges@.contains_key(c));
            let d = o.archetypes@[a].remove_edges@[c] as int;
            assert(w.archetypes@[d].sig() == o.archetypes@[d].sig());
        }
        assert forall|a: int, j: int| 0 <= a < w.archetypes@.len() && 0 <= j < w.archetypes@[a].sig().len()
            implies w.registry@.contains(#[trigger] w.archetypes@[a].sig()[j]) by {
            assert(o.archetypes@[a].sig()[j] == w.archetypes@[a].sig()[j]);
        }
        assert forall|a: int, b: int| 0 <= a < w.archetypes@.len() && 0 <= b < w.archetypes@.len() && a != b
            implies #[trigger] w.archetypes@[a].sig() != #[trigger] w.archetypes@[b].sig() by {
            assert(o.archetypes@[a].sig() != o.archetypes@[b].sig());
        }
        assert forall|a: int| 0 <= a < w.archetypes@.len() implies (#[trigger] w.archetypes@[a]).wf() && w.archetypes@[a].id == a by {
            assert(o.archetypes@[a].id == a);
        }
    }

    /// In a well-formed world, two archetypes with the same set of ids are the same archetype.
    proof fn lemma_signature_set_unique(&self, a: int, b: int)
        requires
            self.wf(),
            0 <= a < self.archetypes@.len(),
            0 <= b < self.archetypes@.len(),
            self.archetypes@[a].sig().to_set() == self.archetypes@[b].sig().to_set(),
        ensures
            a == b,
    {
        assert(self.archetypes@[a].wf());
        assert(self.archetypes@[b].wf());
        lemma_sorted_set_eq(self.archetypes@[a].sig(), self.archetypes@[b].sig());
    }

    /// Facts that carry the world invariant over a step that changes only the cached edges
    /// of the archetypes, given that the new edges lead where they should.
    proof fn lemma_edges_frame(o: Self, w: Self)
        requires
            o.wf(),
            w.allocator == o.allocator,
            w.locations@ == o.locations@,
            w.registry@ == o.registry@,
            w.archetypes@.len() == o.archetypes@.len(),
            forall|a: int| 0 <= a < w.archetypes@.len() ==> {
                &&& (#[trigger] w.archetypes@[a]).type_signature@ == o.archetypes@[a].type_signature@
                &&& w.archetypes@[a].columns@ == o.archetypes@[a].columns@
                &&& w.archetypes@[a].entities@ == o.archetypes@[a].entities@
                &&& w.archetypes@[a].id == o.archetypes@[a].id
            },
            forall|a: int, c: ComponentId| 0 <= a < w.archetypes@.len() && #[trigger] w.archetypes@[a].add_edges@.contains_key(c) ==> {
                let d = w.archetypes@[a].add_edges@[c] as int;
                &&& d < w.archetypes@.len()
                &&& w.archetypes@[d].sig().to_set() == w.archetypes@[a].sig().to_set().insert(c)
            },
            forall|a: int, c: ComponentId| 0 <= a < w.archetypes@.len() && #[trigger] w.archetypes@[a].remove_edges@.contains_key(c) ==> {
                let d = w.archetypes@[a].remove_edges@[c] as int;
                &&& d < w.archetypes@.len()
                &&& w.archetypes@[d].sig().to_set() == w.archetypes@[a].sig().to_set().remove(c)
            },
        ensures
            w.wf_core(Set::empty()),
            w@ == o@,
    {
        assert forall|a: int| 0 <= a < w.archetypes@.len() implies (#[trigger] w.archetypes@[a]).wf() && w.archetypes@[a].id == a by {
            assert(o.archetypes@[a].wf());
        }
        assert forall|a: int, j: int| 0 <= a < w.archetypes@.len() && 0 <= j < w.archetypes@[a].sig().len()
            implies w.registry@.contains(#[trigger] w.archetypes@[a].sig()[j]) by {
            assert(o.archetypes@[a].sig()[j] == w.archetypes@[a].sig()[j]);
        }
        assert forall|a: int, b: int| 0 <= a < w.archetypes@.len() && 0 <= b < w.archetypes@.len() && a != b
            implies #[trigger] w.archetypes@[a].sig() != #[trigger] w.archetypes@[b].sig() by {
            assert(o.archetypes@[a].sig() != o.archetypes@[b].sig());
        }
        assert(w.archetypes@[0].sig() == o.archetypes@[0].sig());
        assert(w.archetypes_wf());
        assert forall|i: u32| #[trigger] w.locations@.contains_key(i) implies {
            let loc = w.locations@[i];
            &&& (i as int) < w.allocator.generations().len()
            &&& w.loc_valid(loc)
            &&& w.entity_at(loc) == Entity { index: i, generation: w.allocator.generations()[i as int] }
            &&& !Set::<u32>::empty().contains(i)
        } by {
            let loc = o.locations@[i];
            assert(o.loc_valid(loc));
            assert(w.archetypes@[loc.archetype_id as int].entities@ == o.archetypes@[loc.archetype_id as int].entities@);
        }
        assert forall|a: int, k: int| 0 <= a < w.archetypes@.len() && 0 <= k < w.archetypes@[a].entities@.len() implies {
            let x = #[trigger] w.archetypes@[a].entities@[k];
            &&& w.locations@.contains_key(x.index)
            &&& w.locations@[x.index].archetype_id == a
            &&& w.locations@[x.index].row == k
        } by {
            assert(w.archetypes@[a].entities@[k] == o.archetypes@[a].entities@[k]);
        }
        assert(w.wf_core(Set::empty()));
        assert forall|e: Entity| #[trigger] w.is_spawned(e) implies w.components(e) == o.components(e) by {
            let loc = o.locations@[e.index];
            assert(o.loc_valid(loc));
            let a = loc.archetype_id as int;
            assert(w.archetypes@[a].row(loc.row as int) =~= o.archetypes@[a].row(loc.row as int));
        }
        assert(w@ =~= o@);
    }

    /// The archetype with `id` added to `src`'s signature, found through the cached edge or
    /// created and cached.
    fn resolve_add_edge(&mut self, src: ArchetypeId, id: ComponentId) -> (dst: ArchetypeId)
        requires
            old(self).wf(),
            (src as int) < old(self).archetypes@.len(),
            old(self).registry@.contains(id),
            old(self).archetypes@.len() <= u32::MAX,
        ensures
            final(self).events == old(self).events,
            final(self).resources == old(self).resources,
            final(self).wf(),
            final(self)@ == old(self)@,
            (dst as int) < final(self).archetypes@.len(),
            final(self).archetypes@[dst as int].sig().to_set() == final(self).archetypes@[src as int].sig().to_set().insert(id),
            (final(self).archetypes@.len() == old(self).archetypes@.len() + 1) == (forall|a: int| 0 <= a < old(self).archetypes@.len()
                ==> #[trigger] old(self).archetypes@[a].sig().to_set() != old(self).archetypes@[src as int].sig().to_set().insert(id)),
            final(self).archetypes@.len() == old(self).archetypes@.len() + 1 ==> dst == old(self).archetypes@.len(),
            forall|a: int| 0 <= a < old(self).archetypes@.len()
                && #[trigger] old(self).archetypes@[a].sig().to_set() == old(self).archetypes@[src as int].sig().to_set().insert(id) ==> dst == a,
            final(self).allocator == old(self).allocator,
            final(self).locations@ == old(self).locations@,
            final(self).registry@ == old(self).registry@,
            old(self).archetypes@.len() <= final(self).archetypes@.len() <= old(self).archetypes@.len() + 1,
            forall|a: int| 0 <= a < old(self).archetypes@.len() ==> {
                &&& (#[trigger] final(self).archetypes@[a]).type_signature@ == old(self).archetypes@[a].type_signature@
                &&& final(self).archetypes@[a].entities@ == old(self).archetypes@[a].entities@
                &&& final(self).archetypes@[a].columns@ == old(self).archetypes@[a].columns@
            },
    {
        let s = src as usize;
        match self.archetypes[s].add_edges.get(&id) {
            Some(d) => {
                proof {
                    assert(self.archetypes@[s as int].add_edges@.contains_key(id));
                    let t = self.archetypes@[s as int].sig().to_set().insert(id);
                    assert(self.archetypes@[*d as int].sig().to_set() == t);
                    assert forall|a: int| 0 <= a < self.archetypes@.len() && #[trigger] self.archetypes@[a].sig().to_set() == t
                        implies *d == a by {
                        self.lemma_signature_set_unique(a, *d as int);
                    }
                }
                return *d;
            },
            None => {},
        }
        let mut new_sig = self.archetypes[s].type_signature.clone();
        proof {
            assert(new_sig@ =~= self.archetypes@[s as int].type_signature@);
        }
        let ghost old_sig = new_sig@;
        match search_signature(&new_sig, id) {
            Ok(_) => {},
            Err(p) => {
                new_sig.insert(p, id);
                proof {
                    lemma_sorted_insert(old_sig, p as int, id);
                }
            },
        }
        proof {
            assert(new_sig@.to_set() == old_sig.to_set().insert(id)) by {
                if old_sig.contains(id) {
                    assert(old_sig.to_set().insert(id) =~= old_sig.to_set());
                }
            }
            assert forall|j: int| 0 <= j < new_sig@.len() implies self.registry@.contains(#[trigger] new_sig@[j]) by {
                if new_sig@[j] != id {
                    assert(new_sig@.to_set().contains(new_sig@[j]));
                    assert(old_sig.contains(new_sig@[j]));
                    let k = choose|k: int| 0 <= k < old_sig.len() && old_sig[k] == new_sig@[j];
                    assert(self.registry@.contains(self.archetypes@[s as int].sig()[k]));
                }
            }
        }
        let ghost mid = *self;
        let dst = self.get_or_create_archetype(new_sig);
        let ghost mid2 = *self;
        self.archetypes[s].add_edges.insert(id, dst);
        proof {
            assert forall|a: int, c: ComponentId| 0 <= a < self.archetypes@.len() && #[trigger] self.archetypes@[a].add_edges@.contains_key(c) implies {
                let d = self.archetypes@[a].add_edges@[c] as int;
                &&& d < self.archetypes@.len()
                &&& self.archetypes@[d].sig().to_set() == self.archetypes@[a].sig().to_set().insert(c)
            } by {
                if !(a == s as int && c == id) {
                    assert(mid2.archetypes@[a].add_edges@.contains_key(c));
                }
            }
            assert forall|a: int, c: ComponentId| 0 <= a < self.archetypes@.len() && #[trigger] self.archetypes@[a].remove_edges@.contains_key(c) implies {
                let d = self.archetypes@[a].remove_edges@[c] as int;
                &&& d < self.archetypes@.len()
                &&& self.archetypes@[d].sig().to_set() == self.archetypes@[a].sig().to_set().remove(c)
            } by {
                assert(mid2.archetypes@[a].remove_edges@.contains_key(c));
            }
            Self::lemma_edges_frame(mid2, *self);
        }
        dst
    }

    /// The archetype with `id` removed from `src`'s signature, found through the cached edge
    /// or created and cached.
    fn resolve_remove_edge(&mut self, src: ArchetypeId, id: ComponentId) -> (dst: ArchetypeId)
        requires
            old(self).wf(),
            (src as int) < old(self).archetypes@.len(),
            old(self).archetypes@.len() <= u32::MAX,
        ensures
            final(self).events == old(self).events,
            final(self).resources == old(self).resources,
            final(self).wf(),
            final(self)@ == old(self)@,
            (dst as int) < final(self).archetypes@.len(),
            final(self).archetypes@[dst as int].sig().to_set() == final(self).archetypes@[src as int].sig().to_set().remove(id),
            (final(self).archetypes@.len() == old(self).archetypes@.len() + 1) == (forall|a: int| 0 <= a < old(self).archetypes@.len()
                ==> #[trigger] old(self).archetypes@[a].sig().to_set() != old(self).archetypes@[src as int].sig().to_set().remove(id)),
            final(self).archetypes@.len() == old(self).archetypes@.len() + 1 ==> dst == old(self).archetypes@.len(),
            forall|a: int| 0 <= a < old(self).archetypes@.len()
                && #[trigger] old(self).archetypes@[a].sig().to_set() == old(self).archetypes@[src as int].sig().to_set().remove(id) ==> dst == a,
            final(self).allocator == old(self).allocator,
            final(self).locations@ == old(self).locations@,
            final(self).registry@ == old(self).registry@,
            old(self).archetypes@.len() <= final(self).archetypes@.len() <= old(self).archetypes@.len() + 1,
            forall|a: int| 0 <= a < old(self).archetypes@.len() ==> {
                &&& (#[trigger] final(self).archetypes@[a]).type_signature@ == old(self).archetypes@[a].type_signature@
                &&& final(self).archetypes@[a].entities@ == old(self).archetypes@[a].entities@
                &&& final(self).archetypes@[a].columns@ == old(self).archetypes@[a].columns@
            },
    {
        let s = src as usize;
        match self.archetypes[s].remove_edges.get(&id) {
            Some(d) => {
                proof {
                    assert(self.archetypes@[s as int].remove_edges@.contains_key(id));
                    let t = self.archetypes@[s as int].sig().to_set().remove(id);
                    assert(self.archetypes@[*d as int].sig().to_set() == t);
                    assert forall|a: int| 0 <= a < self.archetypes@.len() && #[trigger] self.archetypes@[a].sig().to_set() == t
                        implies *d == a by {
                        self.lemma_signature_set_unique(a, *d as int);
                    }
                }
                return *d;
            },
            None => {},
        }
        let mut new_sig = self.archetypes[s].type_signature.clone();
        proof {
            assert(new_sig@ =~= self.archetypes@[s as int].type_signature@);
        }
        let ghost old_sig = new_sig@;
        match search_signature(&new_sig, id) {
            Ok(p) => {
                proof {
                    lemma_sorted_remove(old_sig, p as int);
                }
                new_sig.remove(p);
            },
            Err(_) => {
                proof {
                    assert(old_sig.to_set().remove(id) =~= old_sig.to_set());
                }
            },
        }
        proof {
            assert forall|j: int| 0 <= j < new_sig@.len() implies self.registry@.contains(#[trigger] new_sig@[j]) by {
                assert(new_sig@.to_set().contains(new_sig@[j]));
                assert(old_sig.contains(new_sig@[j]));
                let k = choose|k: int| 0 <= k < old_sig.len() && old_sig[k] == new_sig@[j];
                assert(self.registry@.contains(self.archetypes@[s as int].sig()[k]));
            }
        }
        let dst = self.get_or_create_archetype(new_sig);
        let ghost mid2 = *self;
        self.archetypes[s].remove_edges.insert(id, dst);
        proof {
            assert forall|a: int, c: ComponentId| 0 <= a < self.archetypes@.len() && #[trigger] self.archetypes@[a].add_edges@.contains_key(c) implies {
                let d = self.archetypes@[a].add_edges@[c] as int;
                &&& d < self.archetypes@.len()
                &&& self.archetypes@[d].sig().to_set() == self.archetypes@[a].sig().to_set().insert(c)
            } by {
                assert(mid2.archetypes@[a].add_edges@.contains_key(c));
            }
            assert forall|a: int, c: ComponentId| 0 <= a < self.archetypes@.len() && #[trigger] self.archetypes@[a].remove_edges@.contains_key(c) implies {
                let d = self.archetypes@[a].remove_edges@[c] as int;
                &&& d < self.archetypes@.len()
                &&& self.archetypes@[d].sig().to_set() == self.archetypes@[a].sig().to_set().remove(c)
            } by {
                if !(a == s as int && c == id) {
                    assert(mid2.archetypes@[a].remove_edges@.contains_key(c));
                }
            }
            Self::lemma_edges_frame(mid2, *self);
        }
        dst
    }
}

impl<V> World<V> {
    /// After detaching a spawned entity, `free` puts its slot on the free list.
    proof fn lemma_free_detached(o: Self, w: Self, entity: Entity)
        requires
            o.wf_core(Set::<u32>::empty().insert(entity.index)),
            !o.locations@.contains_key(entity.index),
            o.allocator.generations()[entity.index as int] == entity.generation,
            w.locations@ == o.locations@,
            w.archetypes@ == o.archetypes@,
            w.registry@ == o.registry@,
            w.allocator.wf(),
            w.allocator.generations() == o.allocator.generations().update(entity.index as int, (entity.generation + 1) as u32),
            w.allocator.free_list() == o.allocator.free_list().push(entity.index),
        ensures
            w.wf_core(Set::empty()),
            w@ == o@,
    {
        let i = entity.index;
        let d = Set::<u32>::empty().insert(i);
        assert(d.contains(i));
        assert(!o.allocator.free_list().contains(i));
        assert(w.allocator.free_list().no_duplicates()) by {
            let fl = w.allocator.free_list();
            assert forall|a: int, b: int| 0 <= a < fl.len() && 0 <= b < fl.len() && a != b implies fl[a] != fl[b] by {
                if a == fl.len() - 1 {
                    assert(o.allocator.free_list()[b] == fl[b]);
                } else if b == fl.len() - 1 {
                    assert(o.allocator.free_list()[a] == fl[a]);
                }
            }
        }
        assert(w.archetypes_wf());
        assert forall|j: u32| #[trigger] w.locations@.contains_key(j) implies {
            let loc = w.locations@[j];
            &&& (j as int) < w.allocator.generations().len()
            &&& w.loc_valid(loc)
            &&& w.entity_at(loc) == Entity { index: j, generation: w.allocator.generations()[j as int] }
            &&& !Set::<u32>::empty().contains(j)
        } by {
            assert(j != i);
        }
        assert forall|j: u32| #![trigger w.locations@.contains_key(j)] #![trigger w.allocator.free_list().contains(j)]
            (j as int) < w.allocator.generations().len() && !Set::<u32>::empty().contains(j) implies
                (w.locations@.contains_key(j) <==> !w.allocator.free_list().contains(j)) by {
            if j == i {
                assert(w.allocator.free_list()[w.allocator.free_list().len() - 1] == i);
            } else {
                let fl = o.allocator.free_list();
                if w.allocator.free_list().contains(j) {
                    let k = choose|k: int| 0 <= k < w.allocator.free_list().len() && w.allocator.free_list()[k] == j;
                    assert(fl[k] == j);
                }
                if fl.contains(j) {
                    let k = choose|k: int| 0 <= k < fl.len() && fl[k] == j;
                    assert(w.allocator.free_list()[k] == j);
                }
            }
        }
        assert(w.wf_core(Set::empty()));
        assert forall|e: Entity| #[trigger] w.is_spawned(e) == o.is_spawned(e) by {
            if w.locations@.contains_key(e.index) {
                assert(e.index != i);
            }
        }
        assert(w@ =~= o@);
    }

    /// Despawns a spawned entity: its row is swap-removed and its slot freed with a bumped
    /// generation.
    pub fn despawn(&mut self, entity: Entity) -> (r: Result<(), EcsError>)
        requires
            old(self).wf(),
            old(self)@.contains_key(entity) ==> entity.generation < u32::MAX,
        ensures
            old(self).keeps_archetypes(*final(self)),
            final(self).resources_spec() == old(self).resources_spec(),
            final(self).events_spec() == old(self).events_spec(),
            final(self).wf(),
            r == (if !old(self).spec_is_alive(entity) {
                Err(EcsError::DeadEntity)
            } else if !old(self)@.contains_key(entity) {
                Err(EcsError::MissingLocation)
            } else {
                Ok(())
            }),
            r is Err ==> *final(self) == *old(self),
            r is Ok ==> {
                &&& final(self)@ == old(self)@.remove(entity)
                &&& !final(self).spec_is_alive(entity)
                &&& final(self).next_entity() == (Entity { index: entity.index, generation: (entity.generation + 1) as u32 })
                &&& final(self).spawn_room() == old(self).spawn_room() + 1
                &&& final(self).can_spawn()
                &&& final(self).allocator_spec().generations() == old(self).allocator_spec().generations().update(
                    entity.index as int,
                    (entity.generation + 1) as u32,
                )
                &&& final(self).allocator_spec().free_list() == old(self).allocator_spec().free_list().push(entity.index)
            },
            final(self).registered() == old(self).registered(),
            final(self).archetype_count() == old(self).archetype_count(),
    {
        if !self.allocator.is_alive(entity) {
            return Err(EcsError::DeadEntity);
        }
        let loc = match self.locations.get(&entity.index) {
            Some(l) => *l,
            None => {
                return Err(EcsError::MissingLocation);
            },
        };
        proof {
            assert(old(self).is_spawned(entity));
        }
        let _values = self.detach_row(entity, loc, Ghost(Set::<u32>::empty()));
        let ghost mid = *self;
        proof {
            assert(Set::<u32>::empty().insert(entity.index).contains(entity.index));
        }
        self.allocator.free(entity);
        proof {
            Self::lemma_free_detached(mid, *self, entity);
        }
        Ok(())
    }

    /// Sets component `id` of a spawned entity, moving the entity to the archetype whose
    /// signature also holds `id` when it did not have the component yet.
    pub fn insert_component(&mut self, entity: Entity, id: ComponentId, component: V) -> (r: Result<(), EcsError>)
        requires
            old(self).wf(),
            old(self).archetype_count() <= u32::MAX,
        ensures
            r is Ok && old(self)@[entity].contains_key(id) ==> final(self).archetype_count() == old(self).archetype_count(),
            old(self).keeps_archetypes(*final(self)),
            final(self).spawn_room() == old(self).spawn_room(),
            final(self).resources_spec() == old(self).resources_spec(),
            final(self).events_spec() == old(self).events_spec(),
            final(self).wf(),
            r == (if !old(self).spec_is_alive(entity) {
                Err(EcsError::DeadEntity)
            } else if !old(self).registered().contains(id) {
                Err(EcsError::UnregisteredComponent)
            } else if !old(self)@.contains_key(entity) {
                Err(EcsError::MissingLocation)
            } else {
                Ok(())
            }),
            r is Err ==> *final(self) == *old(self),
            r is Ok ==> final(self)@ == old(self)@.insert(entity, old(self)@[entity].insert(id, component)),
            final(self).allocator_spec() == old(self).allocator_spec(),
            final(self).registered() == old(self).registered(),
            old(self).archetype_count() <= final(self).archetype_count() <= old(self).archetype_count() + 1,
    {
        if !self.allocator.is_alive(entity) {
            return Err(EcsError::DeadEntity);
        }
        if !self.registry.is_registered(id) {
            return Err(EcsError::UnregisteredComponent);
        }
        let loc = match self.locations.get(&entity.index) {
            Some(l) => *l,
            None => {
                return Err(EcsError::MissingLocation);
            },
        };
        proof {
            assert(old(self).is_spawned(entity));
            assert(old(self).loc_valid(loc));
        }
        let src = loc.archetype_id;
        let dst = self.resolve_add_edge(src, id);
        let ghost w1 = *self;
        let ghost src_sig = w1.archetypes@[src as int].sig();
        proof {
            assert(w1.archetypes@[src as int].wf());
            assert(w1.archetypes@[dst as int].wf());
            assert(w1.loc_valid(loc));
        }
        if src == dst {
            let k = match search_signature(&self.archetypes[src as usize].type_signature, id) {
                Ok(k) => k,
                Err(_) => {
                    proof {
                        assert(src_sig.to_set().insert(id).contains(id));
                        assert(src_sig.to_set().contains(id));
                    }
                    return Err(EcsError::MissingComponent);
                },
            };
            self.archetypes[src as usize].set_value(k, loc.row, component);
            proof {
                let a = src as int;
                let r = loc.row as int;
                assert forall|b: int| 0 <= b < self.archetypes@.len() && b != a implies #[trigger] self.archetypes@[b] == w1.archetypes@[b] by {}
                assert(self.archetypes_wf()) by {
                    Self::lemma_rows_frame(w1, *self);
                }
                assert forall|i: u32| #[trigger] self.locations@.contains_key(i) implies {
                    let l = self.locations@[i];
                    &&& (i as int) < self.allocator.generations().len()
                    &&& self.loc_valid(l)
                    &&& self.entity_at(l) == Entity { index: i, generation: self.allocator.generations()[i as int] }
                    &&& !Set::<u32>::empty().contains(i)
                } by {
                    let l = w1.locations@[i];
                    assert(w1.loc_valid(l));
                }
                assert forall|b: int, k2: int| 0 <= b < self.archetypes@.len() && 0 <= k2 < self.archetypes@[b].entities@.len() implies {
                    let x = #[trigger] self.archetypes@[b].entities@[k2];
                    &&& self.locations@.contains_key(x.index)
                    &&& self.locations@[x.index].archetype_id == b
                    &&& self.locations@[x.index].row == k2
                } by {
                    assert(self.archetypes@[b].entities@[k2] == w1.archetypes@[b].entities@[k2]);
                }
                assert(self.wf());
                lemma_values_map_update(src_sig, w1.archetypes@[a].row(r), k as int, component);
                assert forall|e: Entity| #[trigger] self.is_spawned(e) implies self.components(e)
                    == old(self)@.insert(entity, old(self)@[entity].insert(id, component))[e] by {
                    let l = w1.locations@[e.index];
                    assert(w1.loc_valid(l));
                    assert(w1.is_spawned(e));
                    if e != entity {
                        if l.archetype_id as int == a {
                            assert(w1.entity_at(l) == e);
                            assert(l.row as int != r);
                        }
                    }
                }
                assert(self@ =~= old(self)@.insert(entity, old(self)@[entity].insert(id, component)));
            }
            return Ok(());
        }
        let p = match search_signature(&self.archetypes[src as usize].type_signature, id) {
            Err(p) => p,
            Ok(_) => {
                proof {
                    let dst_sig = w1.archetypes@[dst as int].sig();
                    assert(src_sig.to_set().insert(id) =~= src_sig.to_set());
                    lemma_sorted_set_eq(dst_sig, src_sig);
                }
                return Err(EcsError::MissingComponent);
            },
        };
        let ghost dst_sig = w1.archetypes@[dst as int].sig();
        proof {
            lemma_sorted_insert(src_sig, p as int, id);
            lemma_sorted_set_eq(src_sig.insert(p as int, id), dst_sig);
        }
        let mut values = self.detach_row(entity, loc, Ghost(Set::<u32>::empty()));
        let ghost vals = values@;
        values.insert(p, component);
        proof {
            lemma_values_map_insert(src_sig, vals, p as int, id, component);
            assert(Set::<u32>::empty().insert(entity.index).contains(entity.index));
        }
        self.attach_row(dst as usize, entity, values, Ghost(Set::<u32>::empty().insert(entity.index)));
        proof {
            assert(Set::<u32>::empty().insert(entity.index).remove(entity.index) =~= Set::<u32>::empty());
            assert(old(self)@.remove(entity).insert(entity, old(self)@[entity].insert(id, component))
                =~= old(self)@.insert(entity, old(self)@[entity].insert(id, component)));
        }
        Ok(())
    }

    /// Takes component `id` off a spawned entity, moving the entity to the archetype whose
    /// signature lacks `id`; returns the removed value.
    pub fn remove_component(&mut self, entity: Entity, id: ComponentId) -> (r: Result<V, EcsError>)
        requires
            old(self).wf(),
            old(self).archetype_count() <= u32::MAX,
        ensures
            old(self).keeps_archetypes(*final(self)),
            final(self).spawn_room() == old(self).spawn_room(),
            final(self).resources_spec() == old(self).resources_spec(),
            final(self).events_spec() == old(self).events_spec(),
            final(self).wf(),
            match r {
                Ok(v) => {
                    &&& old(self)@.contains_key(entity)
                    &&& old(self)@[entity].contains_key(id)
                    &&& v == old(self)@[entity][id]
                    &&& final(self)@ == old(self)@.insert(entity, old(self)@[entity].remove(id))
                },
                Err(e) => {
                    &&& *final(self) == *old(self)
                    &&& e == (if !old(self).spec_is_alive(entity) {
                        EcsError::DeadEntity
                    } else if !old(self)@.contains_key(entity) {
                        EcsError::MissingLocation
                    } else {
                        EcsError::MissingComponent
                    })
                },
            },
            r is Ok <==> (old(self)@.contains_key(entity) && old(self)@[entity].contains_key(id)),
            final(self).allocator_spec() == old(self).allocator_spec(),
            final(self).registered() == old(self).registered(),
            old(self).archetype_count() <= final(self).archetype_count() <= old(self).archetype_count() + 1,
    {
        if !self.allocator.is_alive(entity) {
            return Err(EcsError::DeadEntity);
        }
        let loc = match self.locations.get(&entity.index) {
            Some(l) => *l,
            None => {
                return Err(EcsError::MissingLocation);
            },
        };
        proof {
            assert(old(self).is_spawned(entity));
            assert(old(self).loc_valid(loc));
            assert(old(self).archetypes@[loc.archetype_id as int].wf());
        }
        let src = loc.archetype_id;
        let ghost src_sig = old(self).archetypes@[src as int].sig();
        let p = match search_signature(&self.archetypes[src as usize].type_signature, id) {
            Ok(p) => p,
            Err(_) => {
                proof {
                    assert(!old(self)@[entity].contains_key(id));
                }
                return Err(EcsError::MissingComponent);
            },
        };
        let dst = self.resolve_remove_edge(src, id);
        let ghost w1 = *self;
        let ghost dst_sig = w1.archetypes@[dst as int].sig();
        proof {
            lemma_sorted_remove(src_sig, p as int);
            assert(w1.archetypes@[dst as int].wf());
            lemma_sorted_set_eq(src_sig.remove(p as int), dst_sig);
            assert(src_sig.remove(p as int).len() < src_sig.len());
            assert(w1.loc_valid(loc));
        }
        let mut values = self.detach_row(entity, loc, Ghost(Set::<u32>::empty()));
        let ghost vals = values@;
        proof {
            lemma_values_map_remove(src_sig, vals, p as int);
        }
        let removed = values.remove(p);
        proof {
            assert(Set::<u32>::empty().insert(entity.index).contains(entity.index));
        }
        self.attach_row(dst as usize, entity, values, Ghost(Set::<u32>::empty().insert(entity.index)));
        proof {
            assert(Set::<u32>::empty().insert(entity.index).remove(entity.index) =~= Set::<u32>::empty());
            assert(old(self)@.remove(entity).insert(entity, old(self)@[entity].remove(id))
                =~= old(self)@.insert(entity, old(self)@[entity].remove(id)));
        }
        Ok(removed)
    }

    /// Component `id` of a spawned entity, if it has one.
    pub fn get(&self, entity: Entity, id: ComponentId) -> (r: Option<&V>)
        requires
            self.wf(),
        ensures
            r == (if self@.contains_key(entity) && self@[entity].contains_key(id) {
                Some(&self@[entity][id])
            } else {
                None
            }),
    {
        if !self.allocator.is_alive(entity) {
            return None;
        }
        let loc = match self.locations.get(&entity.index) {
            Some(l) => *l,
            None => {
                return None;
            },
        };
        proof {
            assert(self.is_spawned(entity));
            assert(self.loc_valid(loc));
        }
        let arch = &self.archetypes[loc.archetype_id as usize];
        proof {
            assert(arch.wf());
        }
        match search_signature(&arch.type_signature, id) {
            Ok(k) => {
                proof {
                    crate::archetype::lemma_sorted_index_of(arch.sig(), k as int);
                    assert(arch.sig().contains(id));
                    assert(arch.columns@[k as int]@.len() == arch.entities@.len());
                }
                arch.columns[k].get_any(loc.row)
            },
            Err(_) => None,
        }
    }
}

impl<V> World<V> {
    /// Overwriting one stored value keeps the invariant and changes exactly that component.
    proof fn lemma_value_frame(o: Self, w: Self, entity: Entity, id: ComponentId, v: V)
        requires
            o.wf(),
            o.is_spawned(entity),
            o.components(entity).contains_key(id),
            w.allocator == o.allocator,
            w.locations@ == o.locations@,
            w.registry@ == o.registry@,
            w.archetypes@.len() == o.archetypes@.len(),
            ({
                let loc = o.locations@[entity.index];
                let a = loc.archetype_id as int;
                let r = loc.row as int;
                let k = o.archetypes@[a].sig().index_of(id);
                &&& forall|b: int| 0 <= b < o.archetypes@.len() && b != a ==> #[trigger] w.archetypes@[b] == o.archetypes@[b]
                &&& w.archetypes@[a].wf()
                &&& w.archetypes@[a].entities@ == o.archetypes@[a].entities@
                &&& w.archetypes@[a].row(r) == o.archetypes@[a].row(r).update(k, v)
                &&& forall|k2: int| 0 <= k2 < o.archetypes@[a].entities@.len() && k2 != r ==> #[trigger] w.archetypes@[a].row(k2) == o.archetypes@[a].row(k2)
                &&& w.archetypes@[a].id == o.archetypes@[a].id
                &&& w.archetypes@[a].type_signature@ == o.archetypes@[a].type_signature@
                &&& w.archetypes@[a].add_edges@ == o.archetypes@[a].add_edges@
                &&& w.archetypes@[a].remove_edges@ == o.archetypes@[a].remove_edges@
            }),
        ensures
            w.wf_core(Set::empty()),
            w@ == o@.insert(entity, o@[entity].insert(id, v)),
    {
        let loc = o.locations@[entity.index];
        let a = loc.archetype_id as int;
        let r = loc.row as int;
        assert(o.loc_valid(loc));
        let sig = o.archetypes@[a].sig();
        assert(o.archetypes@[a].wf());
        let k = sig.index_of(id);
        assert(sig.contains(id));
        assert(0 <= k < sig.len() && sig[k] == id);
        assert(w.archetypes_wf()) by {
            assert forall|b: int| 0 <= b < w.archetypes@.len() implies (#[trigger] w.archetypes@[b]).wf() by {
                assert(o.archetypes@[b].wf());
            }
            Self::lemma_rows_frame(o, w);
        }
        assert forall|i: u32| #[trigger] w.locations@.contains_key(i) implies {
            let l = w.locations@[i];
            &&& (i as int) < w.allocator.generations().len()
            &&& w.loc_valid(l)
            &&& w.entity_at(l) == Entity { index: i, generation: w.allocator.generations()[i as int] }
            &&& !Set::<u32>::empty().contains(i)
        } by {
            let l = o.locations@[i];
            assert(o.loc_valid(l));
        }
        assert forall|b: int, k2: int| 0 <= b < w.archetypes@.len() && 0 <= k2 < w.archetypes@[b].entities@.len() implies {
            let x = #[trigger] w.archetypes@[b].entities@[k2];
            &&& w.locations@.contains_key(x.index)
            &&& w.locations@[x.index].archetype_id == b
            &&& w.locations@[x.index].row == k2
        } by {
            assert(w.archetypes@[b].entities@[k2] == o.archetypes@[b].entities@[k2]);
        }
        assert(w.wf_core(Set::empty()));
        lemma_values_map_update(sig, o.archetypes@[a].row(r), k, v);
        assert forall|e: Entity| #[trigger] w.is_spawned(e) implies w.components(e) == o@.insert(entity, o@[entity].insert(id, v))[e] by {
            let l = o.locations@[e.index];
            assert(o.loc_valid(l));
            assert(o.is_spawned(e));
            if e != entity {
                if l.archetype_id as int == a {
                    assert(o.entity_at(l) == e);
                    assert(l.row as int != r);
                }
            }
        }
        assert(w@ =~= o@.insert(entity, o@[entity].insert(id, v)));
    }

    /// Mutable access to component `id` of a spawned entity, if it has one.
    pub fn get_mut(&mut self, entity: Entity, id: ComponentId) -> (r: Option<&mut V>)
        requires
            old(self).wf(),
        ensures
            (r is Some) == (old(self)@.contains_key(entity) && old(self)@[entity].contains_key(id)),
            r is Some ==> {
                &&& *r->0 == old(self)@[entity][id]
                &&& final(self).resources_spec() == old(self).resources_spec()
                &&& final(self).events_spec() == old(self).events_spec()
                &&& final(self).allocator_spec() == old(self).allocator_spec()
                &&& final(self).registered() == old(self).registered()
                &&& final(self).archetype_count() == old(self).archetype_count()
                &&& old(self).keeps_archetypes(*final(self))
                &&& final(self).wf()
                &&& final(self)@ == old(self)@.insert(entity, old(self)@[entity].insert(id, *final(r->0)))
            },
            r is None ==> *final(self) == *old(self),
    {
        let ghost fin = *final(self);
        if !self.allocator.is_alive(entity) {
            return None;
        }
        let loc = match self.locations.get(&entity.index) {
            Some(l) => *l,
            None => {
                return None;
            },
        };
        proof {
            assert(self.is_spawned(entity));
            assert(self.loc_valid(loc));
            assert(self.archetypes@[loc.archetype_id as int].wf());
        }
        let a = loc.archetype_id as usize;
        match search_signature(&self.archetypes[a].type_signature, id) {
            Ok(k) => {
                proof {
                    crate::archetype::lemma_sorted_index_of(self.archetypes@[a as int].sig(), k as int);
                    assert(self.archetypes@[a as int].sig().contains(id));
                }
                let v = self.archetypes[a].value_mut(k, loc.row);
                proof {
                    Self::lemma_value_frame(*old(self), fin, entity, id, *final(v));
                }
                Some(v)
            },
            Err(_) => None,
        }
    }
}

impl<V> World<V> {
    /// The archetypes, in creation order (archetype ids are their positions).
    pub(crate) fn archetypes(&self) -> (r: &Vec<Archetype<V>>)
        ensures
            r@ == self.archetypes_spec(),
    {
        &self.archetypes
    }

    /// In a well-formed world every archetype is well formed, sits at the position of its id,
    /// and no two archetypes share a signature.
    pub proof fn lemma_archetypes_wf(&self)
        requires
            self.wf(),
        ensures
            1 <= self.archetypes_spec().len() <= u32::MAX + 1,
            self.archetypes_spec().len() <= usize::MAX,
            self.archetype_count() == self.archetypes_spec().len(),
            forall|a: int| 0 <= a < self.archetypes_spec().len() ==> {
                &&& (#[trigger] self.archetypes_spec()[a]).wf()
                &&& self.archetypes_spec()[a].id == a
            },
            forall|a: int, b: int| 0 <= a < self.archetypes_spec().len() && 0 <= b < self.archetypes_spec().len() && a != b
                ==> #[trigger] self.archetypes_spec()[a].sig() != #[trigger] self.archetypes_spec()[b].sig(),
    {
        broadcast use vstd::std_specs::vec::axiom_spec_len;
        assert(self.archetypes.len() == self.archetypes@.len());
    }

    /// Every row of every archetype holds a spawned entity, whose components are that row.
    pub proof fn lemma_row_is_spawned(&self, a: int, k: int)
        requires
            self.wf(),
            0 <= a < self.archetypes_spec().len(),
            0 <= k < self.archetypes_spec()[a].entities@.len(),
        ensures
            self@.contains_key(self.archetypes_spec()[a].entities@[k]),
            self@[self.archetypes_spec()[a].entities@[k]] == self.archetypes_spec()[a].row_values(k),
    {
        let x = self.archetypes@[a].entities@[k];
        assert(self.locations@.contains_key(x.index));
        let loc = self.locations@[x.index];
        assert(self.entity_at(loc) == Entity { index: x.index, generation: self.allocator.generations()[x.index as int] });
        assert(self.is_spawned(x));
    }

    /// Every spawned entity sits in exactly one row of one archetype.
    pub proof fn lemma_spawned_has_row(&self, e: Entity) -> (pos: (int, int))
        requires
            self.wf(),
            self@.contains_key(e),
        ensures
            0 <= pos.0 < self.archetypes_spec().len(),
            0 <= pos.1 < self.archetypes_spec()[pos.0].entities@.len(),
            self.archetypes_spec()[pos.0].entities@[pos.1] == e,
            forall|a: int, k: int| 0 <= a < self.archetypes_spec().len() && 0 <= k < self.archetypes_spec()[a].entities@.len()
                && #[trigger] self.archetypes_spec()[a].entities@[k] == e ==> a == pos.0 && k == pos.1,
    {
        assert(self.is_spawned(e));
        let loc = self.locations@[e.index];
        assert(self.loc_valid(loc));
        (loc.archetype_id as int, loc.row as int)
    }
}

impl<V> World<V> {
    /// The value of component `id` stored at row `row` of archetype `arch_idx`, if that
    /// archetype has the component and the row exists.
    pub(crate) fn get_component_at(&self, _entity: Entity, id: ComponentId, arch_idx: usize, row: usize) -> (r: Option<&V>)
        requires
            self.wf(),
        ensures
            r == (if (arch_idx as int) < self.archetypes_spec().len() && self.archetypes_spec()[arch_idx as int].sig().contains(id)
                && (row as int) < self.archetypes_spec()[arch_idx as int].entities@.len() {
                Some(&self.archetypes_spec()[arch_idx as int].row_values(row as int)[id])
            } else {
                None
            }),
    {
        if arch_idx >= self.archetypes.len() {
            return None;
        }
        let arch = &self.archetypes[arch_idx];
        proof {
            assert(arch.wf());
        }
        match search_signature(&arch.type_signature, id) {
            Ok(k) => {
                proof {
                    crate::archetype::lemma_sorted_index_of(arch.sig(), k as int);
                    assert(arch.sig().contains(id));
                    assert(arch.columns@[k as int]@.len() == arch.entities@.len());
                }
                arch.columns[k].get_any(row)
            },
            Err(_) => None,
        }
    }
}

impl<V> World<V> {
    pub fn query_builder(&self) -> (b: QueryBuilder)
        ensures
            b.access_spec() == AccessModel::empty(),
            b.filter_spec() == crate::query::access::FilterDesc::All,
    {
        QueryBuilder::new()
    }

    /// A query whose access is `data`'s and whose filter is `filter`, matched against the
    /// current archetypes.
    pub fn query<D: QueryData<V>, F: QueryFilter>(&self, data: D, filter: F) -> (q: Query<'_, V, D, F>)
        where V: 'static,
        requires
            self.wf(),
        ensures
            q.wf(),
            q.world_spec() == *self,
            q.data_spec() == data,
            q.filter_spec() == filter,
            q.state_spec().required@ == q.state_spec().access@,
            q.state_spec().access@ == AccessModel::empty().merge(data.access_model()),
            forall|sig: Seq<ComponentId>| #[trigger] filter_matches(sig, q.state_spec().filter) == filter.accepts(sig),
            q.state_spec().matched() == matching_indices(
                self.archetypes_spec(),
                q.state_spec().access@,
                q.state_spec().filter,
                self.archetypes_spec().len() as int,
            ),
    {
        let mut builder = QueryBuilder::new();
        let access = data.access();
        let mut i: usize = 0;
        while i < access.reads.len()
            invariant
                0 <= i <= access.reads@.len(),
                builder.access_spec() == AccessModel::empty().read_all(access.reads@.take(i as int)),
                builder.required_spec() == builder.access_spec(),
                builder.filter_spec() == crate::query::access::FilterDesc::All,
            decreases access.reads@.len() - i,
        {
            proof {
                assert(access.reads@.take(i + 1 as int).drop_last() =~= access.reads@.take(i as int));
            }
            builder.read_id(access.reads[i]);
            i = i + 1;
        }
        assert(access.reads@.take(access.reads@.len() as int) =~= access.reads@);
        let ghost mid = builder.access_spec();
        let mut j: usize = 0;
        while j < access.writes.len()
            invariant
                0 <= j <= access.writes@.len(),
                builder.access_spec() == mid.write_all(access.writes@.take(j as int)),
                builder.required_spec() == builder.access_spec(),
                builder.filter_spec() == crate::query::access::FilterDesc::All,
            decreases access.writes@.len() - j,
        {
            proof {
                assert(access.writes@.take(j + 1 as int).drop_last() =~= access.writes@.take(j as int));
            }
            builder.write_id(access.writes[j]);
            j = j + 1;
        }
        assert(access.writes@.take(access.writes@.len() as int) =~= access.writes@);
        builder.filter(filter.to_desc());
        let state = builder.build(self);
        proof {
            lemma_matching_indices(self.archetypes_spec(), state.access@, state.filter, self.archetypes_spec().len() as int);
            self.lemma_archetypes_wf();
            crate::query::builder::lemma_matching_indices_same_filter(
                self.archetypes_spec(), state.access@, state.filter, builder.filter_spec(), self.archetypes_spec().len() as int);
            let archs = self.archetypes_spec();
            let matched = state.matched();
            assert forall|k: int| 0 <= k < matched.len() && #[trigger] filter.accepts(archs[matched[k] as int].sig())
                implies covers(data.access_model(), archs[matched[k] as int].sig()) by {
                let sig = archs[matched[k] as int].sig();
                crate::query::data::lemma_access_matches_covers(sig, state.access@);
                crate::query::data::lemma_covers_parts(AccessModel::empty(), data.access_model(), sig);
            }
        }
        Query::new(self, state, data, filter)
    }

    /// Iterates the entities of the archetypes that `state` lists.
    pub fn query_dynamic<'a>(&'a self, state: &'a QueryState) -> (it: DynamicQueryIter<'a, V>)
        ensures
            it.world_spec() == *self,
            it.state_spec() == *state,
            it.cursor() == (0int, 0int),
    {
        DynamicQueryIter::new(self, state)
    }

    /// Iterates the entities of the archetypes that `state` lists, lending mutable access.
    pub fn query_dynamic_mut(&mut self, state: QueryState) -> (it: DynamicQueryIterMut<'_, V>)
        ensures
            it.world_spec() == *old(self),
            *final(it.world) == *final(self),
            it.state_spec() == state,
            it.cursor() == (0int, 0int),
    {
        DynamicQueryIterMut::new(self, state)
    }

    /// Entities with component `id`, with write access to it.
    pub fn query_mut(&mut self, id: ComponentId) -> (it: DynamicQueryIterMut<'_, V>)
        requires
            old(self).wf(),
        ensures
            it.wf(),
            it.world_spec() == *old(self),
            *final(it.world) == *final(self),
            it.state_spec().required@ == it.state_spec().access@,
            it.state_spec().access@ == AccessModel::empty().write(id),
            forall|sig: Seq<ComponentId>| #[trigger] filter_matches(sig, it.state_spec().filter),
            it.state_spec().matched() == matching_indices(
                old(self).archetypes_spec(),
                it.state_spec().access@,
                it.state_spec().filter,
                old(self).archetypes_spec().len() as int,
            ),
            it.cursor() == (0int, 0int),
    {
        let mut builder = QueryBuilder::new();
        builder.write(id);
        let state = builder.build(self);
        proof {
            lemma_matching_indices(self.archetypes_spec(), state.access@, state.filter, self.archetypes_spec().len() as int);
            self.lemma_archetypes_wf();
            crate::query::builder::lemma_matching_indices_same_filter(
                self.archetypes_spec(), state.access@, state.filter, builder.filter_spec(), self.archetypes_spec().len() as int);
        }
        DynamicQueryIterMut::new(self, state)
    }

    /// Entities with component `id`, with read access to it.
    pub fn query_single(&self, id: ComponentId) -> (q: Query<'_, V, (EntityData, ReadData), Allow>)
        where V: 'static,
        requires
            self.wf(),
        ensures
            q.wf(),
            q.world_spec() == *self,
            q.data_spec() == (EntityData, ReadData(id)),
            q.state_spec().required@ == q.state_spec().access@,
            q.state_spec().access@ == AccessModel::empty().read(id),
            q.state_spec().matched() == matching_indices(
                self.archetypes_spec(),
                q.state_spec().access@,
                q.state_spec().filter,
                self.archetypes_spec().len() as int,
            ),
            forall|sig: Seq<ComponentId>| #[trigger] filter_matches(sig, q.state_spec().filter),
    {
        let q = self.query((EntityData, ReadData(id)), Allow);
        proof {
            let m = AccessModel::empty().merge(<EntityData as QueryData<V>>::access_model(&EntityData));
            assert(m.read_all(Seq::<ComponentId>::empty()) == m);
            assert(m.write_all(Seq::<ComponentId>::empty()) == m);
            assert(m == AccessModel::empty());
            let r = AccessModel::empty().read(id);
            assert(r.reads =~= seq![id]);
            assert(r.writes =~= Seq::<ComponentId>::empty());
            assert(seq![id].drop_last() =~= Seq::<ComponentId>::empty());
            assert(AccessModel::empty().read_all(seq![id]) == r);
            assert(AccessModel::empty().merge(r) == r);
            assert(AccessModel::empty().merge(<EntityData as QueryData<V>>::access_model(&EntityData)) == AccessModel::empty());
            assert(AccessModel::empty().merge(AccessModel::empty().merge(r)) == r);
        }
        q
    }

    /// Entities with components `a` and `b`, with read access to both.
    pub fn query_pair(&self, a: ComponentId, b: ComponentId) -> (q: Query<'_, V, (EntityData, ReadData, ReadData), Allow>)
        where V: 'static,
        requires
            self.wf(),
        ensures
            q.wf(),
            q.world_spec() == *self,
            q.data_spec() == (EntityData, ReadData(a), ReadData(b)),
            q.state_spec().required@ == q.state_spec().access@,
            q.state_spec().access@ == AccessModel::empty().read(a).read(b),
            q.state_spec().matched() == matching_indices(
                self.archetypes_spec(),
                q.state_spec().access@,
                q.state_spec().filter,
                self.archetypes_spec().len() as int,
            ),
            forall|sig: Seq<ComponentId>| #[trigger] filter_matches(sig, q.state_spec().filter),
    {
        let q = self.query((EntityData, ReadData(a), ReadData(b)), Allow);
        proof {
            let e = AccessModel::empty();
            assert(e.read_all(Seq::<ComponentId>::empty()) == e);
            assert(e.write_all(Seq::<ComponentId>::empty()) == e);
            assert(e.merge(<EntityData as QueryData<V>>::access_model(&EntityData)) == e);
            let ra = e.read(a);
            assert(ra.reads =~= seq![a]);
            assert(seq![a].drop_last() =~= Seq::<ComponentId>::empty());
            assert(e.read_all(seq![a]) == ra);
            assert(e.merge(ra) == ra);
            let rb = e.read(b);
            assert(rb.reads =~= seq![b]);
            assert(seq![b].drop_last() =~= Seq::<ComponentId>::empty());
            assert(ra.read_all(Seq::<ComponentId>::empty()) == ra);
            assert(ra.read_all(seq![b]) == ra.read(b));
            assert(ra.read(b).write_all(Seq::<ComponentId>::empty()) == ra.read(b));
            assert(ra.merge(rb) == ra.read(b));
            let m = ra.read(b);
            assert(m.wf());
            crate::query::access::lemma_merge_into_empty(m);
        }
        q
    }
}

impl<V> World<V> {
    // ----- resources -----

    /// Stores `resource` as the resource of kind `id`, replacing any previous one.
    pub fn insert_resource(&mut self, id: ResourceId, resource: V)
        requires
            old(self).wf(),
        ensures
            final(self).wf(),
            final(self).resources_spec() == old(self).resources_spec().insert(id, resource),
            final(self)@ == old(self)@,
            final(self).allocator_spec() == old(self).allocator_spec(),
            final(self).archetypes_spec() == old(self).archetypes_spec(),
            final(self).registered() == old(self).registered(),
            final(self).events_spec() == old(self).events_spec(),
    {
        self.resources.insert(id, resource);
        assert(self@ =~= old(self)@);
    }

    /// The resource of kind `id`, stored first as `V::default()` when there is none.
    pub fn init_resource(&mut self, id: ResourceId) -> (r: &mut V)
        where V: Default,
        requires
            old(self).wf(),
        ensures
            old(self).resources_spec().contains_key(id) ==> *r == old(self).resources_spec()[id],
            !old(self).resources_spec().contains_key(id) ==> call_ensures(V::default, (), *r),
            final(self).resources_spec() == old(self).resources_spec().insert(id, *final(r)),
            final(self).wf(),
            final(self)@ == old(self)@,
            final(self).allocator_spec() == old(self).allocator_spec(),
            final(self).archetypes_spec() == old(self).archetypes_spec(),
            final(self).registered() == old(self).registered(),
            final(self).events_spec() == old(self).events_spec(),
    {
        let ghost fin = *final(self);
        let r = self.resources.init(id);
        proof {
            Self::lemma_resources_frame(*old(self), fin);
        }
        r
    }

    /// The resource of kind `id`, stored first as the result of `f` when there is none.
    pub fn init_resource_with<F: FnOnce() -> V>(&mut self, id: ResourceId, f: F) -> (r: &mut V)
        requires
            old(self).wf(),
            f.requires(()),
        ensures
            old(self).resources_spec().contains_key(id) ==> *r == old(self).resources_spec()[id],
            !old(self).resources_spec().contains_key(id) ==> f.ensures((), *r),
            final(self).resources_spec() == old(self).resources_spec().insert(id, *final(r)),
            final(self).wf(),
            final(self)@ == old(self)@,
            final(self).allocator_spec() == old(self).allocator_spec(),
            final(self).archetypes_spec() == old(self).archetypes_spec(),
            final(self).registered() == old(self).registered(),
            final(self).events_spec() == old(self).events_spec(),
    {
        let ghost fin = *final(self);
        let r = self.resources.init_with(id, f);
        proof {
            Self::lemma_resources_frame(*old(self), fin);
        }
        r
    }

    /// A step that only touches the resources keeps the world invariant and components.
    proof fn lemma_resources_frame(o: Self, w: Self)
        requires
            o.wf(),
            w.allocator == o.allocator,
            w.archetypes == o.archetypes,
            w.locations == o.locations,
            w.registry == o.registry,
            w.events == o.events,
        ensures
            w.wf(),
            w@ == o@,
    {
        assert(w@ =~= o@);
    }

    /// Takes the resource of kind `id` out of the world.
    pub fn remove_resource(&mut self, id: ResourceId) -> (r: Option<V>)
        requires
            old(self).wf(),
        ensures
            r == old(self).resources_spec().get(id),
            final(self).resources_spec() == old(self).resources_spec().remove(id),
            final(self).wf(),
            final(self)@ == old(self)@,
            final(self).allocator_spec() == old(self).allocator_spec(),
            final(self).archetypes_spec() == old(self).archetypes_spec(),
            final(self).registered() == old(self).registered(),
            final(self).events_spec() == old(self).events_spec(),
    {
        let r = self.resources.remove(id);
        assert(self@ =~= old(self)@);
        r
    }

    pub fn contains_resource(&self, id: ResourceId) -> (b: bool)
        ensures
            b == self.resources_spec().contains_key(id),
    {
        self.resources.contains(id)
    }

    pub fn resource(&self, id: ResourceId) -> (r: Option<&V>)
        ensures
            r == (if self.resources_spec().contains_key(id) { Some(&self.resources_spec()[id]) } else { None }),
    {
        self.resources.get(id)
    }

    pub fn resource_mut(&mut self, id: ResourceId) -> (r: Option<&mut V>)
        requires
            old(self).wf(),
        ensures
            (r is Some) == old(self).resources_spec().contains_key(id),
            r is Some ==> *r->0 == old(self).resources_spec()[id]
                && final(self).resources_spec() == old(self).resources_spec().insert(id, *final(r->0)),
            r is None ==> final(self).resources_spec() == old(self).resources_spec(),
            final(self).wf(),
            final(self)@ == old(self)@,
            final(self).allocator_spec() == old(self).allocator_spec(),
            final(self).archetypes_spec() == old(self).archetypes_spec(),
            final(self).registered() == old(self).registered(),
            final(self).events_spec() == old(self).events_spec(),
    {
        let ghost fin = *final(self);
        let r = self.resources.get_mut(id);
        proof {
            Self::lemma_resources_frame(*old(self), fin);
        }
        r
    }

    /// Same as [`World::resource`].
    pub fn get_resource(&self, id: ResourceId) -> (r: Option<&V>)
        ensures
            r == (if self.resources_spec().contains_key(id) { Some(&self.resources_spec()[id]) } else { None }),
    {
        self.resource(id)
    }

    /// Same as [`World::resource_mut`].
    pub fn get_resource_mut(&mut self, id: ResourceId) -> (r: Option<&mut V>)
        requires
            old(self).wf(),
        ensures
            (r is Some) == old(self).resources_spec().contains_key(id),
            r is Some ==> *r->0 == old(self).resources_spec()[id]
                && final(self).resources_spec() == old(self).resources_spec().insert(id, *final(r->0)),
            r is None ==> final(self).resources_spec() == old(self).resources_spec(),
            final(self).wf(),
            final(self)@ == old(self)@,
            final(self).allocator_spec() == old(self).allocator_spec(),
            final(self).archetypes_spec() == old(self).archetypes_spec(),
            final(self).registered() == old(self).registered(),
            final(self).events_spec() == old(self).events_spec(),
    {
        self.resource_mut(id)
    }

    // ----- events -----

    /// Gives the event kind a queue unless it has one.
    pub fn add_event(&mut self, id: EventId)
        requires
            old(self).wf(),
        ensures
            final(self).wf(),
            final(self).events_spec() == (if old(self).events_spec().contains_key(id) {
                old(self).events_spec()
            } else {
                old(self).events_spec().insert(id, Seq::empty())
            }),
            final(self)@ == old(self)@,
            final(self).allocator_spec() == old(self).allocator_spec(),
            final(self).archetypes_spec() == old(self).archetypes_spec(),
            final(self).registered() == old(self).registered(),
            final(self).resources_spec() == old(self).resources_spec(),
    {
        self.events.register(id);
        assert(self@ =~= old(self)@);
    }

    /// Sends an event, giving its kind a queue first if needed. Returns whether it was queued.
    pub fn send_event(&mut self, id: EventId, event: V) -> (sent: bool)
        requires
            old(self).wf(),
        ensures
            final(self).wf(),
            sent,
            final(self).events_spec() == (if old(self).events_spec().contains_key(id) {
                old(self).events_spec().insert(id, old(self).events_spec()[id].push(event))
            } else {
                old(self).events_spec().insert(id, seq![event])
            }),
            final(self)@ == old(self)@,
            final(self).allocator_spec() == old(self).allocator_spec(),
            final(self).archetypes_spec() == old(self).archetypes_spec(),
            final(self).registered() == old(self).registered(),
            final(self).resources_spec() == old(self).resources_spec(),
    {
        if !self.events.is_registered(id) {
            self.add_event(id);
        }
        let sent = self.events.send(id, event);
        proof {
            assert(self@ =~= old(self)@);
            if !old(self).events_spec().contains_key(id) {
                assert(Seq::<V>::empty().push(event) =~= seq![event]);
            }
        }
        sent
    }

    /// The queue of event kind `id`, if the kind has one.
    pub fn events(&self, id: EventId) -> (r: Option<&Events<V>>)
        requires
            self.wf(),
        ensures
            r is Some == self.events_spec().contains_key(id),
            r matches Some(ev) ==> ev.wf() && ev@ == self.events_spec()[id],
    {
        self.events.events(id)
    }

    /// Mutable access to the queue of event kind `id`, if the kind has one.
    pub fn events_mut(&mut self, id: EventId) -> (r: Option<&mut Events<V>>)
        requires
            old(self).wf(),
        ensures
            (r is Some) == old(self).events_spec().contains_key(id),
            r is Some ==> {
                &&& r->0.wf()
                &&& r->0@ == old(self).events_spec()[id]
                &&& (final(r->0).wf() ==> final(self).wf())
                &&& final(self).events_spec() == old(self).events_spec().insert(id, final(r->0)@)
            },
            r is None ==> final(self).wf() && final(self).events_spec() == old(self).events_spec(),
            final(self)@ == old(self)@,
            final(self).allocator_spec() == old(self).allocator_spec(),
            final(self).archetypes_spec() == old(self).archetypes_spec(),
            final(self).registered() == old(self).registered(),
            final(self).resources_spec() == old(self).resources_spec(),
    {
        let ghost fin = *final(self);
        let r = self.events.events_mut(id);
        proof {
            Self::lemma_events_frame(*old(self), fin);
        }
        r
    }

    /// A step that only touches the event queues keeps the components and, when the queues
    /// stay well formed, the world invariant.
    proof fn lemma_events_frame(o: Self, w: Self)
        requires
            o.wf(),
            w.allocator == o.allocator,
            w.archetypes == o.archetypes,
            w.locations == o.locations,
            w.registry == o.registry,
            w.resources == o.resources,
        ensures
            w.events.wf() ==> w.wf(),
            w@ == o@,
    {
        assert(w@ =~= o@);
    }

    /// A reader of event kind `id` starting at the beginning of its current buffer.
    pub fn event_reader(&self, id: EventId) -> (r: Option<EventReader<'_, V>>)
        requires
            self.wf(),
        ensures
            r is Some == self.events_spec().contains_key(id),
            r matches Some(reader) ==> {
                &&& reader.events_spec().wf()
                &&& reader.events_spec()@ == self.events_spec()[id]
                &&& reader.cursor_spec().position() == 0
            },
    {
        match self.events.events(id) {
            Some(ev) => Some(EventReader::new(ev)),
            None => None,
        }
    }

    /// A reader of event kind `id` starting at `cursor`.
    pub fn event_reader_with_cursor(&self, id: EventId, cursor: EventCursor) -> (r: Option<EventReader<'_, V>>)
        requires
            self.wf(),
        ensures
            r is Some == self.events_spec().contains_key(id),
            r matches Some(reader) ==> {
                &&& reader.events_spec().wf()
                &&& reader.events_spec()@ == self.events_spec()[id]
                &&& reader.cursor_spec() == cursor
            },
    {
        match self.events.events(id) {
            Some(ev) => Some(EventReader::with_cursor(ev, cursor)),
            None => None,
        }
    }

    /// A writer to event kind `id`, giving the kind a queue first if needed.
    pub fn event_writer(&mut self, id: EventId) -> (r: Option<EventWriter<'_, V>>)
        requires
            old(self).wf(),
        ensures
            r is Some,
            r matches Some(writer) ==> writer.target().wf() && writer.target()@ == (if old(self).events_spec().contains_key(id) {
                old(self).events_spec()[id]
            } else {
                Seq::empty()
            }),
            r matches Some(writer) ==> {
                &&& (final(writer.events).wf() ==> final(self).wf())
                &&& final(self).events_spec() == old(self).events_spec().insert(id, final(writer.events)@)
            },
            final(self)@ == old(self)@,
            final(self).allocator_spec() == old(self).allocator_spec(),
            final(self).archetypes_spec() == old(self).archetypes_spec(),
            final(self).registered() == old(self).registered(),
            final(self).resources_spec() == old(self).resources_spec(),
    {
        if !self.events.is_registered(id) {
            self.add_event(id);
        }
        match self.events.events_mut(id) {
            Some(ev) => Some(EventWriter::new(ev)),
            None => None,
        }
    }

    /// Advances every event queue; call once per frame after systems run.
    pub fn update(&mut self)
        requires
            old(self).wf(),
        ensures
            final(self).wf(),
            final(self).events_spec().dom() == old(self).events_spec().dom(),
            forall|id: EventId| #[trigger] final(self).events_spec().contains_key(id) ==> final(self).events_spec()[id] == Seq::<V>::empty(),
            final(self)@ == old(self)@,
            final(self).allocator_spec() == old(self).allocator_spec(),
            final(self).archetypes_spec() == old(self).archetypes_spec(),
            final(self).registered() == old(self).registered(),
            final(self).resources_spec() == old(self).resources_spec(),
    {
        self.events.update_all();
        assert(self@ =~= old(self)@);
    }
}

impl<V> World<V> {
    /// Mutable access to the value of component `id` stored at row `row` of archetype
    /// `arch_idx`, if that archetype has the component and the row exists.
    pub(crate) fn get_component_at_mut(&mut self, _entity: Entity, id: ComponentId, arch_idx: usize, row: usize) -> (r: Option<&mut V>)
        requires
            old(self).wf(),
        ensures
            (r is Some) == ((arch_idx as int) < old(self).archetypes_spec().len()
                && old(self).archetypes_spec()[arch_idx as int].sig().contains(id)
                && (row as int) < old(self).archetypes_spec()[arch_idx as int].entities@.len()),
            r is Some ==> {
                let e = old(self).archetypes_spec()[arch_idx as int].entities@[row as int];
                &&& old(self)@.contains_key(e)
                &&& *r->0 == old(self)@[e][id]
                &&& final(self).allocator_spec() == old(self).allocator_spec()
                &&& final(self).registered() == old(self).registered()
                &&& old(self).keeps_archetypes(*final(self))
                &&& final(self).wf()
                &&& final(self)@ == old(self)@.insert(e, old(self)@[e].insert(id, *final(r->0)))
                &&& final(self).resources_spec() == old(self).resources_spec()
                &&& final(self).events_spec() == old(self).events_spec()
                &&& final(self).archetypes_spec().len() == old(self).archetypes_spec().len()
                &&& forall|a: int| 0 <= a < old(self).archetypes_spec().len() ==>
                    (#[trigger] final(self).archetypes_spec()[a]).entities@ == old(self).archetypes_spec()[a].entities@
                        && final(self).archetypes_spec()[a].sig() == old(self).archetypes_spec()[a].sig()
            },
            r is None ==> *final(self) == *old(self),
    {
        let ghost fin = *final(self);
        if arch_idx >= self.archetypes.len() {
            return None;
        }
        proof {
            assert(self.archetypes@[arch_idx as int].wf());
        }
        match search_signature(&self.archetypes[arch_idx].type_signature, id) {
            Ok(k) => {
                if row >= self.archetypes[arch_idx].entities.len() {
                    return None;
                }
                let ghost e = self.archetypes@[arch_idx as int].entities@[row as int];
                proof {
                    crate::archetype::lemma_sorted_index_of(self.archetypes@[arch_idx as int].sig(), k as int);
                    assert(self.archetypes@[arch_idx as int].sig().contains(id));
                    self.lemma_row_is_spawned(arch_idx as int, row as int);
                    let loc = self.locations@[e.index];
                    assert(self.locations@.contains_key(e.index));
                    assert(loc.archetype_id == arch_idx && loc.row == row);
                    assert(self.is_spawned(e));
                }
                let v = self.archetypes[arch_idx].value_mut(k, row);
                proof {
                    Self::lemma_value_frame(*old(self), fin, e, id, *final(v));
                }
                Some(v)
            },
            Err(_) => None,
        }
    }
}

impl<V> World<V> {
    /// Law: no two spawned entities share a slot index.
    pub proof fn lemma_spawned_indices_unique(&self, e1: Entity, e2: Entity)
        requires
            self.wf(),
            self@.contains_key(e1),
            self@.contains_key(e2),
            e1.index == e2.index,
        ensures
            e1 == e2,
    {
    }

    /// Law: every spawned entity is alive.
    pub proof fn lemma_spawned_are_alive(&self, e: Entity)
        requires
            self.wf(),
            self@.contains_key(e),
        ensures
            self.spec_is_alive(e),
    {
    }

    /// The slot indices of the entities stored in archetype `a`.
    spec fn row_slots(&self, a: int) -> Set<u32> {
        self.archetypes@[a].entities@.map_values(|x: Entity| x.index).to_set()
    }

    /// The slot indices of the entities stored in the listed archetypes.
    spec fn listed_slots(&self, idxs: Seq<usize>) -> Set<u32>
        decreases idxs.len(),
    {
        if idxs.len() == 0 {
            Set::empty()
        } else {
            self.listed_slots(idxs.drop_last()) + self.row_slots(idxs.last() as int)
        }
    }

    /// An archetype holds as many distinct slot indices as it has rows, each of them a slot
    /// that is located in that archetype.
    proof fn lemma_row_slots(&self, a: int)
        requires
            self.wf(),
            0 <= a < self.archetypes@.len(),
        ensures
            self.row_slots(a).finite(),
            self.row_slots(a).len() == self.archetypes@[a].entities@.len(),
            forall|i: u32| #[trigger] self.row_slots(a).contains(i) ==> {
                &&& self.locations@.contains_key(i)
                &&& self.locations@[i].archetype_id == a
                &&& (i as int) < self.allocator.generations().len()
            },
    {
        let ents = self.archetypes@[a].entities@;
        let ids = ents.map_values(|x: Entity| x.index);
        assert forall|k1: int, k2: int| 0 <= k1 < ids.len() && 0 <= k2 < ids.len() && k1 != k2
            implies #[trigger] ids[k1] != #[trigger] ids[k2] by {
            let x1 = ents[k1];
            let x2 = ents[k2];
            assert(self.locations@[x1.index].row == k1);
            assert(self.locations@[x2.index].row == k2);
        }
        assert(ids.no_duplicates());
        ids.unique_seq_to_set();
        assert forall|i: u32| #[trigger] self.row_slots(a).contains(i) implies {
            &&& self.locations@.contains_key(i)
            &&& self.locations@[i].archetype_id == a
            &&& (i as int) < self.allocator.generations().len()
        } by {
            assert(ids.contains(i));
            let k = choose|k: int| 0 <= k < ids.len() && ids[k] == i;
            let x = ents[k];
            assert(x.index == i);
        }
    }

    /// The listed archetypes, at strictly increasing positions, hold as many distinct slot
    /// indices as they have rows in all.
    proof fn lemma_listed_slots(&self, idxs: Seq<usize>)
        requires
            self.wf(),
            forall|k: int| 0 <= k < idxs.len() ==> (#[trigger] idxs[k] as int) < self.archetypes@.len(),
            forall|k1: int, k2: int| 0 <= k1 < k2 < idxs.len() ==> #[trigger] idxs[k1] < #[trigger] idxs[k2],
        ensures
            self.listed_slots(idxs).finite(),
            self.listed_slots(idxs).len() == entity_total(self.archetypes@, idxs),
            forall|i: u32| #[trigger] self.listed_slots(idxs).contains(i) ==> {
                &&& self.locations@.contains_key(i)
                &&& exists|k: int| 0 <= k < idxs.len() && self.locations@[i].archetype_id == idxs[k]
                &&& (i as int) < self.allocator.generations().len()
            },
        decreases idxs.len(),
    {
        if idxs.len() > 0 {
            let prefix = idxs.drop_last();
            let a = idxs.last() as int;
            self.lemma_listed_slots(prefix);
            self.lemma_row_slots(a);
            let p = self.listed_slots(prefix);
            let r = self.row_slots(a);
            assert(p.disjoint(r)) by {
                assert forall|i: u32| p.contains(i) implies !r.contains(i) by {
                    let k = choose|k: int| 0 <= k < prefix.len() && self.locations@[i].archetype_id == prefix[k];
                    assert(prefix[k] == idxs[k]);
                }
            }
            vstd::set_lib::lemma_set_disjoint_lens(p, r);
            assert forall|i: u32| #[trigger] self.listed_slots(idxs).contains(i) implies {
                &&& self.locations@.contains_key(i)
                &&& exists|k: int| 0 <= k < idxs.len() && self.locations@[i].archetype_id == idxs[k]
                &&& (i as int) < self.allocator.generations().len()
            } by {
                if p.contains(i) {
                    let k = choose|k: int| 0 <= k < prefix.len() && self.locations@[i].archetype_id == prefix[k];
                    assert(prefix[k] == idxs[k]);
                } else {
                    assert(self.locations@[i].archetype_id == idxs[idxs.len() - 1]);
                }
            }
        }
    }

    /// Law: the archetypes at strictly increasing positions hold no more entities in all than
    /// there are slots, since each row holds a distinct spawned entity; so the count fits in
    /// `usize`.
    pub proof fn lemma_entity_total_bounded(&self, idxs: Seq<usize>)
        requires
            self.wf(),
            forall|k: int| 0 <= k < idxs.len() ==> (#[trigger] idxs[k] as int) < self.archetypes_spec().len(),
            forall|k1: int, k2: int| 0 <= k1 < k2 < idxs.len() ==> #[trigger] idxs[k1] < #[trigger] idxs[k2],
        ensures
            entity_total(self.archetypes_spec(), idxs) <= self.allocator_spec().generations().len(),
            entity_total(self.archetypes_spec(), idxs) <= usize::MAX,
    {
        self.allocator.lemma_slot_count_fits();
        self.lemma_listed_slots(idxs);
        let slots = self.listed_slots(idxs);
        let n = self.allocator.generations().len() as int;
        let f = |i: u32| i as int;
        let ints = slots.map(f);
        assert(vstd::relations::injective_on(f, slots));
        vstd::set_lib::lemma_map_size(slots, ints, f);
        vstd::set_lib::lemma_int_range(0, n);
        assert(ints.subset_of(vstd::set_lib::set_int_range(0, n)));
        vstd::set_lib::lemma_len_subset(ints, vstd::set_lib::set_int_range(0, n));
    }

    /// Every listed archetype's slots are among the listed slots.
    proof fn lemma_listed_slots_contain(&self, idxs: Seq<usize>, k: int)
        requires
            0 <= k < idxs.len(),
        ensures
            self.row_slots(idxs[k] as int).subset_of(self.listed_slots(idxs)),
        decreases idxs.len(),
    {
        if k < idxs.len() - 1 {
            self.lemma_listed_slots_contain(idxs.drop_last(), k);
            assert(idxs.drop_last()[k] == idxs[k]);
        }
    }

    /// The spawned entities stored in an archetype that a query with this access and filter
    /// visits.
    pub open spec fn matching_entities(&self, access: AccessModel, filter: FilterDesc) -> Set<Entity> {
        Set::new(|e: Entity| self@.contains_key(e) && exists|a: int, r: int|
            0 <= a < self.archetypes_spec().len() && 0 <= r < self.archetypes_spec()[a].entities@.len()
                && #[trigger] self.archetypes_spec()[a].entities@[r] == e
                && archetype_matches(self.archetypes_spec()[a], access, filter))
    }

    /// Law: the number of entities counted over the archetypes a query visits (what
    /// `Query::len` and `QueryState::len` return) is the number of spawned entities stored in
    /// an archetype that the query's access and filter accept.
    pub proof fn lemma_query_len_counts_matching(&self, access: AccessModel, filter: FilterDesc)
        requires
            self.wf(),
        ensures
            self.matching_entities(access, filter).finite(),
            self.matching_entities(access, filter).len() == entity_total(
                self.archetypes_spec(),
                matching_indices(self.archetypes_spec(), access, filter, self.archetypes_spec().len() as int),
            ),
    {
        let archs = self.archetypes_spec();
        let n = archs.len() as int;
        self.lemma_archetypes_wf();
        lemma_matching_indices(archs, access, filter, n);
        let idxs = matching_indices(archs, access, filter, n);
        self.lemma_listed_slots(idxs);
        let slots = self.listed_slots(idxs);
        let m = self.matching_entities(access, filter);
        let g = |i: u32| Entity { index: i, generation: self.allocator.generations()[i as int] };
        assert(vstd::relations::injective_on(g, slots));
        assert forall|e: Entity| #[trigger] m.contains(e) <==> slots.map(g).contains(e) by {
            if slots.map(g).contains(e) {
                let i = choose|i: u32| slots.contains(i) && g(i) == e;
                let k = choose|k: int| 0 <= k < idxs.len() && self.locations@[i].archetype_id == idxs[k];
                let loc = self.locations@[i];
                assert(self.loc_valid(loc));
                assert(self.entity_at(loc) == e);
                assert(self.is_spawned(e));
                let a = idxs[k] as int;
                assert(archetype_matches(archs[a], access, filter));
                assert(archs[a].entities@[loc.row as int] == e);
            }
            if m.contains(e) {
                let (a, r) = choose|a: int, r: int|
                    0 <= a < archs.len() && 0 <= r < archs[a].entities@.len()
                        && #[trigger] archs[a].entities@[r] == e
                        && archetype_matches(archs[a], access, filter);
                assert(idxs.contains(a as usize));
                let k = choose|k: int| 0 <= k < idxs.len() && idxs[k] == a as usize;
                self.lemma_listed_slots_contain(idxs, k);
                let ids = self.archetypes@[a].entities@.map_values(|x: Entity| x.index);
                assert(ids[r] == e.index);
                assert(self.row_slots(a).contains(e.index));
                assert(slots.contains(e.index));
                assert(self.is_spawned(e));
                assert(g(e.index) == e);
            }
        }
        assert(m =~= slots.map(g));
        vstd::set_lib::lemma_map_size(slots, m, g);
    }

    /// Law: a spawned entity holds exactly the component kinds of its archetype's signature.
    pub proof fn lemma_components_follow_signature(&self, a: int, k: int)
        requires
            self.wf(),
            0 <= a < self.archetypes_spec().len(),
            0 <= k < self.archetypes_spec()[a].entities@.len(),
        ensures
            self@[self.archetypes_spec()[a].entities@[k]].dom() == self.archetypes_spec()[a].sig().to_set(),
    {
        self.lemma_row_is_spawned(a, k);
        let x = self.archetypes@[a].entities@[k];
        assert(self@[x].dom() =~= self.archetypes_spec()[a].sig().to_set());
    }
}

/// Law: once a spawned entity is despawned (as `despawn` describes its effect on the
/// allocator), the next spawn hands out the same slot with the next generation; the old
/// handle stays dead while the new one is alive.
pub proof fn lemma_respawn_reuses_slot<V>(before: World<V>, after: World<V>, e: Entity)
    requires
        before.wf(),
        before@.contains_key(e),
        e.generation < u32::MAX,
        after.allocator_spec().generations() == before.allocator_spec().generations().update(e.index as int, (e.generation + 1) as u32),
        after.allocator_spec().free_list() == before.allocator_spec().free_list().push(e.index),
    ensures
        after.next_entity() == (Entity { index: e.index, generation: (e.generation + 1) as u32 }),
        !after.spec_is_alive(e),
        after.spec_is_alive(after.next_entity()),
{
    before.lemma_spawned_are_alive(e);
    crate::allocator::lemma_free_then_allocate_reuses_slot(before.allocator_spec(), e, after.allocator_spec());
}

/// Law: the entity that `spawn` adds shares its slot index with no entity spawned before, and
/// every entity spawned before stays spawned and alive.
pub proof fn lemma_spawn_is_fresh<V>(before: World<V>, after: World<V>, e: Entity)
    requires
        before.wf(),
        after.wf(),
        !before@.contains_key(e),
        after@ == before@.insert(e, Map::<ComponentId, V>::empty()),
    ensures
        forall|x: Entity| #[trigger] before@.contains_key(x) ==> {
            &&& x.index != e.index
            &&& after@.contains_key(x)
            &&& after.spec_is_alive(x)
        },
{
    assert forall|x: Entity| #[trigger] before@.contains_key(x) implies {
        &&& x.index != e.index
        &&& after@.contains_key(x)
        &&& after.spec_is_alive(x)
    } by {
        assert(after@.contains_key(x));
        assert(after@.contains_key(e));
        if x.index == e.index {
            after.lemma_spawned_indices_unique(x, e);
        }
        after.lemma_spawned_are_alive(x);
    }
}

/// Law: inserting a component and then removing it gives back the inserted value and leaves
/// the entity with its other components, as the contracts of `insert_component` and
/// `remove_component` describe the two steps.
pub proof fn lemma_insert_then_remove_component<V>(m: Map<Entity, Map<ComponentId, V>>, e: Entity, id: ComponentId, v: V)
    requires
        m.contains_key(e),
    ensures
        ({
            let m1 = m.insert(e, m[e].insert(id, v));
            &&& m1[e].contains_key(id)
            &&& m1[e][id] == v
            &&& m1.insert(e, m1[e].remove(id)) == m.insert(e, m[e].remove(id))
            &&& !m[e].contains_key(id) ==> m1.insert(e, m1[e].remove(id)) == m
        }),
{
    let m1 = m.insert(e, m[e].insert(id, v));
    assert(m1[e].remove(id) =~= m[e].remove(id));
    assert(m1.insert(e, m1[e].remove(id)) =~= m.insert(e, m[e].remove(id)));
    if !m[e].contains_key(id) {
        assert(m[e].remove(id) =~= m[e]);
        assert(m.insert(e, m[e]) =~= m);
    }
}

/// Law: after `insert_component` succeeds, `get` of that kind on that entity gives the
/// inserted value back, and every other entity and kind reads as before; the set of spawned
/// entities does not change.
pub proof fn lemma_insert_reads_back<V>(m: Map<Entity, Map<ComponentId, V>>, e: Entity, id: ComponentId, v: V)
    requires
        m.contains_key(e),
    ensures
        ({
            let m1 = m.insert(e, m[e].insert(id, v));
            &&& m1.dom() == m.dom()
            &&& m1[e].contains_key(id) && m1[e][id] == v
            &&& forall|e2: Entity, id2: ComponentId| m.contains_key(e2) && (e2 != e || id2 != id) ==> {
                &&& (#[trigger] m1[e2].contains_key(id2)) == m[e2].contains_key(id2)
                &&& m[e2].contains_key(id2) ==> m1[e2][id2] == m[e2][id2]
            }
        }),
{
    let m1 = m.insert(e, m[e].insert(id, v));
    assert(m1.dom() =~= m.dom());
}

impl<V> Default for World<V> {
    fn default() -> (w: Self)
        ensures
            w.wf(),
            w@ == Map::<Entity, Map<ComponentId, V>>::empty(),
            w.registered() == Set::<ComponentId>::empty(),
            w.resources_spec() == Map::<ResourceId, V>::empty(),
            w.events_spec() == Map::<EventId, Seq<V>>::empty(),
            w.next_entity() == (Entity { index: 0, generation: 0 }),
            w.spawn_room() == u32::MAX + 1,
            w.archetype_count() == 1,
    {
        Self::new()
    }
}

impl<V> View for World<V> {
    type V = Map<Entity, Map<ComponentId, V>>;

    /// Each spawned entity with its components.
    closed spec fn view(&self) -> Map<Entity, Map<ComponentId, V>> {
        Map::new(|e: Entity| self.is_spawned(e), |e: Entity| self.components(e))
    }
}

} // verus!

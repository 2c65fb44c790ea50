use vstd::prelude::*;

use crate::entity::Entity;
use crate::query::access::{access_matches, lemma_access_merge, lemma_access_read, lemma_access_write, AccessModel, QueryAccess};
use crate::query::filtered::FilteredEntityRef;
use crate::storage::ComponentId;
use crate::world::World;

verus! {

/// Every kind that `access` reads or writes is in the signature `sig`.
pub open spec fn covers(access: AccessModel, sig: Seq<ComponentId>) -> bool {
    forall|x: ComponentId| #[trigger] access.can_read(x) ==> sig.contains(x)
}

/// A signature that holds every id an access lists covers that access.
pub proof fn lemma_access_matches_covers(sig: Seq<ComponentId>, access: AccessModel)
    requires
        access_matches(sig, access),
    ensures
        covers(access, sig),
{
    assert forall|x: ComponentId| #[trigger] access.can_read(x) implies sig.contains(x) by {
        if access.reads.contains(x) {
            let k = choose|k: int| 0 <= k < access.reads.len() && access.reads[k] == x;
            assert(sig.contains(access.reads[k]));
        } else {
            let k = choose|k: int| 0 <= k < access.writes.len() && access.writes[k] == x;
            assert(sig.contains(access.writes[k]));
        }
    }
}

/// Merging `b` into a well-formed `m` keeps it well formed, and a signature that covers the
/// merged access covers both parts.
pub proof fn lemma_covers_parts(m: AccessModel, b: AccessModel, sig: Seq<ComponentId>)
    requires
        m.wf(),
    ensures
        m.merge(b).wf(),
        covers(m.merge(b), sig) ==> covers(m, sig) && covers(b, sig),
{
    lemma_access_merge(m, b);
    if covers(m.merge(b), sig) {
        assert forall|x: ComponentId| #[trigger] m.can_read(x) implies sig.contains(x) by {
            assert(m.merge(b).can_read(x));
        }
        assert forall|x: ComponentId| #[trigger] b.can_read(x) implies sig.contains(x) by {
            assert(m.merge(b).can_read(x));
        }
    }
}

/// Describes what a query yields for each entity it visits, and which components that needs.
pub trait QueryData<V: 'static> {
    /// What the query yields for one entity.
    type Item<'a>;

    spec fn access_model(&self) -> AccessModel;

    /// `item` is what the data yields for `entity`, stored at row `row` of archetype `arch`
    /// of `world`.
    spec fn fetched<'a>(&self, world: World<V>, entity: Entity, arch: int, row: int, item: Self::Item<'a>) -> bool;

    fn access(&self) -> (a: QueryAccess)
        ensures
            a@ == self.access_model(),
    ;

    /// The item for the entity at row `row` of archetype `arch_idx`, whose signature holds
    /// every kind the data reads or writes.
    fn fetch<'a>(&self, world: &'a World<V>, entity: Entity, row: usize, arch_idx: usize) -> (item: Self::Item<'a>)
        requires
            world.wf(),
            (arch_idx as int) < world.archetypes_spec().len(),
            (row as int) < world.archetypes_spec()[arch_idx as int].entities@.len(),
            world.archetypes_spec()[arch_idx as int].entities@[row as int] == entity,
            covers(self.access_model(), world.archetypes_spec()[arch_idx as int].sig()),
        ensures
            self.fetched(*world, entity, arch_idx as int, row as int, item),
    ;
}

/// Query over entity handles only.
pub struct EntityData;

/// Read-only access to one component kind.
pub struct ReadData(pub ComponentId);

/// Write access to one component kind. A query over a shared world yields the component by
/// shared reference; mutable access goes through [`crate::query::DynamicQueryIterMut`].
pub struct WriteData(pub ComponentId);

/// Entity references whose access is checked at runtime.
pub struct FilteredEntityRefData;

/// Entity references whose mutable access is checked at runtime. A query over a shared world
/// grants them no access, so they are yielded as [`FilteredEntityRef`]s.
pub struct FilteredEntityMutData;

/// Shorthand for [`ReadData`].
pub type Read = ReadData;

/// Shorthand for [`WriteData`].
pub type Write = WriteData;

/// The component of kind `id` of the entity stored at a position that holds it.
fn fetch_component<'a, V>(world: &'a World<V>, entity: Entity, id: ComponentId, row: usize, arch_idx: usize) -> (v: &'a V)
    requires
        world.wf(),
        (arch_idx as int) < world.archetypes_spec().len(),
        (row as int) < world.archetypes_spec()[arch_idx as int].entities@.len(),
        world.archetypes_spec()[arch_idx as int].entities@[row as int] == entity,
        world.archetypes_spec()[arch_idx as int].sig().contains(id),
    ensures
        world@.contains_key(entity),
        *v == world@[entity][id],
{
    proof {
        world.lemma_row_is_spawned(arch_idx as int, row as int);
    }
    world.get_component_at(entity, id, arch_idx, row).unwrap()
}

impl<V: 'static> QueryData<V> for EntityData {
    type Item<'a> = Entity;

    open spec fn access_model(&self) -> AccessModel {
        AccessModel::empty()
    }

    open spec fn fetched<'a>(&self, world: World<V>, entity: Entity, arch: int, row: int, item: Entity) -> bool {
        item == entity
    }

    fn access(&self) -> (a: QueryAccess) {
        QueryAccess::new()
    }

    fn fetch<'a>(&self, world: &'a World<V>, entity: Entity, row: usize, arch_idx: usize) -> (item: Entity) {
        entity
    }
}

impl<V: 'static> QueryData<V> for ReadData {
    type Item<'a> = &'a V;

    open spec fn access_model(&self) -> AccessModel {
        AccessModel::empty().read(self.0)
    }

    open spec fn fetched<'a>(&self, world: World<V>, entity: Entity, arch: int, row: int, item: &'a V) -> bool {
        world@.contains_key(entity) && *item == world@[entity][self.0]
    }

    fn access(&self) -> (a: QueryAccess) {
        let mut access = QueryAccess::new();
        access.read(self.0);
        access
    }

    fn fetch<'a>(&self, world: &'a World<V>, entity: Entity, row: usize, arch_idx: usize) -> (item: &'a V) {
        proof {
            lemma_access_read(AccessModel::empty(), self.0);
        }
        fetch_component(world, entity, self.0, row, arch_idx)
    }
}

impl<V: 'static> QueryData<V> for WriteData {
    type Item<'a> = &'a V;

    open spec fn access_model(&self) -> AccessModel {
        AccessModel::empty().write(self.0)
    }

    open spec fn fetched<'a>(&self, world: World<V>, entity: Entity, arch: int, row: int, item: &'a V) -> bool {
        world@.contains_key(entity) && *item == world@[entity][self.0]
    }

    fn access(&self) -> (a: QueryAccess) {
        let mut access = QueryAccess::new();
        access.write(self.0);
        access
    }

    fn fetch<'a>(&self, world: &'a World<V>, entity: Entity, row: usize, arch_idx: usize) -> (item: &'a V) {
        proof {
            lemma_access_write(AccessModel::empty(), self.0);
        }
        fetch_component(world, entity, self.0, row, arch_idx)
    }
}

impl<V: 'static> QueryData<V> for FilteredEntityRefData {
    type Item<'a> = FilteredEntityRef<'a, V>;

    open spec fn access_model(&self) -> AccessModel {
        AccessModel::empty()
    }

    open spec fn fetched<'a>(&self, world: World<V>, entity: Entity, arch: int, row: int, item: FilteredEntityRef<'a, V>) -> bool {
        &&& item.world_spec() == world
        &&& item.entity_spec() == entity
        &&& item.position() == (arch, row)
        &&& item.access_spec() == AccessModel::empty()
        &&& item.wf()
    }

    fn access(&self) -> (a: QueryAccess) {
        QueryAccess::new()
    }

    fn fetch<'a>(&self, world: &'a World<V>, entity: Entity, row: usize, arch_idx: usize) -> (item: FilteredEntityRef<'a, V>) {
        FilteredEntityRef::new(world, entity, arch_idx, row)
    }
}

impl<V: 'static> QueryData<V> for FilteredEntityMutData {
    type Item<'a> = FilteredEntityRef<'a, V>;

    open spec fn access_model(&self) -> AccessModel {
        AccessModel::empty()
    }

    open spec fn fetched<'a>(&self, world: World<V>, entity: Entity, arch: int, row: int, item: FilteredEntityRef<'a, V>) -> bool {
        &&& item.world_spec() == world
        &&& item.entity_spec() == entity
        &&& item.position() == (arch, row)
        &&& item.access_spec() == AccessModel::empty()
        &&& item.wf()
    }

    fn access(&self) -> (a: QueryAccess) {
        QueryAccess::new()
    }

    fn fetch<'a>(&self, world: &'a World<V>, entity: Entity, row: usize, arch_idx: usize) -> (item: FilteredEntityRef<'a, V>) {
        FilteredEntityRef::new(world, entity, arch_idx, row)
    }
}

impl<V: 'static, A: QueryData<V>> QueryData<V> for (A,) {
    type Item<'a> = (A::Item<'a>,);

    open spec fn access_model(&self) -> AccessModel {
        AccessModel::empty().merge(self.0.access_model())
    }

    open spec fn fetched<'a>(&self, world: World<V>, entity: Entity, arch: int, row: int, item: (A::Item<'a>,)) -> bool {
        self.0.fetched(world, entity, arch, row, item.0)
    }

    fn access(&self) -> (a: QueryAccess) {
        let mut access = QueryAccess::new();
        access.merge(&self.0.access());
        access
    }

    fn fetch<'a>(&self, world: &'a World<V>, entity: Entity, row: usize, arch_idx: usize) -> (item: (A::Item<'a>,)) {
        proof {
            let sig = world.archetypes_spec()[arch_idx as int].sig();
            lemma_covers_parts(AccessModel::empty(), self.0.access_model(), sig);
        }
        (self.0.fetch(world, entity, row, arch_idx),)
    }
}

impl<V: 'static, A: QueryData<V>, B: QueryData<V>> QueryData<V> for (A, B) {
    type Item<'a> = (A::Item<'a>, B::Item<'a>);

    open spec fn access_model(&self) -> AccessModel {
        AccessModel::empty().merge(self.0.access_model()).merge(self.1.access_model())
    }

    open spec fn fetched<'a>(&self, world: World<V>, entity: Entity, arch: int, row: int, item: (A::Item<'a>, B::Item<'a>)) -> bool {
        &&& self.0.fetched(world, entity, arch, row, item.0)
        &&& self.1.fetched(world, entity, arch, row, item.1)
    }

    fn access(&self) -> (a: QueryAccess) {
        let mut access = QueryAccess::new();
        access.merge(&self.0.access());
        access.merge(&self.1.access());
        access
    }

    fn fetch<'a>(&self, world: &'a World<V>, entity: Entity, row: usize, arch_idx: usize) -> (item: (A::Item<'a>, B::Item<'a>)) {
        proof {
            let sig = world.archetypes_spec()[arch_idx as int].sig();
            let m0 = AccessModel::empty();
            lemma_covers_parts(m0, self.0.access_model(), sig);
            lemma_covers_parts(m0.merge(self.0.access_model()), self.1.access_model(), sig);
        }
        (self.0.fetch(world, entity, row, arch_idx), self.1.fetch(world, entity, row, arch_idx))
    }
}

impl<V: 'static, A: QueryData<V>, B: QueryData<V>, C: QueryData<V>> QueryData<V> for (A, B, C) {
    type Item<'a> = (A::Item<'a>, B::Item<'a>, C::Item<'a>);

    open spec fn access_model(&self) -> AccessModel {
        AccessModel::empty().merge(self.0.access_model()).merge(self.1.access_model()).merge(self.2.access_model())
    }

    open spec fn fetched<'a>(&self, world: World<V>, entity: Entity, arch: int, row: int, item: (A::Item<'a>, B::Item<'a>, C::Item<'a>)) -> bool {
        &&& self.0.fetched(world, entity, arch, row, item.0)
        &&& self.1.fetched(world, entity, arch, row, item.1)
        &&& self.2.fetched(world, entity, arch, row, item.2)
    }

    fn access(&self) -> (a: QueryAccess) {
        let mut access = QueryAccess::new();
        access.merge(&self.0.access());
        access.merge(&self.1.access());
        access.merge(&self.2.access());
        access
    }

    fn fetch<'a>(&self, world: &'a World<V>, entity: Entity, row: usize, arch_idx: usize) -> (item: (A::Item<'a>, B::Item<'a>, C::Item<'a>)) {
        proof {
            let sig = world.archetypes_spec()[arch_idx as int].sig();
            let m0 = AccessModel::empty();
            let m1 = m0.merge(self.0.access_model());
            let m2 = m1.merge(self.1.access_model());
            lemma_covers_parts(m0, self.0.access_model(), sig);
            lemma_covers_parts(m1, self.1.access_model(), sig);
            lemma_covers_parts(m2, self.2.access_model(), sig);
        }
        (
            self.0.fetch(world, entity, row, arch_idx),
            self.1.fetch(world, entity, row, arch_idx),
            self.2.fetch(world, entity, row, arch_idx),
        )
    }
}

impl<V: 'static, A: QueryData<V>, B: QueryData<V>, C: QueryData<V>, D: QueryData<V>> QueryData<V> for (A, B, C, D) {
    type Item<'a> = (A::Item<'a>, B::Item<'a>, C::Item<'a>, D::Item<'a>);

    open spec fn access_model(&self) -> AccessModel {
        AccessModel::empty().merge(self.0.access_model()).merge(self.1.access_model()).merge(
            self.2.access_model(),
        ).merge(self.3.access_model())
    }

    open spec fn fetched<'a>(&self, world: World<V>, entity: Entity, arch: int, row: int, item: (A::Item<'a>, B::Item<'a>, C::Item<'a>, D::Item<'a>)) -> bool {
        &&& self.0.fetched(world, entity, arch, row, item.0)
        &&& self.1.fetched(world, entity, arch, row, item.1)
        &&& self.2.fetched(world, entity, arch, row, item.2)
        &&& self.3.fetched(world, entity, arch, row, item.3)
    }

    fn access(&self) -> (a: QueryAccess) {
        let mut access = QueryAccess::new();
        access.merge(&self.0.access());
        access.merge(&self.1.access());
        access.merge(&self.2.access());
        access.merge(&self.3.access());
        access
    }

    fn fetch<'a>(&self, world: &'a World<V>, entity: Entity, row: usize, arch_idx: usize) -> (item: (A::Item<'a>, B::Item<'a>, C::Item<'a>, D::Item<'a>)) {
        proof {
            let sig = world.archetypes_spec()[arch_idx as int].sig();
            let m0 = AccessModel::empty();
            let m1 = m0.merge(self.0.access_model());
            let m2 = m1.merge(self.1.access_model());
            let m3 = m2.merge(self.2.access_model());
            lemma_covers_parts(m0, self.0.access_model(), sig);
            lemma_covers_parts(m1, self.1.access_model(), sig);
            lemma_covers_parts(m2, self.2.access_model(), sig);
            lemma_covers_parts(m3, self.3.access_model(), sig);
        }
        (
            self.0.fetch(world, entity, row, arch_idx),
            self.1.fetch(world, entity, row, arch_idx),
            self.2.fetch(world, entity, row, arch_idx),
            self.3.fetch(world, entity, row, arch_idx),
        )
    }
}

/// Law: entity-handle data yields, for a visited position, the entity stored there, which is
/// a spawned entity; and it declares no access.
pub proof fn lemma_entity_data_yields_stored_entity<V: 'static>(w: World<V>, a: int, r: int, item: Entity, x: ComponentId)
    requires
        w.wf(),
        0 <= a < w.archetypes_spec().len(),
        0 <= r < w.archetypes_spec()[a].entities@.len(),
    ensures
        <EntityData as QueryData<V>>::fetched(&EntityData, w, w.archetypes_spec()[a].entities@[r], a, r, item)
            <==> item == w.archetypes_spec()[a].entities@[r],
        <EntityData as QueryData<V>>::fetched(&EntityData, w, w.archetypes_spec()[a].entities@[r], a, r, item) ==> w@.contains_key(item),
        !<EntityData as QueryData<V>>::access_model(&EntityData).reads.contains(x),
        !<EntityData as QueryData<V>>::access_model(&EntityData).writes.contains(x),
{
    w.lemma_row_is_spawned(a, r);
}

/// Law: read data on kind `c` declares a read of `c` and nothing else, and yields, for a
/// visited position, the value of `c` of the spawned entity stored there.
pub proof fn lemma_read_data_yields_component<V: 'static>(w: World<V>, c: ComponentId, a: int, r: int, item: &V, x: ComponentId)
    requires
        w.wf(),
        0 <= a < w.archetypes_spec().len(),
        0 <= r < w.archetypes_spec()[a].entities@.len(),
    ensures
        <ReadData as QueryData<V>>::access_model(&ReadData(c)).reads.contains(c),
        !<ReadData as QueryData<V>>::access_model(&ReadData(c)).writes.contains(x),
        <ReadData as QueryData<V>>::access_model(&ReadData(c)).reads.contains(x) ==> x == c,
        <ReadData as QueryData<V>>::fetched(&ReadData(c), w, w.archetypes_spec()[a].entities@[r], a, r, item)
            <==> *item == w@[w.archetypes_spec()[a].entities@[r]][c],
{
    w.lemma_row_is_spawned(a, r);
    let m = AccessModel::empty().read(c);
    assert(m.reads =~= seq![c]);
    assert(m.reads[0] == c);
}

/// Law: write data on kind `c` declares a write of `c` and nothing else, and yields, for a
/// visited position, the value of `c` of the spawned entity stored there.
pub proof fn lemma_write_data_declares_write<V: 'static>(w: World<V>, c: ComponentId, a: int, r: int, item: &V, x: ComponentId)
    requires
        w.wf(),
        0 <= a < w.archetypes_spec().len(),
        0 <= r < w.archetypes_spec()[a].entities@.len(),
    ensures
        <WriteData as QueryData<V>>::access_model(&WriteData(c)).writes.contains(c),
        !<WriteData as QueryData<V>>::access_model(&WriteData(c)).reads.contains(x),
        <WriteData as QueryData<V>>::access_model(&WriteData(c)).writes.contains(x) ==> x == c,
        <WriteData as QueryData<V>>::fetched(&WriteData(c), w, w.archetypes_spec()[a].entities@[r], a, r, item)
            <==> *item == w@[w.archetypes_spec()[a].entities@[r]][c],
{
    w.lemma_row_is_spawned(a, r);
    let m = AccessModel::empty().write(c);
    assert(m.writes =~= seq![c]);
    assert(m.writes[0] == c);
    assert(m.reads =~= Seq::<ComponentId>::empty());
}

/// Law: filtered entity data yields, for a visited position, a reference to the entity stored
/// there, at that position, granting no access; it declares no access either.
pub proof fn lemma_filtered_data_yields_stored_entity<'a, V: 'static>(w: World<V>, a: int, r: int, item: FilteredEntityRef<'a, V>, x: ComponentId)
    requires
        w.wf(),
        0 <= a < w.archetypes_spec().len(),
        0 <= r < w.archetypes_spec()[a].entities@.len(),
    ensures
        <FilteredEntityRefData as QueryData<V>>::fetched(&FilteredEntityRefData, w, w.archetypes_spec()[a].entities@[r], a, r, item) ==> {
            &&& item.entity_spec() == w.archetypes_spec()[a].entities@[r]
            &&& item.world_spec() == w
            &&& item.position() == (a, r)
            &&& !item.access_spec().reads.contains(x) && !item.access_spec().writes.contains(x)
        },
        <FilteredEntityMutData as QueryData<V>>::fetched(&FilteredEntityMutData, w, w.archetypes_spec()[a].entities@[r], a, r, item) ==> {
            &&& item.entity_spec() == w.archetypes_spec()[a].entities@[r]
            &&& item.world_spec() == w
            &&& item.position() == (a, r)
            &&& !item.access_spec().reads.contains(x) && !item.access_spec().writes.contains(x)
        },
        !<FilteredEntityRefData as QueryData<V>>::access_model(&FilteredEntityRefData).reads.contains(x),
        !<FilteredEntityRefData as QueryData<V>>::access_model(&FilteredEntityRefData).writes.contains(x),
        !<FilteredEntityMutData as QueryData<V>>::access_model(&FilteredEntityMutData).reads.contains(x),
        !<FilteredEntityMutData as QueryData<V>>::access_model(&FilteredEntityMutData).writes.contains(x),
{
}

/// Law: a pair of query data declares every access either part declares, and yields for a
/// visited position a pair whose parts are what each part yields there.
pub proof fn lemma_pair_data<'a, V: 'static, A: QueryData<V>, B: QueryData<V>>(
    d: (A, B),
    w: World<V>,
    e: Entity,
    a: int,
    r: int,
    item: (A::Item<'a>, B::Item<'a>),
    x: ComponentId,
)
    ensures
        d.0.access_model().can_read(x) || d.1.access_model().can_read(x) ==> d.access_model().can_read(x),
        d.0.access_model().can_write(x) || d.1.access_model().can_write(x) ==> d.access_model().can_write(x),
        d.fetched(w, e, a, r, item) <==> (d.0.fetched(w, e, a, r, item.0) && d.1.fetched(w, e, a, r, item.1)),
{
    let m0 = AccessModel::empty();
    lemma_access_merge(m0, d.0.access_model());
    lemma_access_merge(m0.merge(d.0.access_model()), d.1.access_model());
}

/// Law: a triple of query data declares every access any part declares, and yields for a
/// visited position a triple whose parts are what each part yields there.
pub proof fn lemma_triple_data<'a, V: 'static, A: QueryData<V>, B: QueryData<V>, C: QueryData<V>>(
    d: (A, B, C),
    w: World<V>,
    e: Entity,
    a: int,
    r: int,
    item: (A::Item<'a>, B::Item<'a>, C::Item<'a>),
    x: ComponentId,
)
    ensures
        d.0.access_model().can_read(x) || d.1.access_model().can_read(x) || d.2.access_model().can_read(x)
            ==> d.access_model().can_read(x),
        d.0.access_model().can_write(x) || d.1.access_model().can_write(x) || d.2.access_model().can_write(x)
            ==> d.access_model().can_write(x),
        d.fetched(w, e, a, r, item) <==> (d.0.fetched(w, e, a, r, item.0) && d.1.fetched(w, e, a, r, item.1)
            && d.2.fetched(w, e, a, r, item.2)),
{
    let m0 = AccessModel::empty();
    let m1 = m0.merge(d.0.access_model());
    let m2 = m1.merge(d.1.access_model());
    lemma_access_merge(m0, d.0.access_model());
    lemma_access_merge(m1, d.1.access_model());
    lemma_access_merge(m2, d.2.access_model());
}

} // verus!

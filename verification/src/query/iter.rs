use vstd::prelude::*;

use crate::archetype::Archetype;
use crate::entity::Entity;
use crate::query::access::{AccessModel, FilterDesc};
use crate::query::data::{covers, QueryData};
use crate::query::filter::QueryFilter;
use crate::query::filtered::{FilteredEntityMut, FilteredEntityRef};
use crate::query::state::{archetype_matches, entity_total, lemma_matching_indices, matching_indices, QueryState};
use crate::world::World;

verus! {

/// The first (visited archetype, row) position at or after the cursor `(mi, row)` that holds
/// an entity, if any.
pub open spec fn next_position<V>(archs: Seq<Archetype<V>>, matched: Seq<usize>, mi: int, row: int) -> Option<(int, int)>
    decreases matched.len() - mi,
{
    if mi < 0 || mi >= matched.len() {
        None
    } else if row < archs[matched[mi] as int].entities@.len() {
        Some((mi, row))
    } else {
        next_position(archs, matched, mi + 1, 0)
    }
}

/// The number of entities at or after the cursor `(mi, row)`.
pub open spec fn remaining<V>(archs: Seq<Archetype<V>>, matched: Seq<usize>, mi: int, row: int) -> nat
    decreases matched.len() - mi,
{
    if mi < 0 || mi >= matched.len() {
        0
    } else {
        let n = archs[matched[mi] as int].entities@.len();
        (if row < n { (n - row) as nat } else { 0 }) + remaining(archs, matched, mi + 1, 0)
    }
}

/// Stepping the cursor to the next position consumes exactly one entity.
pub proof fn lemma_remaining_step<V>(archs: Seq<Archetype<V>>, matched: Seq<usize>, mi: int, row: int)
    requires
        0 <= row,
    ensures
        next_position(archs, matched, mi, row) matches Some(p) ==> {
            &&& remaining(archs, matched, mi, row) == remaining(archs, matched, p.0, p.1)
            &&& remaining(archs, matched, p.0, p.1) == 1 + remaining(archs, matched, p.0, p.1 + 1)
        },
        next_position(archs, matched, mi, row) is None ==> remaining(archs, matched, mi, row) == 0,
    decreases matched.len() - mi,
{
    if mi < 0 || mi >= matched.len() {
    } else if row < archs[matched[mi] as int].entities@.len() {
    } else {
        lemma_remaining_step(archs, matched, mi + 1, 0);
    }
}

/// The entity count of a list is its first archetype's count plus the rest's.
proof fn lemma_entity_total_first<V>(archs: Seq<Archetype<V>>, s: Seq<usize>)
    requires
        s.len() > 0,
    ensures
        entity_total(archs, s) == archs[s[0] as int].entities@.len() + entity_total(archs, s.drop_first()),
    decreases s.len(),
{
    if s.len() == 1 {
        assert(s.drop_last() =~= Seq::<usize>::empty());
        assert(s.drop_first() =~= Seq::<usize>::empty());
    } else {
        lemma_entity_total_first(archs, s.drop_last());
        assert(s.drop_last().drop_first() =~= s.drop_first().drop_last());
        assert(s.drop_first().last() == s.last());
    }
}

/// The entities from visited archetype `mi` on are those of the remaining list.
proof fn lemma_remaining_from<V>(archs: Seq<Archetype<V>>, matched: Seq<usize>, mi: int)
    requires
        0 <= mi <= matched.len(),
    ensures
        remaining(archs, matched, mi, 0) == entity_total(archs, matched.subrange(mi, matched.len() as int)),
    decreases matched.len() - mi,
{
    let rest = matched.subrange(mi, matched.len() as int);
    if mi == matched.len() {
        assert(rest =~= Seq::<usize>::empty());
    } else {
        lemma_remaining_from(archs, matched, mi + 1);
        lemma_entity_total_first(archs, rest);
        assert(rest.drop_first() =~= matched.subrange(mi + 1, matched.len() as int));
    }
}

/// Law: iterating a query state from the start yields as many entities as its `len` counts.
pub proof fn lemma_iteration_count_is_len<V>(archs: Seq<Archetype<V>>, matched: Seq<usize>)
    ensures
        remaining(archs, matched, 0, 0) == entity_total(archs, matched),
{
    lemma_remaining_from(archs, matched, 0);
    assert(matched.subrange(0, matched.len() as int) =~= matched);
}

/// Law: the entities that a query state computed for a world visits are exactly the spawned
/// entities whose archetype passes the query's access and filter.
pub proof fn lemma_query_visits_exactly_matching<V>(w: World<V>, access: AccessModel, filter: FilterDesc, e: Entity)
    requires
        w.wf(),
    ensures
        ({
            let archs = w.archetypes_spec();
            let matched = matching_indices(archs, access, filter, archs.len() as int);
            (exists|k: int, r: int|
                0 <= k < matched.len() && 0 <= r < archs[matched[k] as int].entities@.len()
                    && #[trigger] archs[matched[k] as int].entities@[r] == e)
            <==> (w@.contains_key(e) && exists|a: int, r: int|
                0 <= a < archs.len() && 0 <= r < archs[a].entities@.len() && #[trigger] archs[a].entities@[r] == e
                    && archetype_matches(archs[a], access, filter))
        }),
{
    let archs = w.archetypes_spec();
    let n = archs.len() as int;
    let matched = matching_indices(archs, access, filter, n);
    w.lemma_archetypes_wf();
    lemma_matching_indices(archs, access, filter, n);
    if exists|k: int, r: int|
        0 <= k < matched.len() && 0 <= r < archs[matched[k] as int].entities@.len()
            && #[trigger] archs[matched[k] as int].entities@[r] == e {
        let (k, r) = choose|k: int, r: int|
            0 <= k < matched.len() && 0 <= r < archs[matched[k] as int].entities@.len()
                && #[trigger] archs[matched[k] as int].entities@[r] == e;
        let a = matched[k] as int;
        assert(a < n && archetype_matches(archs[a], access, filter));
        w.lemma_row_is_spawned(a, r);
        assert(archs[a].entities@[r] == e);
    }
    if w@.contains_key(e) && exists|a: int, r: int|
        0 <= a < archs.len() && 0 <= r < archs[a].entities@.len() && #[trigger] archs[a].entities@[r] == e
            && archetype_matches(archs[a], access, filter) {
        let (a, r) = choose|a: int, r: int|
            0 <= a < archs.len() && 0 <= r < archs[a].entities@.len() && #[trigger] archs[a].entities@[r] == e
                && archetype_matches(archs[a], access, filter);
        assert(matched.contains(a as usize));
        let k = choose|k: int| 0 <= k < matched.len() && matched[k] == a as usize;
        assert(archs[matched[k] as int].entities@[r] == e);
    }
}

/// Law: every entity that a query for `data` and `filter` visits (as [`World::query`] builds
/// it) is a spawned entity that holds every component the data reads or writes, stored in an
/// archetype that the filter accepts.
pub proof fn lemma_visited_entities_hold_declared<V>(w: World<V>, data: AccessModel, filter: FilterDesc, k: int, r: int, x: crate::storage::ComponentId)
    requires
        w.wf(),
        0 <= k < matching_indices(w.archetypes_spec(), AccessModel::empty().merge(data), filter, w.archetypes_spec().len() as int).len(),
        0 <= r < w.archetypes_spec()[matching_indices(w.archetypes_spec(), AccessModel::empty().merge(data), filter, w.archetypes_spec().len() as int)[k] as int].entities@.len(),
        data.can_read(x),
    ensures
        ({
            let archs = w.archetypes_spec();
            let a = matching_indices(archs, AccessModel::empty().merge(data), filter, archs.len() as int)[k] as int;
            let e = archs[a].entities@[r];
            &&& w@.contains_key(e)
            &&& w@[e].contains_key(x)
            &&& crate::query::access::filter_matches(archs[a].sig(), filter)
        }),
{
    let archs = w.archetypes_spec();
    let n = archs.len() as int;
    let access = AccessModel::empty().merge(data);
    w.lemma_archetypes_wf();
    lemma_matching_indices(archs, access, filter, n);
    let a = matching_indices(archs, access, filter, n)[k] as int;
    let sig = archs[a].sig();
    crate::query::data::lemma_access_matches_covers(sig, access);
    crate::query::data::lemma_covers_parts(AccessModel::empty(), data, sig);
    assert(sig.contains(x));
    w.lemma_row_is_spawned(a, r);
    w.lemma_components_follow_signature(a, r);
    assert(sig.to_set().contains(x));
}

/// Every visited archetype position exists in the world.
pub open spec fn matched_in_range<V>(world: World<V>, matched: Seq<usize>) -> bool {
    forall|k: int| 0 <= k < matched.len() ==> (#[trigger] matched[k] as int) < world.archetypes_spec().len()
}

/// Walks the entities of the archetypes a query state visits, yielding read access to each.
pub struct DynamicQueryIter<'w, V> {
    world: &'w World<V>,
    state: &'w QueryState,
    matched_idx: usize,
    row: usize,
}

impl<'w, V> DynamicQueryIter<'w, V> {
    pub closed spec fn world_spec(&self) -> World<V> {
        *self.world
    }

    pub closed spec fn state_spec(&self) -> QueryState {
        *self.state
    }

    /// The position of the next entity to consider: an index into the visited archetypes
    /// and a row in that archetype.
    pub closed spec fn cursor(&self) -> (int, int) {
        (self.matched_idx as int, self.row as int)
    }

    pub open spec fn wf(&self) -> bool {
        &&& self.world_spec().wf()
        &&& matched_in_range(self.world_spec(), self.state_spec().matched())
    }

    /// The number of entities the iterator has yet to yield.
    pub open spec fn remaining_count(&self) -> nat {
        remaining(self.world_spec().archetypes_spec(), self.state_spec().matched(), self.cursor().0, self.cursor().1)
    }

    pub fn new(world: &'w World<V>, state: &'w QueryState) -> (it: Self)
        ensures
            it.world_spec() == *world,
            it.state_spec() == *state,
            it.cursor() == (0int, 0int),
    {
        DynamicQueryIter { world, state, matched_idx: 0, row: 0 }
    }

    /// The next visited entity, with the state's access.
    pub fn next(&mut self) -> (r: Option<FilteredEntityRef<'w, V>>)
        requires
            old(self).wf(),
        ensures
            final(self).world_spec() == old(self).world_spec(),
            final(self).state_spec() == old(self).state_spec(),
            match next_position(old(self).world_spec().archetypes_spec(), old(self).state_spec().matched(), old(self).cursor().0, old(self).cursor().1) {
                None => r is None && final(self).cursor().0 >= old(self).state_spec().matched().len()
                    && next_position(final(self).world_spec().archetypes_spec(), final(self).state_spec().matched(), final(self).cursor().0, final(self).cursor().1) is None,
                Some(p) => r matches Some(item) && {
                    let a = old(self).state_spec().matched()[p.0] as int;
                    &&& item.world_spec() == old(self).world_spec()
                    &&& item.position() == (a, p.1)
                    &&& item.entity_spec() == old(self).world_spec().archetypes_spec()[a].entities@[p.1]
                    &&& item.access_spec() == old(self).state_spec().access@
                    &&& item.wf()
                    &&& final(self).cursor() == (p.0, p.1 + 1)
                },
            },
    {
        let archetypes = self.world.archetypes();
        let matched = self.state.matched_archetypes();
        loop
            invariant
                archetypes@ == self.world_spec().archetypes_spec(),
                matched@ == self.state_spec().matched(),
                self.world_spec() == old(self).world_spec(),
                self.state_spec() == old(self).state_spec(),
                self.wf(),
                next_position(archetypes@, matched@, self.cursor().0, self.cursor().1)
                    == next_position(archetypes@, matched@, old(self).cursor().0, old(self).cursor().1),
            decreases matched@.len() - self.matched_idx,
        {
            if self.matched_idx >= matched.len() {
                return None;
            }
            let arch_idx = matched[self.matched_idx];
            proof {
                assert((matched@[self.matched_idx as int] as int) < archetypes@.len());
            }
            let arch = &archetypes[arch_idx];
            if self.row >= arch.entities.len() {
                self.matched_idx = self.matched_idx + 1;
                self.row = 0;
                continue;
            }
            let entity = arch.entities[self.row];
            proof {
                assert(next_position(archetypes@, matched@, self.cursor().0, self.cursor().1) == Some((self.matched_idx as int, self.row as int)));
            }
            let item = FilteredEntityRef::with_access(self.world, entity, arch_idx, self.row, self.state.access.duplicate());
            self.row = self.row + 1;
            return Some(item);
        }
    }

    /// Consumes the iterator, returning how many entities it had left.
    pub fn count(self) -> (n: usize)
        requires
            self.wf(),
            self.remaining_count() <= usize::MAX,
        ensures
            n == self.remaining_count(),
    {
        let mut it = self;
        let mut n: usize = 0;
        proof {
            lemma_remaining_step(it.world_spec().archetypes_spec(), it.state_spec().matched(), it.cursor().0, it.cursor().1);
        }
        loop
            invariant
                it.wf(),
                it.world_spec() == self.world_spec(),
                it.state_spec() == self.state_spec(),
                n + it.remaining_count() == self.remaining_count(),
                self.remaining_count() <= usize::MAX,
                0 <= it.cursor().1,
            decreases it.remaining_count(),
        {
            proof {
                lemma_remaining_step(it.world_spec().archetypes_spec(), it.state_spec().matched(), it.cursor().0, it.cursor().1);
            }
            match it.next() {
                Some(_) => {
                    n = n + 1;
                },
                None => {
                    return n;
                },
            }
        }
    }
}

/// Walks the entities of the archetypes a query state visits, lending mutable access to one
/// entity at a time.
pub struct DynamicQueryIterMut<'w, V> {
    pub world: &'w mut World<V>,
    pub state: QueryState,
    pub matched_idx: usize,
    pub row: usize,
}

impl<'w, V> DynamicQueryIterMut<'w, V> {
    pub open spec fn world_spec(&self) -> World<V> {
        *self.world
    }

    pub closed spec fn state_spec(&self) -> QueryState {
        self.state
    }

    pub closed spec fn cursor(&self) -> (int, int) {
        (self.matched_idx as int, self.row as int)
    }

    pub open spec fn wf(&self) -> bool {
        &&& self.world_spec().wf()
        &&& matched_in_range(self.world_spec(), self.state_spec().matched())
    }

    pub fn new(world: &'w mut World<V>, state: QueryState) -> (it: Self)
        ensures
            it.world_spec() == *old(world),
            *final(it.world) == *final(world),
            it.state_spec() == state,
            it.cursor() == (0int, 0int),
    {
        DynamicQueryIterMut { world, state, matched_idx: 0, row: 0 }
    }

    /// The next visited entity, with the state's access.
    pub fn next(&mut self) -> (r: Option<FilteredEntityMut<'_, V>>)
        requires
            old(self).wf(),
        ensures
            final(self).state_spec() == old(self).state_spec(),
            *final(final(self).world) == *final(old(self).world),
            match next_position(old(self).world_spec().archetypes_spec(), old(self).state_spec().matched(), old(self).cursor().0, old(self).cursor().1) {
                None => r is None && final(self).world_spec() == old(self).world_spec()
                    && final(self).cursor().0 >= old(self).state_spec().matched().len()
                    && next_position(final(self).world_spec().archetypes_spec(), final(self).state_spec().matched(), final(self).cursor().0, final(self).cursor().1) is None,
                Some(p) => r matches Some(item) && {
                    let a = old(self).state_spec().matched()[p.0] as int;
                    &&& item.world_spec() == old(self).world_spec()
                    &&& final(self).world_spec() == *final(item.world)
                    &&& item.position() == (a, p.1)
                    &&& item.entity_spec() == old(self).world_spec().archetypes_spec()[a].entities@[p.1]
                    &&& item.access_spec() == old(self).state_spec().access@
                    &&& item.wf()
                    &&& final(self).cursor() == (p.0, p.1 + 1)
                },
            },
    {
        loop
            invariant
                self.world_spec() == old(self).world_spec(),
                *final(self.world) == *final(old(self).world),
                self.state_spec() == old(self).state_spec(),
                self.wf(),
                next_position(self.world_spec().archetypes_spec(), self.state_spec().matched(), self.cursor().0, self.cursor().1)
                    == next_position(old(self).world_spec().archetypes_spec(), old(self).state_spec().matched(), old(self).cursor().0, old(self).cursor().1),
            decreases self.state_spec().matched().len() - self.matched_idx,
        {
            let matched = self.state.matched_archetypes();
            if self.matched_idx >= matched.len() {
                return None;
            }
            let arch_idx = matched[self.matched_idx];
            let archetypes = self.world.archetypes();
            proof {
                assert((self.state_spec().matched()[self.matched_idx as int] as int) < archetypes@.len());
            }
            let n = archetypes[arch_idx].entities.len();
            if self.row >= n {
                self.matched_idx = self.matched_idx + 1;
                self.row = 0;
                continue;
            }
            let entity = archetypes[arch_idx].entities[self.row];
            let access = self.state.access.duplicate();
            let row = self.row;
            self.row = self.row + 1;
            proof {
                assert(next_position(self.world_spec().archetypes_spec(), self.state_spec().matched(), self.matched_idx as int, row as int)
                    == Some((self.matched_idx as int, row as int)));
            }
            let item = FilteredEntityMut::with_access(&mut *self.world, entity, arch_idx, row, access);
            return Some(item);
        }
    }
}

/// The first (visited archetype, row) position at or after the cursor `(mi, row)` that holds
/// an entity, skipping the visited archetypes whose signature `filter` rejects.
pub open spec fn filtered_next_position<V, F: QueryFilter>(archs: Seq<Archetype<V>>, matched: Seq<usize>, filter: F, mi: int, row: int) -> Option<(int, int)>
    decreases matched.len() - mi,
{
    if mi < 0 || mi >= matched.len() {
        None
    } else if !filter.accepts(archs[matched[mi] as int].sig()) {
        filtered_next_position(archs, matched, filter, mi + 1, 0)
    } else if row < archs[matched[mi] as int].entities@.len() {
        Some((mi, row))
    } else {
        filtered_next_position(archs, matched, filter, mi + 1, 0)
    }
}

/// Law: when the filter accepts every visited archetype, as it does for a query that
/// [`World::query`] builds, the typed iteration visits the same positions as the dynamic one.
pub proof fn lemma_filter_accepting_all<V, F: QueryFilter>(archs: Seq<Archetype<V>>, matched: Seq<usize>, filter: F, mi: int, row: int)
    requires
        forall|k: int| 0 <= k < matched.len() ==> #[trigger] filter.accepts(archs[matched[k] as int].sig()),
    ensures
        filtered_next_position(archs, matched, filter, mi, row) == next_position(archs, matched, mi, row),
    decreases matched.len() - mi,
{
    if 0 <= mi < matched.len() {
        assert(filter.accepts(archs[matched[mi] as int].sig()));
        lemma_filter_accepting_all(archs, matched, filter, mi + 1, 0);
    }
}

/// Every visited archetype that `filter` accepts holds every kind that `data` reads or writes.
pub open spec fn data_covered<V: 'static, D: QueryData<V>, F: QueryFilter>(world: World<V>, matched: Seq<usize>, data: D, filter: F) -> bool {
    forall|k: int| 0 <= k < matched.len() && #[trigger] filter.accepts(world.archetypes_spec()[matched[k] as int].sig())
        ==> covers(data.access_model(), world.archetypes_spec()[matched[k] as int].sig())
}

/// Iterator over the items of a [`Query`]: for each entity of a visited archetype that the
/// filter accepts, what the query data fetches.
pub struct QueryIter<'w, V, D, F> {
    world: &'w World<V>,
    state: &'w QueryState,
    data: &'w D,
    filter: &'w F,
    matched_idx: usize,
    row: usize,
}

impl<'w, V: 'static, D: QueryData<V>, F: QueryFilter> QueryIter<'w, V, D, F> {
    pub closed spec fn world_spec(&self) -> World<V> {
        *self.world
    }

    pub closed spec fn state_spec(&self) -> QueryState {
        *self.state
    }

    pub closed spec fn data_spec(&self) -> D {
        *self.data
    }

    pub closed spec fn filter_spec(&self) -> F {
        *self.filter
    }

    /// The position of the next entity to consider: an index into the visited archetypes
    /// and a row in that archetype.
    pub closed spec fn cursor(&self) -> (int, int) {
        (self.matched_idx as int, self.row as int)
    }

    pub open spec fn wf(&self) -> bool {
        &&& self.world_spec().wf()
        &&& matched_in_range(self.world_spec(), self.state_spec().matched())
        &&& data_covered(self.world_spec(), self.state_spec().matched(), self.data_spec(), self.filter_spec())
    }

    pub fn new(world: &'w World<V>, state: &'w QueryState, data: &'w D, filter: &'w F) -> (it: Self)
        ensures
            it.world_spec() == *world,
            it.state_spec() == *state,
            it.data_spec() == *data,
            it.filter_spec() == *filter,
            it.cursor() == (0int, 0int),
    {
        QueryIter { world, state, data, filter, matched_idx: 0, row: 0 }
    }

    /// The item of the next entity of a visited archetype that the filter accepts.
    pub fn next(&mut self) -> (r: Option<D::Item<'w>>)
        requires
            old(self).wf(),
        ensures
            final(self).world_spec() == old(self).world_spec(),
            final(self).state_spec() == old(self).state_spec(),
            final(self).data_spec() == old(self).data_spec(),
            final(self).filter_spec() == old(self).filter_spec(),
            match filtered_next_position(
                old(self).world_spec().archetypes_spec(),
                old(self).state_spec().matched(),
                old(self).filter_spec(),
                old(self).cursor().0,
                old(self).cursor().1,
            ) {
                None => r is None && final(self).cursor().0 >= old(self).state_spec().matched().len()
                    && filtered_next_position(final(self).world_spec().archetypes_spec(), final(self).state_spec().matched(), final(self).filter_spec(), final(self).cursor().0, final(self).cursor().1) is None,
                Some(p) => r matches Some(item) && {
                    let a = old(self).state_spec().matched()[p.0] as int;
                    let e = old(self).world_spec().archetypes_spec()[a].entities@[p.1];
                    &&& old(self).data_spec().fetched(old(self).world_spec(), e, a, p.1, item)
                    &&& final(self).cursor() == (p.0, p.1 + 1)
                },
            },
    {
        let archetypes = self.world.archetypes();
        let matched = self.state.matched_archetypes();
        proof {
            self.world.lemma_archetypes_wf();
        }
        loop
            invariant
                archetypes@ == self.world_spec().archetypes_spec(),
                matched@ == self.state_spec().matched(),
                self.world_spec() == old(self).world_spec(),
                self.state_spec() == old(self).state_spec(),
                self.data_spec() == old(self).data_spec(),
                self.filter_spec() == old(self).filter_spec(),
                self.wf(),
                forall|a: int| 0 <= a < archetypes@.len() ==> (#[trigger] archetypes@[a]).wf(),
                filtered_next_position(archetypes@, matched@, *self.filter, self.cursor().0, self.cursor().1)
                    == filtered_next_position(archetypes@, matched@, *self.filter, old(self).cursor().0, old(self).cursor().1),
            decreases matched@.len() - self.matched_idx,
        {
            if self.matched_idx >= matched.len() {
                return None;
            }
            let arch_idx = matched[self.matched_idx];
            proof {
                assert((matched@[self.matched_idx as int] as int) < archetypes@.len());
            }
            let arch = &archetypes[arch_idx];
            if !self.filter.matches(arch) {
                self.matched_idx = self.matched_idx + 1;
                self.row = 0;
                continue;
            }
            if self.row >= arch.entities.len() {
                self.matched_idx = self.matched_idx + 1;
                self.row = 0;
                continue;
            }
            let entity = arch.entities[self.row];
            proof {
                assert(filtered_next_position(archetypes@, matched@, *self.filter, self.cursor().0, self.cursor().1)
                    == Some((self.matched_idx as int, self.row as int)));
                assert(self.filter_spec().accepts(self.world_spec().archetypes_spec()[matched@[self.matched_idx as int] as int].sig()));
            }
            let item = self.data.fetch(self.world, entity, self.row, arch_idx);
            self.row = self.row + 1;
            return Some(item);
        }
    }
}

/// A world paired with a query state computed for it, the query data that says what each
/// visited entity yields, and the filter on archetypes.
pub struct Query<'w, V, D, F> {
    world: &'w World<V>,
    state: QueryState,
    data: D,
    filter: F,
}

impl<'w, V: 'static, D: QueryData<V>, F: QueryFilter> Query<'w, V, D, F> {
    pub closed spec fn world_spec(&self) -> World<V> {
        *self.world
    }

    pub closed spec fn state_spec(&self) -> QueryState {
        self.state
    }

    pub closed spec fn data_spec(&self) -> D {
        self.data
    }

    pub closed spec fn filter_spec(&self) -> F {
        self.filter
    }

    pub open spec fn wf(&self) -> bool {
        &&& self.world_spec().wf()
        &&& matched_in_range(self.world_spec(), self.state_spec().matched())
        &&& data_covered(self.world_spec(), self.state_spec().matched(), self.data_spec(), self.filter_spec())
    }

    pub fn new(world: &'w World<V>, state: QueryState, data: D, filter: F) -> (q: Self)
        ensures
            q.world_spec() == *world,
            q.state_spec() == state,
            q.data_spec() == data,
            q.filter_spec() == filter,
    {
        Query { world, state, data, filter }
    }

    pub fn iter(&self) -> (it: QueryIter<'_, V, D, F>)
        ensures
            it.world_spec() == self.world_spec(),
            it.state_spec() == self.state_spec(),
            it.data_spec() == self.data_spec(),
            it.filter_spec() == self.filter_spec(),
            it.cursor() == (0int, 0int),
    {
        QueryIter::new(self.world, &self.state, &self.data, &self.filter)
    }

    /// The number of entities in the archetypes that the state lists.
    pub fn len(&self) -> (n: usize)
        requires
            self.wf(),
            entity_total(self.world_spec().archetypes_spec(), self.state_spec().matched()) <= usize::MAX,
        ensures
            n == entity_total(self.world_spec().archetypes_spec(), self.state_spec().matched()),
    {
        self.state.len(self.world)
    }

    /// Whether the archetypes that the state lists hold no entity.
    pub fn is_empty(&self) -> (b: bool)
        requires
            self.wf(),
        ensures
            b == forall|k: int| 0 <= k < self.state_spec().matched().len()
                ==> self.world_spec().archetypes_spec()[#[trigger] self.state_spec().matched()[k] as int].entities@.len() == 0,
    {
        self.state.is_empty(self.world)
    }

    pub fn state(&self) -> (s: &QueryState)
        ensures
            *s == self.state_spec(),
    {
        &self.state
    }

    /// The item of the first entity the query yields, if any.
    pub fn single(&self) -> (r: Option<D::Item<'_>>)
        requires
            self.wf(),
        ensures
            match filtered_next_position(self.world_spec().archetypes_spec(), self.state_spec().matched(), self.filter_spec(), 0, 0) {
                None => r is None,
                Some(p) => r matches Some(item) && {
                    let a = self.state_spec().matched()[p.0] as int;
                    let e = self.world_spec().archetypes_spec()[a].entities@[p.1];
                    self.data_spec().fetched(self.world_spec(), e, a, p.1, item)
                },
            },
    {
        let mut it = self.iter();
        it.next()
    }
}

/// A mutably borrowed world paired with a query state.
pub struct QueryMut<'w, V> {
    world: &'w mut World<V>,
    state: QueryState,
}

impl<'w, V> QueryMut<'w, V> {
    pub closed spec fn state_spec(&self) -> QueryState {
        self.state
    }

    pub fn new(world: &'w mut World<V>, state: QueryState) -> (q: Self)
        ensures
            q.state_spec() == state,
    {
        QueryMut { world, state }
    }

    pub fn state(&self) -> (s: &QueryState)
        ensures
            *s == self.state_spec(),
    {
        &self.state
    }
}

} // verus!

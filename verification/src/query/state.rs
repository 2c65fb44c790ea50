use vstd::prelude::*;

use crate::archetype::{Archetype, ArchetypeId};
use crate::query::access::{access_matches, filter_matches, matches_access, matches_filter, AccessModel, FilterDesc, QueryAccess};
use crate::world::World;

verus! {

/// Whether a query with this access and filter visits the archetype.
pub open spec fn archetype_matches<V>(a: Archetype<V>, access: AccessModel, filter: FilterDesc) -> bool {
    access_matches(a.sig(), access) && filter_matches(a.sig(), filter)
}

/// The positions, in increasing order, of the first `n` archetypes that the query visits.
pub open spec fn matching_indices<V>(archs: Seq<Archetype<V>>, access: AccessModel, filter: FilterDesc, n: int) -> Seq<usize>
    decreases n,
{
    if n <= 0 {
        Seq::empty()
    } else {
        let prev = matching_indices(archs, access, filter, n - 1);
        if archetype_matches(archs[n - 1], access, filter) {
            prev.push((n - 1) as usize)
        } else {
            prev
        }
    }
}

/// The number of entities in the listed archetypes.
pub open spec fn entity_total<V>(archs: Seq<Archetype<V>>, idxs: Seq<usize>) -> nat
    decreases idxs.len(),
{
    if idxs.len() == 0 {
        0
    } else {
        entity_total(archs, idxs.drop_last()) + archs[idxs.last() as int].entities@.len()
    }
}

/// Law: a match list computed for one world is the match list of any later world that kept
/// its archetypes in place: only the signatures of the archetypes decide a match. So a
/// state's list stays right as long as no archetype is added, as `update` assumes.
pub proof fn lemma_matches_survive_kept_archetypes<V>(w0: World<V>, w1: World<V>, access: AccessModel, filter: FilterDesc, n: int)
    requires
        w0.keeps_archetypes(w1),
        0 <= n <= w0.archetypes_spec().len(),
    ensures
        matching_indices(w1.archetypes_spec(), access, filter, n) == matching_indices(w0.archetypes_spec(), access, filter, n),
    decreases n,
{
    if n > 0 {
        lemma_matches_survive_kept_archetypes(w0, w1, access, filter, n - 1);
        assert(w1.archetypes_spec()[n - 1].sig() == w0.archetypes_spec()[n - 1].sig());
    }
}

/// A listed archetype position `i` is in the first `n` positions exactly when it matches.
pub proof fn lemma_matching_indices<V>(archs: Seq<Archetype<V>>, access: AccessModel, filter: FilterDesc, n: int)
    requires
        0 <= n <= archs.len(),
        archs.len() <= usize::MAX,
    ensures
        forall|k: int| 0 <= k < matching_indices(archs, access, filter, n).len() ==> {
            let i = #[trigger] matching_indices(archs, access, filter, n)[k];
            &&& i < n
            &&& archetype_matches(archs[i as int], access, filter)
        },
        forall|i: int| 0 <= i < n && archetype_matches(archs[i], access, filter) ==>
            #[trigger] matching_indices(archs, access, filter, n).contains(i as usize),
        forall|k1: int, k2: int| 0 <= k1 < k2 < matching_indices(archs, access, filter, n).len() ==>
            #[trigger] matching_indices(archs, access, filter, n)[k1] < #[trigger] matching_indices(archs, access, filter, n)[k2],
    decreases n,
{
    if n > 0 {
        lemma_matching_indices(archs, access, filter, n - 1);
        let prev = matching_indices(archs, access, filter, n - 1);
        let cur = matching_indices(archs, access, filter, n);
        assert forall|i: int| 0 <= i < n && archetype_matches(archs[i], access, filter) implies #[trigger] cur.contains(i as usize) by {
            if i < n - 1 {
                assert(prev.contains(i as usize));
                let k = choose|k: int| 0 <= k < prev.len() && prev[k] == i as usize;
                assert(cur[k] == i as usize);
            } else {
                assert(cur[cur.len() - 1] == i as usize);
            }
        }
    }
}

/// Cached list of the archetypes that a query visits. Recompute with [`QueryState::update`]
/// when archetypes change.
#[derive(Clone, Debug)]
pub struct QueryState {
    pub access: QueryAccess,
    /// What a matched archetype must hold: `access` without the optional terms.
    pub required: QueryAccess,
    pub filter: FilterDesc,
    pub matched_archetypes: Vec<usize>,
    pub archetype_count: usize,
}

impl QueryState {
    /// The positions of the archetypes that the query visits.
    pub open spec fn matched(&self) -> Seq<usize> {
        self.matched_archetypes@
    }

    /// The number of archetypes the world had when the list was computed.
    pub open spec fn counted(&self) -> usize {
        self.archetype_count
    }

    /// A state that requires all of `access` of a matched archetype.
    pub fn new(access: QueryAccess, filter: FilterDesc) -> (s: Self)
        ensures
            s.access == access,
            s.required@ == access@,
            s.filter == filter,
            s.matched() == Seq::<usize>::empty(),
            s.counted() == 0,
    {
        let required = access.duplicate();
        QueryState { access, required, filter, matched_archetypes: Vec::new(), archetype_count: 0 }
    }

    /// A state that grants `access` and requires `required` of a matched archetype.
    pub fn with_required(access: QueryAccess, required: QueryAccess, filter: FilterDesc) -> (s: Self)
        ensures
            s.access == access,
            s.required == required,
            s.filter == filter,
            s.matched() == Seq::<usize>::empty(),
            s.counted() == 0,
    {
        QueryState { access, required, filter, matched_archetypes: Vec::new(), archetype_count: 0 }
    }

    /// Recomputes the list unless it was computed for as many archetypes as the world has now
    /// and is not empty.
    pub fn update<V>(&mut self, world: &World<V>)
        requires
            world.wf(),
        ensures
            final(self).access == old(self).access,
            final(self).required == old(self).required,
            final(self).filter == old(self).filter,
            (old(self).counted() == world.archetype_count() && old(self).matched().len() > 0) ==> final(self).matched() == old(self).matched()
                && final(self).counted() == old(self).counted(),
            !(old(self).counted() == world.archetype_count() && old(self).matched().len() > 0) ==> {
                &&& final(self).matched() == matching_indices(world.archetypes_spec(), old(self).required@, old(self).filter, world.archetypes_spec().len() as int)
                &&& final(self).counted() == world.archetype_count()
            },
    {
        let archetypes = world.archetypes();
        proof {
            world.lemma_archetypes_wf();
        }
        if self.archetype_count == archetypes.len() && self.matched_archetypes.len() > 0 {
            return;
        }
        self.archetype_count = archetypes.len();
        self.matched_archetypes.clear();
        let mut idx: usize = 0;
        while idx < archetypes.len()
            invariant
                archetypes@ == world.archetypes_spec(),
                forall|a: int| 0 <= a < archetypes@.len() ==> (#[trigger] archetypes@[a]).wf(),
                0 <= idx <= archetypes@.len(),
                self.access == old(self).access,
                self.required == old(self).required,
                self.filter == old(self).filter,
                self.archetype_count == archetypes@.len(),
                self.matched_archetypes@ == matching_indices(archetypes@, self.required@, self.filter, idx as int),
            decreases archetypes@.len() - idx,
        {
            let sig = &archetypes[idx].type_signature;
            proof {
                assert(archetypes@[idx as int].wf());
            }
            if matches_access(sig, &self.required) && matches_filter(sig, &self.filter) {
                self.matched_archetypes.push(idx);
            }
            idx = idx + 1;
        }
    }

    /// Recomputes the list unconditionally.
    pub fn force_update<V>(&mut self, world: &World<V>)
        requires
            world.wf(),
        ensures
            final(self).access == old(self).access,
            final(self).required == old(self).required,
            final(self).filter == old(self).filter,
            final(self).matched() == matching_indices(world.archetypes_spec(), old(self).required@, old(self).filter, world.archetypes_spec().len() as int),
            final(self).counted() == world.archetype_count(),
    {
        proof {
            world.lemma_archetypes_wf();
        }
        self.archetype_count = 0;
        self.update(world);
    }

    pub fn matched_archetypes(&self) -> (r: &[usize])
        ensures
            r@ == self.matched(),
    {
        self.matched_archetypes.as_slice()
    }

    /// Whether every visited archetype is empty.
    pub fn is_empty<V>(&self, world: &World<V>) -> (b: bool)
        requires
            forall|k: int| 0 <= k < self.matched().len() ==> (#[trigger] self.matched()[k] as int) < world.archetypes_spec().len(),
        ensures
            b == forall|k: int| 0 <= k < self.matched().len() ==> world.archetypes_spec()[#[trigger] self.matched()[k] as int].entities@.len() == 0,
    {
        let archetypes = world.archetypes();
        let mut k: usize = 0;
        while k < self.matched_archetypes.len()
            invariant
                archetypes@ == world.archetypes_spec(),
                0 <= k <= self.matched().len(),
                forall|j: int| 0 <= j < self.matched().len() ==> (#[trigger] self.matched()[j] as int) < archetypes@.len(),
                forall|j: int| 0 <= j < k ==> archetypes@[#[trigger] self.matched()[j] as int].entities@.len() == 0,
            decreases self.matched().len() - k,
        {
            let a = self.matched_archetypes[k];
            if archetypes[a].entities.len() != 0 {
                assert(archetypes@[self.matched()[k as int] as int].entities@.len() != 0);
                return false;
            }
            k = k + 1;
        }
        true
    }

    /// The number of entities in the visited archetypes.
    pub fn len<V>(&self, world: &World<V>) -> (n: usize)
        requires
            forall|k: int| 0 <= k < self.matched().len() ==> (#[trigger] self.matched()[k] as int) < world.archetypes_spec().len(),
            entity_total(world.archetypes_spec(), self.matched()) <= usize::MAX,
        ensures
            n == entity_total(world.archetypes_spec(), self.matched()),
    {
        let archetypes = world.archetypes();
        let mut total: usize = 0;
        let mut k: usize = 0;
        while k < self.matched_archetypes.len()
            invariant
                archetypes@ == world.archetypes_spec(),
                0 <= k <= self.matched().len(),
                forall|j: int| 0 <= j < self.matched().len() ==> (#[trigger] self.matched()[j] as int) < archetypes@.len(),
                entity_total(archetypes@, self.matched()) <= usize::MAX,
                total == entity_total(archetypes@, self.matched().take(k as int)),
            decreases self.matched().len() - k,
        {
            let a = self.matched_archetypes[k];
            proof {
                assert(self.matched().take(k + 1 as int).drop_last() =~= self.matched().take(k as int));
                lemma_entity_total_prefix(archetypes@, self.matched(), k + 1);
            }
            total = total + archetypes[a].entities.len();
            k = k + 1;
        }
        assert(self.matched().take(self.matched().len() as int) =~= self.matched());
        total
    }

    /// The id of the `matched_idx`-th visited archetype.
    pub fn archetype_id<V>(&self, world: &World<V>, matched_idx: usize) -> (id: ArchetypeId)
        requires
            matched_idx < self.matched().len(),
            (self.matched()[matched_idx as int] as int) < world.archetypes_spec().len(),
        ensures
            id == world.archetypes_spec()[self.matched()[matched_idx as int] as int].id,
    {
        world.archetypes()[self.matched_archetypes[matched_idx]].id
    }
}

/// A prefix never holds more entities than the whole list.
pub proof fn lemma_entity_total_prefix<V>(archs: Seq<Archetype<V>>, idxs: Seq<usize>, n: int)
    requires
        0 <= n <= idxs.len(),
    ensures
        entity_total(archs, idxs.take(n)) <= entity_total(archs, idxs),
    decreases idxs.len(),
{
    if n < idxs.len() {
        assert(idxs.drop_last().take(n) =~= idxs.take(n));
        lemma_entity_total_prefix(archs, idxs.drop_last(), n);
    } else {
        assert(idxs.take(n) =~= idxs);
    }
}

} // verus!

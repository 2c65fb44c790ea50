use vstd::prelude::*;

use crate::query::access::{filter_matches, same_filter, same_structure, AccessModel, FilterDesc, QueryAccess};
use crate::query::state::{matching_indices, QueryState};
use crate::storage::ComponentId;
use crate::world::World;

verus! {

/// `combined` accepts exactly the signatures that both `a` and `b` accept.
pub open spec fn conjoined(combined: FilterDesc, a: FilterDesc, b: FilterDesc) -> bool {
    forall|sig: Seq<ComponentId>| #[trigger] filter_matches(sig, combined) == (filter_matches(sig, a) && filter_matches(sig, b))
}

/// Two filters that accept the same signatures visit the same archetypes.
pub proof fn lemma_matching_indices_same_filter<V>(
    archs: Seq<crate::archetype::Archetype<V>>,
    access: AccessModel,
    f: FilterDesc,
    g: FilterDesc,
    n: int,
)
    requires
        same_filter(f, g),
    ensures
        matching_indices(archs, access, f, n) == matching_indices(archs, access, g, n),
    decreases n,
{
    if n > 0 {
        lemma_matching_indices_same_filter(archs, access, f, g, n - 1);
        assert(filter_matches(archs[n - 1].sig(), f) == filter_matches(archs[n - 1].sig(), g));
    }
}

/// Builds runtime queries with arbitrary component access and filter expressions.
#[derive(Clone, Debug)]
pub struct QueryBuilder {
    access: QueryAccess,
    required: QueryAccess,
    filter: FilterDesc,
}

impl QueryBuilder {
    /// The components that the query reads and writes.
    pub closed spec fn access_spec(&self) -> AccessModel {
        self.access@
    }

    /// The components that a matched archetype must hold: the access, without the optional
    /// terms.
    pub closed spec fn required_spec(&self) -> AccessModel {
        self.required@
    }

    /// The archetype filter built so far.
    pub closed spec fn filter_spec(&self) -> FilterDesc {
        self.filter
    }

    pub fn new() -> (b: Self)
        ensures
            b.access_spec() == AccessModel::empty(),
            b.required_spec() == AccessModel::empty(),
            b.filter_spec() == FilterDesc::All,
    {
        QueryBuilder { access: QueryAccess::new(), required: QueryAccess::new(), filter: FilterDesc::All }
    }

    pub fn read(&mut self, id: ComponentId) -> (r: &mut Self)
        ensures
            r.access_spec() == old(self).access_spec().read(id),
            r.required_spec() == old(self).required_spec().read(id),
            r.filter_spec() == old(self).filter_spec(),
            *final(self) == *final(r),
    {
        self.access.read(id);
        self.required.read(id);
        self
    }

    pub fn read_id(&mut self, id: ComponentId) -> (r: &mut Self)
        ensures
            r.access_spec() == old(self).access_spec().read(id),
            r.required_spec() == old(self).required_spec().read(id),
            r.filter_spec() == old(self).filter_spec(),
            *final(self) == *final(r),
    {
        self.access.read(id);
        self.required.read(id);
        self
    }

    pub fn write(&mut self, id: ComponentId) -> (r: &mut Self)
        ensures
            r.access_spec() == old(self).access_spec().write(id),
            r.required_spec() == old(self).required_spec().write(id),
            r.filter_spec() == old(self).filter_spec(),
            *final(self) == *final(r),
    {
        self.access.write(id);
        self.required.write(id);
        self
    }

    pub fn write_id(&mut self, id: ComponentId) -> (r: &mut Self)
        ensures
            r.access_spec() == old(self).access_spec().write(id),
            r.required_spec() == old(self).required_spec().write(id),
            r.filter_spec() == old(self).filter_spec(),
            *final(self) == *final(r),
    {
        self.access.write(id);
        self.required.write(id);
        self
    }

    pub fn with(&mut self, id: ComponentId) -> (r: &mut Self)
        ensures
            r.access_spec() == old(self).access_spec(),
            r.required_spec() == old(self).required_spec(),
            conjoined(r.filter_spec(), old(self).filter_spec(), FilterDesc::With(id)),
            *final(self) == *final(r),
    {
        self.merge_filter(FilterDesc::With(id));
        self
    }

    pub fn with_id(&mut self, id: ComponentId) -> (r: &mut Self)
        ensures
            r.access_spec() == old(self).access_spec(),
            r.required_spec() == old(self).required_spec(),
            conjoined(r.filter_spec(), old(self).filter_spec(), FilterDesc::With(id)),
            *final(self) == *final(r),
    {
        self.merge_filter(FilterDesc::With(id));
        self
    }

    pub fn without(&mut self, id: ComponentId) -> (r: &mut Self)
        ensures
            r.access_spec() == old(self).access_spec(),
            r.required_spec() == old(self).required_spec(),
            conjoined(r.filter_spec(), old(self).filter_spec(), FilterDesc::Without(id)),
            *final(self) == *final(r),
    {
        self.merge_filter(FilterDesc::Without(id));
        self
    }

    pub fn without_id(&mut self, id: ComponentId) -> (r: &mut Self)
        ensures
            r.access_spec() == old(self).access_spec(),
            r.required_spec() == old(self).required_spec(),
            conjoined(r.filter_spec(), old(self).filter_spec(), FilterDesc::Without(id)),
            *final(self) == *final(r),
    {
        self.merge_filter(FilterDesc::Without(id));
        self
    }

    pub fn filter(&mut self, filter: FilterDesc) -> (r: &mut Self)
        ensures
            r.access_spec() == old(self).access_spec(),
            r.required_spec() == old(self).required_spec(),
            conjoined(r.filter_spec(), old(self).filter_spec(), filter),
            *final(self) == *final(r),
    {
        self.merge_filter(filter);
        self
    }

    /// Requires the nested builder's filter as well, and takes over its access.
    pub fn and(&mut self, nested: QueryBuilder) -> (r: &mut Self)
        ensures
            r.access_spec() == old(self).access_spec().merge(nested.access_spec()),
            r.required_spec() == old(self).required_spec().merge(nested.required_spec()),
            conjoined(r.filter_spec(), old(self).filter_spec(), nested.filter_spec()),
            *final(self) == *final(r),
    {
        let ghost nested_filter = nested.filter;
        let mut parts: Vec<FilterDesc> = Vec::new();
        parts.push(self.filter.duplicate());
        parts.push(nested.filter);
        let combined = FilterDesc::And(parts);
        proof {
            assert forall|sig: Seq<ComponentId>| #[trigger] filter_matches(sig, combined)
                == (filter_matches(sig, self.filter) && filter_matches(sig, nested_filter)) by {
                crate::query::access::lemma_filter_matches_unfold(sig, parts);
                assert(filter_matches(sig, parts@[0]) == filter_matches(sig, self.filter));
                assert(parts@[1] == nested_filter);
            }
        }
        self.merge_filter(combined);
        self.access.merge(&nested.access);
        self.required.merge(&nested.required);
        self
    }

    /// Requires the nested builder's filter (its access is not taken over).
    pub fn or(&mut self, nested: QueryBuilder) -> (r: &mut Self)
        ensures
            r.access_spec() == old(self).access_spec(),
            r.required_spec() == old(self).required_spec(),
            conjoined(r.filter_spec(), old(self).filter_spec(), nested.filter_spec()),
            *final(self) == *final(r),
    {
        let ghost nested_filter = nested.filter;
        let mut parts: Vec<FilterDesc> = Vec::new();
        parts.push(nested.filter);
        let combined = FilterDesc::Or(parts);
        proof {
            assert forall|sig: Seq<ComponentId>| #[trigger] filter_matches(sig, combined) == filter_matches(sig, nested_filter) by {
                crate::query::access::lemma_filter_matches_unfold(sig, parts);
                assert(parts@[0] == nested_filter);
            }
        }
        self.merge_filter(combined);
        self
    }

    /// Takes over the nested builder's access as optional terms: they are granted, but a
    /// matched archetype need not hold them, and the nested filter is not required.
    pub fn optional(&mut self, nested: QueryBuilder) -> (r: &mut Self)
        ensures
            r.access_spec() == old(self).access_spec().merge(nested.access_spec()),
            r.required_spec() == old(self).required_spec(),
            r.filter_spec() == old(self).filter_spec(),
            *final(self) == *final(r),
    {
        self.access.merge(&nested.access);
        self
    }

    pub fn access(&self) -> (a: &QueryAccess)
        ensures
            a@ == self.access_spec(),
    {
        &self.access
    }

    /// A query state for this access and filter, matched against the world's archetypes.
    pub fn build<V>(&self, world: &World<V>) -> (s: QueryState)
        requires
            world.wf(),
        ensures
            s.access@ == self.access_spec(),
            s.required@ == self.required_spec(),
            same_structure(s.filter, self.filter_spec()),
            same_filter(s.filter, self.filter_spec()),
            s.matched() == matching_indices(world.archetypes_spec(), self.required_spec(), self.filter_spec(), world.archetypes_spec().len() as int),
            s.counted() == world.archetype_count(),
    {
        let mut state = QueryState::with_required(self.access.duplicate(), self.required.duplicate(), self.filter.duplicate());
        state.update(world);
        proof {
            lemma_matching_indices_same_filter(world.archetypes_spec(), self.required@, state.filter, self.filter, world.archetypes_spec().len() as int);
        }
        state
    }

    /// Like [`QueryBuilder::build`], recomputing the match list unconditionally.
    pub fn build_fresh<V>(&self, world: &World<V>) -> (s: QueryState)
        requires
            world.wf(),
        ensures
            s.access@ == self.access_spec(),
            s.required@ == self.required_spec(),
            same_structure(s.filter, self.filter_spec()),
            same_filter(s.filter, self.filter_spec()),
            s.matched() == matching_indices(world.archetypes_spec(), self.required_spec(), self.filter_spec(), world.archetypes_spec().len() as int),
            s.counted() == world.archetype_count(),
    {
        let mut state = QueryState::with_required(self.access.duplicate(), self.required.duplicate(), self.filter.duplicate());
        state.force_update(world);
        proof {
            lemma_matching_indices_same_filter(world.archetypes_spec(), self.required@, state.filter, self.filter, world.archetypes_spec().len() as int);
        }
        state
    }

    /// Conjoins `filter` with the current filter; `All` on either side leaves the other.
    fn merge_filter(&mut self, filter: FilterDesc)
        ensures
            final(self).access == old(self).access,
            final(self).required == old(self).required,
            conjoined(final(self).filter, old(self).filter, filter),
    {
        let mut existing = FilterDesc::All;
        std::mem::swap(&mut existing, &mut self.filter);
        let ghost e = existing;
        let ghost f = filter;
        self.filter = match (existing, filter) {
            (FilterDesc::All, new) => new,
            (old_filter, FilterDesc::All) => old_filter,
            (old_filter, new) => {
                let mut parts: Vec<FilterDesc> = Vec::new();
                parts.push(old_filter);
                parts.push(new);
                proof {
                    assert forall|sig: Seq<ComponentId>| #[trigger] filter_matches(sig, FilterDesc::And(parts))
                        == (filter_matches(sig, e) && filter_matches(sig, f)) by {
                        crate::query::access::lemma_filter_matches_unfold(sig, parts);
                        assert(parts@[0] == e);
                        assert(parts@[1] == f);
                    }
                }
                FilterDesc::And(parts)
            },
        };
    }
}

impl Default for QueryBuilder {
    fn default() -> (b: Self)
        ensures
            b.access_spec() == AccessModel::empty(),
            b.required_spec() == AccessModel::empty(),
            b.filter_spec() == FilterDesc::All,
    {
        Self::new()
    }
}

} // verus!

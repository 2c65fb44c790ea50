use vstd::prelude::*;

use crate::archetype::{ascending_ids, Archetype};
use crate::query::access::{filter_matches, FilterDesc};
use crate::storage::ComponentId;

verus! {

/// A filter on archetype signatures, known at the call site.
pub trait QueryFilter {
    /// Whether the filter accepts an archetype with signature `sig`.
    spec fn accepts(&self, sig: Seq<ComponentId>) -> bool;

    fn to_desc(&self) -> (d: FilterDesc)
        ensures
            forall|sig: Seq<ComponentId>| #[trigger] filter_matches(sig, d) == self.accepts(sig),
    ;

    fn matches<V>(&self, archetype: &Archetype<V>) -> (b: bool)
        ensures
            ascending_ids(archetype.sig()) ==> b == self.accepts(archetype.sig()),
    ;
}

/// Archetype must contain the component kind.
pub struct With(pub ComponentId);

/// Archetype must not contain the component kind.
pub struct Without(pub ComponentId);

/// No constraint.
pub struct Allow;

/// Both filters must accept.
pub struct And<F1, F2>(pub F1, pub F2);

/// Either filter must accept.
pub struct Or<F1, F2>(pub F1, pub F2);

impl QueryFilter for Allow {
    open spec fn accepts(&self, sig: Seq<ComponentId>) -> bool {
        true
    }

    fn to_desc(&self) -> (d: FilterDesc) {
        FilterDesc::All
    }

    fn matches<V>(&self, archetype: &Archetype<V>) -> (b: bool) {
        true
    }
}

impl QueryFilter for With {
    open spec fn accepts(&self, sig: Seq<ComponentId>) -> bool {
        sig.contains(self.0)
    }

    fn to_desc(&self) -> (d: FilterDesc) {
        FilterDesc::With(self.0)
    }

    fn matches<V>(&self, archetype: &Archetype<V>) -> (b: bool) {
        archetype.has_component(self.0)
    }
}

impl QueryFilter for Without {
    open spec fn accepts(&self, sig: Seq<ComponentId>) -> bool {
        !sig.contains(self.0)
    }

    fn to_desc(&self) -> (d: FilterDesc) {
        FilterDesc::Without(self.0)
    }

    fn matches<V>(&self, archetype: &Archetype<V>) -> (b: bool) {
        !archetype.has_component(self.0)
    }
}

impl<F1: QueryFilter, F2: QueryFilter> QueryFilter for And<F1, F2> {
    open spec fn accepts(&self, sig: Seq<ComponentId>) -> bool {
        self.0.accepts(sig) && self.1.accepts(sig)
    }

    fn to_desc(&self) -> (d: FilterDesc) {
        let mut parts: Vec<FilterDesc> = Vec::new();
        parts.push(self.0.to_desc());
        parts.push(self.1.to_desc());
        proof {
            assert forall|sig: Seq<ComponentId>| #[trigger] filter_matches(sig, FilterDesc::And(parts)) == self.accepts(sig) by {
                crate::query::access::lemma_filter_matches_unfold(sig, parts);
                assert(filter_matches(sig, parts@[0]) == self.0.accepts(sig));
                assert(filter_matches(sig, parts@[1]) == self.1.accepts(sig));
            }
        }
        FilterDesc::and(parts)
    }

    fn matches<V>(&self, archetype: &Archetype<V>) -> (b: bool) {
        self.0.matches(archetype) && self.1.matches(archetype)
    }
}

impl<F1: QueryFilter, F2: QueryFilter> QueryFilter for Or<F1, F2> {
    open spec fn accepts(&self, sig: Seq<ComponentId>) -> bool {
        self.0.accepts(sig) || self.1.accepts(sig)
    }

    fn to_desc(&self) -> (d: FilterDesc) {
        let mut parts: Vec<FilterDesc> = Vec::new();
        parts.push(self.0.to_desc());
        parts.push(self.1.to_desc());
        proof {
            assert forall|sig: Seq<ComponentId>| #[trigger] filter_matches(sig, FilterDesc::Or(parts)) == self.accepts(sig) by {
                crate::query::access::lemma_filter_matches_unfold(sig, parts);
                assert(filter_matches(sig, parts@[0]) == self.0.accepts(sig));
                assert(filter_matches(sig, parts@[1]) == self.1.accepts(sig));
                if self.accepts(sig) {
                    if self.0.accepts(sig) {
                        assert(filter_matches(sig, parts@[0]));
                    } else {
                        assert(filter_matches(sig, parts@[1]));
                    }
                }
            }
        }
        FilterDesc::or(parts)
    }

    fn matches<V>(&self, archetype: &Archetype<V>) -> (b: bool) {
        self.0.matches(archetype) || self.1.matches(archetype)
    }
}

/// Law: `With(c)` accepts a signature exactly when it holds `c`, `Without(c)` exactly when it
/// does not, and `Allow` accepts every signature.
pub proof fn lemma_simple_filters_accept(c: ComponentId, sig: Seq<ComponentId>)
    ensures
        With(c).accepts(sig) == sig.contains(c),
        Without(c).accepts(sig) == !sig.contains(c),
        With(c).accepts(sig) != Without(c).accepts(sig),
        Allow.accepts(sig),
{
}

/// Law: `And(f, g)` accepts a signature exactly when both `f` and `g` accept it, and
/// `Or(f, g)` exactly when at least one of them does.
pub proof fn lemma_combined_filters_accept<F1: QueryFilter, F2: QueryFilter>(f: F1, g: F2, sig: Seq<ComponentId>)
    ensures
        And(f, g).accepts(sig) == (f.accepts(sig) && g.accepts(sig)),
        Or(f, g).accepts(sig) == (f.accepts(sig) || g.accepts(sig)),
{
}

} // verus!

use vstd::prelude::*;

use crate::archetype::{ascending_ids, search_signature};
use crate::storage::ComponentId;

verus! {

/// Whether `ids` holds `id`.
pub(crate) fn contains_id(ids: &Vec<ComponentId>, id: ComponentId) -> (b: bool)
    ensures
        b == ids@.contains(id),
{
    let mut i: usize = 0;
    while i < ids.len()
        invariant
            0 <= i <= ids@.len(),
            forall|k: int| 0 <= k < i ==> ids@[k] != id,
        decreases ids@.len() - i,
    {
        if ids[i] == id {
            return true;
        }
        i = i + 1;
    }
    false
}

/// The predicate that keeps every id but `id`.
pub open spec fn other_than(id: ComponentId) -> spec_fn(ComponentId) -> bool {
    |x: ComponentId| x != id
}

/// The lists of a [`QueryAccess`] as mathematical sequences.
pub struct AccessModel {
    pub reads: Seq<ComponentId>,
    pub writes: Seq<ComponentId>,
}

impl AccessModel {
    pub open spec fn empty() -> Self {
        AccessModel { reads: Seq::empty(), writes: Seq::empty() }
    }

    /// Declares a read: added unless the id is already read or written.
    pub open spec fn read(self, id: ComponentId) -> Self {
        if self.reads.contains(id) || self.writes.contains(id) {
            self
        } else {
            AccessModel { reads: self.reads.push(id), writes: self.writes }
        }
    }

    /// Declares a write: the id leaves the reads and joins the writes once.
    pub open spec fn write(self, id: ComponentId) -> Self {
        AccessModel {
            reads: self.reads.filter(other_than(id)),
            writes: if self.writes.contains(id) { self.writes } else { self.writes.push(id) },
        }
    }

    pub open spec fn read_all(self, ids: Seq<ComponentId>) -> Self
        decreases ids.len(),
    {
        if ids.len() == 0 {
            self
        } else {
            self.read_all(ids.drop_last()).read(ids.last())
        }
    }

    pub open spec fn write_all(self, ids: Seq<ComponentId>) -> Self
        decreases ids.len(),
    {
        if ids.len() == 0 {
            self
        } else {
            self.write_all(ids.drop_last()).write(ids.last())
        }
    }

    /// Every read of `other` is declared as a read, then every write as a write.
    pub open spec fn merge(self, other: AccessModel) -> Self {
        self.read_all(other.reads).write_all(other.writes)
    }

    pub open spec fn can_read(self, id: ComponentId) -> bool {
        self.reads.contains(id) || self.writes.contains(id)
    }

    pub open spec fn can_write(self, id: ComponentId) -> bool {
        self.writes.contains(id)
    }

    /// No id is listed twice, and none is both read and written.
    pub open spec fn wf(self) -> bool {
        &&& self.reads.no_duplicates()
        &&& self.writes.no_duplicates()
        &&& forall|k: int| 0 <= k < self.reads.len() ==> !self.writes.contains(#[trigger] self.reads[k])
    }
}

/// Describes which component columns a query may read or write.
#[derive(Debug, Clone, PartialEq, Eq)]
pub struct QueryAccess {
    pub reads: Vec<ComponentId>,
    pub writes: Vec<ComponentId>,
}

impl View for QueryAccess {
    type V = AccessModel;

    open spec fn view(&self) -> AccessModel {
        AccessModel { reads: self.reads@, writes: self.writes@ }
    }
}

impl QueryAccess {
    pub fn new() -> (a: Self)
        ensures
            a@ == AccessModel::empty(),
    {
        QueryAccess { reads: Vec::new(), writes: Vec::new() }
    }

    /// A copy with the same lists.
    pub fn duplicate(&self) -> (a: Self)
        ensures
            a@ == self@,
    {
        let reads = self.reads.clone();
        let writes = self.writes.clone();
        assert(reads@ =~= self.reads@);
        assert(writes@ =~= self.writes@);
        QueryAccess { reads, writes }
    }

    pub fn read(&mut self, id: ComponentId)
        ensures
            final(self)@ == old(self)@.read(id),
    {
        if !contains_id(&self.reads, id) && !contains_id(&self.writes, id) {
            self.reads.push(id);
        }
    }

    pub fn write(&mut self, id: ComponentId)
        ensures
            final(self)@ == old(self)@.write(id),
    {
        if contains_id(&self.reads, id) {
            let mut kept: Vec<ComponentId> = Vec::new();
            let mut i: usize = 0;
            while i < self.reads.len()
                invariant
                    0 <= i <= self.reads@.len(),
                    kept@ == self.reads@.take(i as int).filter(other_than(id)),
                decreases self.reads@.len() - i,
            {
                let x = self.reads[i];
                proof {
                    self.reads@.take(i as int).lemma_filter_push(x, other_than(id));
                    assert(self.reads@.take(i as int).push(x) =~= self.reads@.take(i + 1 as int));
                }
                if x != id {
                    kept.push(x);
                }
                i = i + 1;
            }
            assert(self.reads@.take(self.reads@.len() as int) =~= self.reads@);
            self.reads = kept;
        } else {
            proof {
                lemma_filter_all_kept(self.reads@, id);
            }
        }
        if !contains_id(&self.writes, id) {
            self.writes.push(id);
        }
    }

    pub fn can_read(&self, id: ComponentId) -> (b: bool)
        ensures
            b == self@.can_read(id),
    {
        contains_id(&self.reads, id) || contains_id(&self.writes, id)
    }

    pub fn can_write(&self, id: ComponentId) -> (b: bool)
        ensures
            b == self@.can_write(id),
    {
        contains_id(&self.writes, id)
    }

    /// Declares every read of `other` as a read, then every write of `other` as a write.
    pub fn merge(&mut self, other: &QueryAccess)
        ensures
            final(self)@ == old(self)@.merge(other@),
    {
        let mut i: usize = 0;
        while i < other.reads.len()
            invariant
                0 <= i <= other.reads@.len(),
                self@ == old(self)@.read_all(other.reads@.take(i as int)),
            decreases other.reads@.len() - i,
        {
            proof {
                assert(other.reads@.take(i + 1 as int).drop_last() =~= other.reads@.take(i as int));
            }
            self.read(other.reads[i]);
            i = i + 1;
        }
        assert(other.reads@.take(other.reads@.len() as int) =~= other.reads@);
        let ghost mid = self@;
        let mut j: usize = 0;
        while j < other.writes.len()
            invariant
                0 <= j <= other.writes@.len(),
                self@ == mid.write_all(other.writes@.take(j as int)),
            decreases other.writes@.len() - j,
        {
            proof {
                assert(other.writes@.take(j + 1 as int).drop_last() =~= other.writes@.take(j as int));
            }
            self.write(other.writes[j]);
            j = j + 1;
        }
        assert(other.writes@.take(other.writes@.len() as int) =~= other.writes@);
    }
}

impl Default for QueryAccess {
    fn default() -> (a: Self)
        ensures
            a@ == AccessModel::empty(),
    {
        Self::new()
    }
}

proof fn lemma_filter_all_kept(s: Seq<ComponentId>, id: ComponentId)
    requires
        !s.contains(id),
    ensures
        s.filter(other_than(id)) == s,
    decreases s.len(),
{
    if s.len() > 0 {
        lemma_filter_all_kept(s.drop_last(), id);
        assert(s.drop_last().push(s.last()) =~= s);
        assert(s[s.len() - 1] != id);
        s.drop_last().lemma_filter_push(s.last(), other_than(id));
    } else {
        reveal(Seq::filter);
        assert(s.filter(other_than(id)) =~= s);
    }
}

/// Reading distinct ids into an empty access lists them in order.
proof fn lemma_read_all_fresh(reads: Seq<ComponentId>)
    requires
        reads.no_duplicates(),
    ensures
        AccessModel::empty().read_all(reads) == (AccessModel { reads, writes: Seq::empty() }),
    decreases reads.len(),
{
    if reads.len() > 0 {
        let prefix = reads.drop_last();
        assert(prefix.no_duplicates());
        lemma_read_all_fresh(prefix);
        assert(!prefix.contains(reads.last()));
        assert(prefix.push(reads.last()) =~= reads);
    } else {
        assert(reads =~= Seq::<ComponentId>::empty());
    }
}

/// Writing distinct ids that are not read appends them to the writes.
proof fn lemma_write_all_fresh(reads: Seq<ComponentId>, writes: Seq<ComponentId>)
    requires
        writes.no_duplicates(),
        forall|k: int| 0 <= k < reads.len() ==> !writes.contains(#[trigger] reads[k]),
    ensures
        (AccessModel { reads, writes: Seq::empty() }).write_all(writes) == (AccessModel { reads, writes }),
    decreases writes.len(),
{
    if writes.len() > 0 {
        let prefix = writes.drop_last();
        let x = writes.last();
        assert(prefix.no_duplicates());
        assert forall|k: int| 0 <= k < reads.len() implies !prefix.contains(#[trigger] reads[k]) by {
            if prefix.contains(reads[k]) {
                let j = choose|j: int| 0 <= j < prefix.len() && prefix[j] == reads[k];
                assert(writes[j] == reads[k]);
            }
        }
        lemma_write_all_fresh(reads, prefix);
        assert(!prefix.contains(x));
        assert(!reads.contains(x)) by {
            if reads.contains(x) {
                let k = choose|k: int| 0 <= k < reads.len() && reads[k] == x;
                assert(writes.contains(reads[k]));
            }
        }
        lemma_filter_all_kept(reads, x);
        assert(prefix.push(x) =~= writes);
    } else {
        assert(writes =~= Seq::<ComponentId>::empty());
    }
}

/// Merging a well-formed access into an empty one reproduces it.
pub proof fn lemma_merge_into_empty(m: AccessModel)
    requires
        m.wf(),
    ensures
        AccessModel::empty().merge(m) == m,
{
    lemma_read_all_fresh(m.reads);
    lemma_write_all_fresh(m.reads, m.writes);
}

/// Dropping every occurrence of `id` keeps the other ids, and keeps them distinct.
proof fn lemma_filter_other_than(s: Seq<ComponentId>, id: ComponentId)
    ensures
        forall|x: ComponentId| #[trigger] s.filter(other_than(id)).contains(x) <==> (s.contains(x) && x != id),
        s.no_duplicates() ==> s.filter(other_than(id)).no_duplicates(),
    decreases s.len(),
{
    reveal(Seq::filter);
    if s.len() > 0 {
        let p = s.drop_last();
        lemma_filter_other_than(p, id);
        let fp = p.filter(other_than(id));
        assert forall|x: ComponentId| #[trigger] s.filter(other_than(id)).contains(x) <==> (s.contains(x) && x != id) by {
            if s.contains(x) && x != id {
                let k = choose|k: int| 0 <= k < s.len() && s[k] == x;
                if k < s.len() - 1 {
                    assert(p[k] == x);
                    assert(fp.contains(x));
                    let j = choose|j: int| 0 <= j < fp.len() && fp[j] == x;
                    assert(s.filter(other_than(id))[j] == x);
                } else {
                    assert(s.filter(other_than(id)) == fp.push(x));
                    assert(s.filter(other_than(id))[fp.len() as int] == x);
                }
            }
            if s.filter(other_than(id)).contains(x) {
                let j = choose|j: int| 0 <= j < s.filter(other_than(id)).len() && s.filter(other_than(id))[j] == x;
                if other_than(id)(s.last()) && j == fp.len() {
                    assert(s[s.len() - 1] == x);
                } else {
                    assert(fp[j] == x);
                    assert(fp.contains(x));
                    let k = choose|k: int| 0 <= k < p.len() && p[k] == x;
                    assert(s[k] == x);
                }
            }
        }
        if s.no_duplicates() {
            assert(p.no_duplicates());
            if other_than(id)(s.last()) {
                assert(!p.contains(s.last())) by {
                    if p.contains(s.last()) {
                        let k = choose|k: int| 0 <= k < p.len() && p[k] == s.last();
                        assert(s[k] == s[s.len() - 1]);
                    }
                }
                assert(!fp.contains(s.last()));
                let f = s.filter(other_than(id));
                assert forall|a: int, b: int| 0 <= a < f.len() && 0 <= b < f.len() && a != b implies f[a] != f[b] by {
                    if a == fp.len() {
                        assert(fp.contains(f[b]));
                    } else if b == fp.len() {
                        assert(fp.contains(f[a]));
                    } else {
                        assert(f[a] == fp[a] && f[b] == fp[b]);
                    }
                }
            }
        }
    }
}

/// Law: declaring a read keeps a well-formed access well formed, grants read access to the
/// id and keeps every access already granted.
pub proof fn lemma_access_read(a: AccessModel, id: ComponentId)
    requires
        a.wf(),
    ensures
        a.read(id).wf(),
        a.read(id).can_read(id),
        !a.read(id).can_write(id) <==> !a.can_write(id),
        a.read(id).writes == a.writes,
        forall|x: ComponentId| a.can_read(x) ==> #[trigger] a.read(id).can_read(x),
{
    if !(a.reads.contains(id) || a.writes.contains(id)) {
        let r = a.read(id);
        assert(r.reads[r.reads.len() - 1] == id);
        assert forall|x: ComponentId| a.reads.contains(x) implies #[trigger] r.reads.contains(x) by {
            let k = choose|k: int| 0 <= k < a.reads.len() && a.reads[k] == x;
            assert(r.reads[k] == x);
        }
        assert forall|i: int, j: int| 0 <= i < r.reads.len() && 0 <= j < r.reads.len() && i != j implies r.reads[i] != r.reads[j] by {
            if i == a.reads.len() {
                assert(a.reads.contains(r.reads[j]));
            } else if j == a.reads.len() {
                assert(a.reads.contains(r.reads[i]));
            }
        }
        assert forall|k: int| 0 <= k < r.reads.len() implies !r.writes.contains(#[trigger] r.reads[k]) by {
            if k < a.reads.len() {
                assert(r.reads[k] == a.reads[k]);
            }
        }
    }
}

/// Law: declaring a write keeps a well-formed access well formed, moves the id from the
/// reads to the writes, and keeps every access already granted.
pub proof fn lemma_access_write(a: AccessModel, id: ComponentId)
    requires
        a.wf(),
    ensures
        a.write(id).wf(),
        a.write(id).can_write(id),
        a.write(id).can_read(id),
        !a.write(id).reads.contains(id),
        forall|x: ComponentId| a.can_read(x) ==> #[trigger] a.write(id).can_read(x),
        forall|x: ComponentId| a.can_write(x) ==> #[trigger] a.write(id).can_write(x),
{
    let w = a.write(id);
    lemma_filter_other_than(a.reads, id);
    if !a.writes.contains(id) {
        assert(w.writes[w.writes.len() - 1] == id);
        assert forall|x: ComponentId| a.writes.contains(x) implies #[trigger] w.writes.contains(x) by {
            let k = choose|k: int| 0 <= k < a.writes.len() && a.writes[k] == x;
            assert(w.writes[k] == x);
        }
        assert forall|i: int, j: int| 0 <= i < w.writes.len() && 0 <= j < w.writes.len() && i != j implies w.writes[i] != w.writes[j] by {
            if i == a.writes.len() {
                assert(a.writes.contains(w.writes[j]));
            } else if j == a.writes.len() {
                assert(a.writes.contains(w.writes[i]));
            }
        }
    }
    assert forall|k: int| 0 <= k < w.reads.len() implies !w.writes.contains(#[trigger] w.reads[k]) by {
        let x = w.reads[k];
        assert(w.reads.contains(x));
        assert(a.reads.contains(x) && x != id);
        let j = choose|j: int| 0 <= j < a.reads.len() && a.reads[j] == x;
        assert(!a.writes.contains(a.reads[j]));
        if w.writes.contains(x) {
            let m = choose|m: int| 0 <= m < w.writes.len() && w.writes[m] == x;
            if !a.writes.contains(id) && m == a.writes.len() {
            } else {
                assert(a.writes[m] == x);
            }
        }
    }
    assert forall|x: ComponentId| a.can_read(x) implies #[trigger] w.can_read(x) by {
        if a.reads.contains(x) && x != id {
            assert(w.reads.contains(x));
        }
        if a.writes.contains(x) {
            let k = choose|k: int| 0 <= k < a.writes.len() && a.writes[k] == x;
            assert(w.writes[k] == x);
        }
    }
    assert forall|x: ComponentId| a.can_write(x) implies #[trigger] w.can_write(x) by {
        let k = choose|k: int| 0 <= k < a.writes.len() && a.writes[k] == x;
        assert(w.writes[k] == x);
    }
}

proof fn lemma_read_all(a: AccessModel, ids: Seq<ComponentId>)
    requires
        a.wf(),
    ensures
        a.read_all(ids).wf(),
        forall|x: ComponentId| a.can_read(x) ==> #[trigger] a.read_all(ids).can_read(x),
        forall|x: ComponentId| a.can_write(x) ==> #[trigger] a.read_all(ids).can_write(x),
        forall|k: int| 0 <= k < ids.len() ==> a.read_all(ids).can_read(#[trigger] ids[k]),
    decreases ids.len(),
{
    if ids.len() > 0 {
        let p = ids.drop_last();
        lemma_read_all(a, p);
        let b = a.read_all(p);
        lemma_access_read(b, ids.last());
        assert forall|k: int| 0 <= k < ids.len() implies a.read_all(ids).can_read(#[trigger] ids[k]) by {
            if k < ids.len() - 1 {
                assert(b.can_read(p[k]));
            }
        }
        assert forall|x: ComponentId| a.can_write(x) implies #[trigger] a.read_all(ids).can_write(x) by {
            assert(b.can_write(x));
        }
    }
}

proof fn lemma_write_all(a: AccessModel, ids: Seq<ComponentId>)
    requires
        a.wf(),
    ensures
        a.write_all(ids).wf(),
        forall|x: ComponentId| a.can_read(x) ==> #[trigger] a.write_all(ids).can_read(x),
        forall|x: ComponentId| a.can_write(x) ==> #[trigger] a.write_all(ids).can_write(x),
        forall|k: int| 0 <= k < ids.len() ==> a.write_all(ids).can_write(#[trigger] ids[k]),
    decreases ids.len(),
{
    if ids.len() > 0 {
        let p = ids.drop_last();
        lemma_write_all(a, p);
        let b = a.write_all(p);
        lemma_access_write(b, ids.last());
        assert forall|k: int| 0 <= k < ids.len() implies a.write_all(ids).can_write(#[trigger] ids[k]) by {
            if k < ids.len() - 1 {
                assert(b.can_write(p[k]));
            }
        }
        assert forall|x: ComponentId| a.can_read(x) implies #[trigger] a.write_all(ids).can_read(x) by {
            assert(b.can_read(x));
        }
        assert forall|x: ComponentId| a.can_write(x) implies #[trigger] a.write_all(ids).can_write(x) by {
            assert(b.can_write(x));
        }
    }
}

/// Law: merging keeps a well-formed access well formed and grants every access either side
/// granted.
pub proof fn lemma_access_merge(a: AccessModel, b: AccessModel)
    requires
        a.wf(),
    ensures
        a.merge(b).wf(),
        forall|x: ComponentId| (a.can_read(x) || b.can_read(x)) ==> #[trigger] a.merge(b).can_read(x),
        forall|x: ComponentId| (a.can_write(x) || b.can_write(x)) ==> #[trigger] a.merge(b).can_write(x),
{
    lemma_read_all(a, b.reads);
    let r = a.read_all(b.reads);
    lemma_write_all(r, b.writes);
    assert forall|x: ComponentId| (a.can_read(x) || b.can_read(x)) implies #[trigger] a.merge(b).can_read(x) by {
        if b.reads.contains(x) {
            let k = choose|k: int| 0 <= k < b.reads.len() && b.reads[k] == x;
            assert(r.can_read(b.reads[k]));
        } else if b.writes.contains(x) {
            let k = choose|k: int| 0 <= k < b.writes.len() && b.writes[k] == x;
            assert(r.write_all(b.writes).can_write(b.writes[k]));
        } else {
            assert(r.can_read(x));
        }
    }
    assert forall|x: ComponentId| (a.can_write(x) || b.can_write(x)) implies #[trigger] a.merge(b).can_write(x) by {
        if b.writes.contains(x) {
            let k = choose|k: int| 0 <= k < b.writes.len() && b.writes[k] == x;
            assert(r.write_all(b.writes).can_write(b.writes[k]));
        } else {
            assert(r.can_write(x));
        }
    }
}

/// Law: a `With` filter and a `Without` filter on the same kind accept complementary
/// signatures; an empty conjunction accepts everything and an empty disjunction nothing.
pub proof fn lemma_filter_basics(sig: Seq<ComponentId>, id: ComponentId, empty: Vec<FilterDesc>)
    requires
        empty@.len() == 0,
    ensures
        filter_matches(sig, FilterDesc::With(id)) == sig.contains(id),
        filter_matches(sig, FilterDesc::Without(id)) == !sig.contains(id),
        filter_matches(sig, FilterDesc::With(id)) != filter_matches(sig, FilterDesc::Without(id)),
        filter_matches(sig, FilterDesc::All),
        filter_matches(sig, FilterDesc::And(empty)),
        !filter_matches(sig, FilterDesc::Or(empty)),
{
    lemma_filter_matches_unfold(sig, empty);
}

/// Archetype filter expression evaluated at runtime.
#[derive(Debug, PartialEq, Eq)]
pub enum FilterDesc {
    All,
    With(ComponentId),
    Without(ComponentId),
    And(Vec<FilterDesc>),
    Or(Vec<FilterDesc>),
}

/// Whether an archetype with signature `sig` passes the filter.
pub open spec fn filter_matches(sig: Seq<ComponentId>, f: FilterDesc) -> bool
    decreases f,
{
    match f {
        FilterDesc::All => true,
        FilterDesc::With(id) => sig.contains(id),
        FilterDesc::Without(id) => !sig.contains(id),
        FilterDesc::And(fs) => forall|i: int| 0 <= i < fs@.len() ==> filter_matches(sig, #[trigger] fs@[i]),
        FilterDesc::Or(fs) => exists|i: int| 0 <= i < fs@.len() && filter_matches(sig, #[trigger] fs@[i]),
    }
}

/// Two filters accept the same signatures.
pub open spec fn same_filter(a: FilterDesc, b: FilterDesc) -> bool {
    forall|sig: Seq<ComponentId>| #[trigger] filter_matches(sig, a) == filter_matches(sig, b)
}

/// The two filters are built the same way: the same variant, the same ids, and the same
/// number of parts, each built the same way as its counterpart.
pub open spec fn same_structure(a: FilterDesc, b: FilterDesc) -> bool
    decreases a,
{
    match a {
        FilterDesc::All => b is All,
        FilterDesc::With(id) => b == FilterDesc::With(id),
        FilterDesc::Without(id) => b == FilterDesc::Without(id),
        FilterDesc::And(fs) => b is And && b->And_0@.len() == fs@.len()
            && forall|i: int| 0 <= i < fs@.len() ==> same_structure(#[trigger] fs@[i], b->And_0@[i]),
        FilterDesc::Or(fs) => b is Or && b->Or_0@.len() == fs@.len()
            && forall|i: int| 0 <= i < fs@.len() ==> same_structure(#[trigger] fs@[i], b->Or_0@[i]),
    }
}

/// One step of the definition of [`same_structure`] for a conjunction and a disjunction.
pub proof fn lemma_same_structure_unfold(fs: Vec<FilterDesc>, gs: Vec<FilterDesc>)
    ensures
        same_structure(FilterDesc::And(fs), FilterDesc::And(gs)) == (gs@.len() == fs@.len()
            && forall|k: int| 0 <= k < fs@.len() ==> same_structure(#[trigger] fs@[k], gs@[k])),
        same_structure(FilterDesc::Or(fs), FilterDesc::Or(gs)) == (gs@.len() == fs@.len()
            && forall|k: int| 0 <= k < fs@.len() ==> same_structure(#[trigger] fs@[k], gs@[k])),
{
    let a = FilterDesc::And(fs);
    let o = FilterDesc::Or(fs);
    assert(decreases_to!(a => a->And_0));
    assert(decreases_to!(a->And_0 => a->And_0@));
    assert(decreases_to!(o => o->Or_0));
    assert(decreases_to!(o->Or_0 => o->Or_0@));
    assert forall|k: int| 0 <= k < fs@.len() implies decreases_to!(a => #[trigger] fs@[k]) && decreases_to!(o => fs@[k]) by {
        assert(decreases_to!(a->And_0@ => a->And_0@[k]));
        assert(decreases_to!(o->Or_0@ => o->Or_0@[k]));
    }
}

/// One step of the definition of [`filter_matches`] for a conjunction and a disjunction.
pub proof fn lemma_filter_matches_unfold(sig: Seq<ComponentId>, filters: Vec<FilterDesc>)
    ensures
        filter_matches(sig, FilterDesc::And(filters)) == (forall|k: int| 0 <= k < filters@.len() ==> filter_matches(sig, #[trigger] filters@[k])),
        filter_matches(sig, FilterDesc::Or(filters)) == (exists|k: int| 0 <= k < filters@.len() && filter_matches(sig, #[trigger] filters@[k])),
{
    let a = FilterDesc::And(filters);
    let o = FilterDesc::Or(filters);
    assert(decreases_to!(a => a->And_0));
    assert(decreases_to!(a->And_0 => a->And_0@));
    assert(decreases_to!(o => o->Or_0));
    assert(decreases_to!(o->Or_0 => o->Or_0@));
    assert forall|k: int| 0 <= k < filters@.len() implies decreases_to!(a => #[trigger] filters@[k]) && decreases_to!(o => filters@[k]) by {
        assert(decreases_to!(a->And_0@ => a->And_0@[k]));
        assert(decreases_to!(o->Or_0@ => o->Or_0@[k]));
    }
}

impl FilterDesc {
    pub fn with(id: ComponentId) -> (f: Self)
        ensures
            f == FilterDesc::With(id),
    {
        FilterDesc::With(id)
    }

    pub fn without(id: ComponentId) -> (f: Self)
        ensures
            f == FilterDesc::Without(id),
    {
        FilterDesc::Without(id)
    }

    pub fn and(filters: Vec<FilterDesc>) -> (f: Self)
        ensures
            f == FilterDesc::And(filters),
    {
        FilterDesc::And(filters)
    }

    pub fn or(filters: Vec<FilterDesc>) -> (f: Self)
        ensures
            f == FilterDesc::Or(filters),
    {
        FilterDesc::Or(filters)
    }

    /// A copy, built the same way, that accepts the same signatures.
    pub fn duplicate(&self) -> (f: Self)
        ensures
            same_structure(f, *self),
            same_filter(f, *self),
        decreases self,
    {
        match self {
            FilterDesc::All => FilterDesc::All,
            FilterDesc::With(id) => FilterDesc::With(*id),
            FilterDesc::Without(id) => FilterDesc::Without(*id),
            FilterDesc::And(filters) => {
                let copies = duplicate_filters(self, filters);
                proof {
                    assert forall|sig: Seq<ComponentId>| #[trigger] filter_matches(sig, FilterDesc::And(copies)) == filter_matches(sig, *self) by {
                        assert forall|k: int| 0 <= k < filters@.len() implies filter_matches(sig, #[trigger] copies@[k]) == filter_matches(sig, filters@[k]) by {
                            assert(same_filter(copies@[k], filters@[k]));
                        }
                        assert(*self == FilterDesc::And(*filters));
                        assert(filter_matches(sig, *self) == (forall|k: int| 0 <= k < filters@.len() ==> filter_matches(sig, #[trigger] filters@[k])));
                        lemma_filter_matches_unfold(sig, copies);
                        if filter_matches(sig, *self) {
                            assert forall|k: int| 0 <= k < copies@.len() implies filter_matches(sig, #[trigger] copies@[k]) by {
                                assert(filter_matches(sig, filters@[k]));
                            }
                        } else {
                            let k = choose|k: int| 0 <= k < filters@.len() && !filter_matches(sig, #[trigger] filters@[k]);
                            assert(!filter_matches(sig, copies@[k]));
                        }
                    }
                    lemma_same_structure_unfold(copies, *filters);
                }
                FilterDesc::And(copies)
            },
            FilterDesc::Or(filters) => {
                let copies = duplicate_filters(self, filters);
                proof {
                    assert forall|sig: Seq<ComponentId>| #[trigger] filter_matches(sig, FilterDesc::Or(copies)) == filter_matches(sig, *self) by {
                        lemma_filter_matches_unfold(sig, copies);
                        assert forall|k: int| 0 <= k < filters@.len() implies filter_matches(sig, #[trigger] copies@[k]) == filter_matches(sig, filters@[k]) by {
                            assert(same_filter(copies@[k], filters@[k]));
                        }
                        if filter_matches(sig, *self) {
                            let k = choose|k: int| 0 <= k < filters@.len() && filter_matches(sig, #[trigger] filters@[k]);
                            assert(filter_matches(sig, copies@[k]));
                        }
                        if filter_matches(sig, FilterDesc::Or(copies)) {
                            let k = choose|k: int| 0 <= k < copies@.len() && filter_matches(sig, #[trigger] copies@[k]);
                            assert(filter_matches(sig, filters@[k]));
                        }
                    }
                    lemma_same_structure_unfold(copies, *filters);
                }
                FilterDesc::Or(copies)
            },
        }
    }
}

/// Copies each filter of a conjunction or disjunction.
fn duplicate_filters(parent: &FilterDesc, filters: &Vec<FilterDesc>) -> (copies: Vec<FilterDesc>)
    requires
        *parent == FilterDesc::And(*filters) || *parent == FilterDesc::Or(*filters),
    ensures
        copies@.len() == filters@.len(),
        forall|k: int| 0 <= k < filters@.len() ==> same_filter(#[trigger] copies@[k], filters@[k]),
        forall|k: int| 0 <= k < filters@.len() ==> same_structure(#[trigger] copies@[k], filters@[k]),
    decreases parent, 0int,
{
    let mut copies: Vec<FilterDesc> = Vec::new();
    let mut i: usize = 0;
    while i < filters.len()
        invariant
            *parent == FilterDesc::And(*filters) || *parent == FilterDesc::Or(*filters),
            0 <= i <= filters@.len(),
            copies@.len() == i,
            forall|k: int| 0 <= k < i ==> same_filter(#[trigger] copies@[k], filters@[k]),
            forall|k: int| 0 <= k < i ==> same_structure(#[trigger] copies@[k], filters@[k]),
        decreases filters@.len() - i,
    {
        proof {
            if *parent == FilterDesc::And(*filters) {
                assert(decreases_to!(*parent => parent->And_0));
                assert(decreases_to!(parent->And_0 => parent->And_0@));
                assert(decreases_to!(parent->And_0@ => parent->And_0@[i as int]));
            } else {
                assert(decreases_to!(*parent => parent->Or_0));
                assert(decreases_to!(parent->Or_0 => parent->Or_0@));
                assert(decreases_to!(parent->Or_0@ => parent->Or_0@[i as int]));
            }
        }
        copies.push(filters[i].duplicate());
        i = i + 1;
    }
    copies
}

impl Clone for FilterDesc {
    /// A copy built the same way as the original (see [`FilterDesc::duplicate`]).
    fn clone(&self) -> (f: Self)
        ensures
            same_structure(f, *self),
            same_filter(f, *self),
    {
        self.duplicate()
    }
}

impl Default for FilterDesc {
    fn default() -> (f: Self)
        ensures
            f == FilterDesc::All,
    {
        FilterDesc::All
    }
}

/// Evaluates a filter against a signature (by binary search, so exact for signatures in
/// increasing order, repeats allowed).
pub fn matches_filter(signature: &Vec<ComponentId>, filter: &FilterDesc) -> (b: bool)
    ensures
        ascending_ids(signature@) ==> b == filter_matches(signature@, *filter),
    decreases filter,
{
    match filter {
        FilterDesc::All => true,
        FilterDesc::With(id) => search_signature(signature, *id).is_ok(),
        FilterDesc::Without(id) => search_signature(signature, *id).is_err(),
        FilterDesc::And(filters) => {
            let mut i: usize = 0;
            while i < filters.len()
                invariant
                    *filter == FilterDesc::And(*filters),
                    0 <= i <= filters@.len(),
                    ascending_ids(signature@) ==> forall|k: int| 0 <= k < i ==> filter_matches(signature@, #[trigger] filters@[k]),
                decreases filters@.len() - i,
            {
                proof {
                    assert(decreases_to!(*filter => filter->And_0));
                    assert(decreases_to!(filter->And_0 => filter->And_0@));
                    assert(decreases_to!(filter->And_0@ => filter->And_0@[i as int]));
                }
                if !matches_filter(signature, &filters[i]) {
                    proof {
                        assert(ascending_ids(signature@) ==> !filter_matches(signature@, filters@[i as int]));
                        assert(ascending_ids(signature@) ==> !filter_matches(signature@, *filter));
                    }
                    return false;
                }
                i = i + 1;
            }
            true
        },
        FilterDesc::Or(filters) => {
            let mut i: usize = 0;
            while i < filters.len()
                invariant
                    *filter == FilterDesc::Or(*filters),
                    0 <= i <= filters@.len(),
                    ascending_ids(signature@) ==> forall|k: int| 0 <= k < i ==> !filter_matches(signature@, #[trigger] filters@[k]),
                decreases filters@.len() - i,
            {
                proof {
                    assert(decreases_to!(*filter => filter->Or_0));
                    assert(decreases_to!(filter->Or_0 => filter->Or_0@));
                    assert(decreases_to!(filter->Or_0@ => filter->Or_0@[i as int]));
                }
                if matches_filter(signature, &filters[i]) {
                    proof {
                        assert(ascending_ids(signature@) ==> filter_matches(signature@, filters@[i as int]));
                        assert(ascending_ids(signature@) ==> filter_matches(signature@, *filter));
                    }
                    return true;
                }
                i = i + 1;
            }
            false
        },
    }
}

/// Whether the signature holds every id that the access reads or writes.
pub open spec fn access_matches(sig: Seq<ComponentId>, access: AccessModel) -> bool {
    &&& forall|k: int| 0 <= k < access.reads.len() ==> sig.contains(#[trigger] access.reads[k])
    &&& forall|k: int| 0 <= k < access.writes.len() ==> sig.contains(#[trigger] access.writes[k])
}

/// Law: an archetype passes an access exactly when its signature holds every id that the
/// access reads or writes; so the empty access is passed by every signature, the empty one
/// included, and a signature missing a declared id never passes.
pub proof fn lemma_access_matches_iff(sig: Seq<ComponentId>, access: AccessModel, id: ComponentId)
    ensures
        access_matches(sig, access) <==> (forall|x: ComponentId| #![trigger access.reads.contains(x)] #![trigger access.writes.contains(x)] (access.reads.contains(x) || access.writes.contains(x)) ==> sig.contains(x)),
        access_matches(sig, AccessModel::empty()),
        (access.reads.contains(id) || access.writes.contains(id)) && !sig.contains(id) ==> !access_matches(sig, access),
{
    if access_matches(sig, access) {
        assert forall|x: ComponentId| #![trigger access.reads.contains(x)] #![trigger access.writes.contains(x)] (access.reads.contains(x) || access.writes.contains(x)) implies sig.contains(x) by {
            if access.reads.contains(x) {
                let k = choose|k: int| 0 <= k < access.reads.len() && access.reads[k] == x;
                assert(sig.contains(access.reads[k]));
            } else {
                let k = choose|k: int| 0 <= k < access.writes.len() && access.writes[k] == x;
                assert(sig.contains(access.writes[k]));
            }
        }
    }
    if forall|x: ComponentId| #![trigger access.reads.contains(x)] #![trigger access.writes.contains(x)] (access.reads.contains(x) || access.writes.contains(x)) ==> sig.contains(x) {
        assert forall|k: int| 0 <= k < access.reads.len() implies sig.contains(#[trigger] access.reads[k]) by {
            assert(access.reads.contains(access.reads[k]));
        }
        assert forall|k: int| 0 <= k < access.writes.len() implies sig.contains(#[trigger] access.writes[k]) by {
            assert(access.writes.contains(access.writes[k]));
        }
    }
    if (access.reads.contains(id) || access.writes.contains(id)) && !sig.contains(id) {
        if access.reads.contains(id) {
            let k = choose|k: int| 0 <= k < access.reads.len() && access.reads[k] == id;
            assert(!sig.contains(access.reads[k]));
        } else {
            let k = choose|k: int| 0 <= k < access.writes.len() && access.writes[k] == id;
            assert(!sig.contains(access.writes[k]));
        }
    }
}

/// Checks that the signature holds every id that the access reads or writes.
pub fn matches_access(signature: &Vec<ComponentId>, access: &QueryAccess) -> (b: bool)
    ensures
        ascending_ids(signature@) ==> b == access_matches(signature@, access@),
{
    let mut i: usize = 0;
    while i < access.reads.len()
        invariant
            0 <= i <= access.reads@.len(),
            ascending_ids(signature@) ==> forall|k: int| 0 <= k < i ==> signature@.contains(#[trigger] access.reads@[k]),
        decreases access.reads@.len() - i,
    {
        if search_signature(signature, access.reads[i]).is_err() {
            proof {
                assert(ascending_ids(signature@) ==> !signature@.contains(access@.reads[i as int]));
                assert(ascending_ids(signature@) ==> !access_matches(signature@, access@));
            }
            return false;
        }
        i = i + 1;
    }
    let mut j: usize = 0;
    while j < access.writes.len()
        invariant
            0 <= j <= access.writes@.len(),
            ascending_ids(signature@) ==> forall|k: int| 0 <= k < access.reads@.len() ==> signature@.contains(#[trigger] access.reads@[k]),
            ascending_ids(signature@) ==> forall|k: int| 0 <= k < j ==> signature@.contains(#[trigger] access.writes@[k]),
        decreases access.writes@.len() - j,
    {
        if search_signature(signature, access.writes[j]).is_err() {
            proof {
                assert(ascending_ids(signature@) ==> !signature@.contains(access@.writes[j as int]));
                assert(ascending_ids(signature@) ==> !access_matches(signature@, access@));
            }
            return false;
        }
        j = j + 1;
    }
    true
}

} // verus!

use vstd::prelude::*;

use std::collections::HashMap;

use crate::entity::Entity;
use crate::storage::{ComponentId, TypedColumn};

verus! {

pub type ArchetypeId = u32;

/// A signature lists component kinds in strictly increasing order.
pub open spec fn sorted_ids(s: Seq<ComponentId>) -> bool {
    forall|i: int, j: int| 0 <= i < j < s.len() ==> s[i] < s[j]
}

/// The ids are in increasing order, repeats allowed.
pub open spec fn ascending_ids(s: Seq<ComponentId>) -> bool {
    forall|i: int, j: int| 0 <= i < j < s.len() ==> s[i] <= s[j]
}

/// The component map described by a signature and one value per signature entry.
pub open spec fn values_map<V>(sig: Seq<ComponentId>, values: Seq<V>) -> Map<ComponentId, V> {
    Map::new(|c: ComponentId| sig.contains(c), |c: ComponentId| values[sig.index_of(c)])
}

/// Looks `id` up in a signature by binary search: `Ok` with its position, or `Err` with the
/// position where it would be inserted to keep the signature sorted.
pub(crate) fn search_signature(sig: &Vec<ComponentId>, id: ComponentId) -> (r: Result<usize, usize>)
    ensures
        r matches Ok(i) ==> i < sig@.len() && sig@[i as int] == id,
        ascending_ids(sig@) ==> match r {
            Ok(i) => true,
            Err(p) => {
                &&& p <= sig@.len()
                &&& !sig@.contains(id)
                &&& forall|k: int| 0 <= k < p ==> sig@[k] < id
                &&& forall|k: int| p <= k < sig@.len() ==> sig@[k] > id
            },
        },
{
    let mut lo: usize = 0;
    let mut hi: usize = sig.len();
    while lo < hi
        invariant
            lo <= hi <= sig@.len(),
            ascending_ids(sig@) ==> forall|k: int| 0 <= k < lo ==> sig@[k] < id,
            ascending_ids(sig@) ==> forall|k: int| hi <= k < sig@.len() ==> sig@[k] > id,
        decreases hi - lo,
    {
        let mid = lo + (hi - lo) / 2;
        let m = sig[mid];
        if m == id {
            return Ok(mid);
        } else if m < id {
            lo = mid + 1;
        } else {
            hi = mid;
        }
    }
    proof {
        if ascending_ids(sig@) && sig@.contains(id) {
            let k = choose|k: int| 0 <= k < sig@.len() && sig@[k] == id;
            assert(sig@[k] == id);
        }
    }
    Err(lo)
}

/// In a sorted signature, the position of an entry is the only one holding it.
pub proof fn lemma_sorted_index_of(s: Seq<ComponentId>, i: int)
    requires
        sorted_ids(s),
        0 <= i < s.len(),
    ensures
        s.index_of(s[i]) == i,
{
    assert(s.contains(s[i]));
    let k = s.index_of(s[i]);
    assert(0 <= k < s.len() && s[k] == s[i]);
}

/// Inserting an id at its sorted position keeps the signature sorted and adds the id to its set.
pub proof fn lemma_sorted_insert(s: Seq<ComponentId>, p: int, id: ComponentId)
    requires
        sorted_ids(s),
        0 <= p <= s.len(),
        forall|k: int| 0 <= k < p ==> s[k] < id,
        forall|k: int| p <= k < s.len() ==> s[k] > id,
    ensures
        sorted_ids(s.insert(p, id)),
        s.insert(p, id).to_set() == s.to_set().insert(id),
{
    let t = s.insert(p, id);
    assert forall|c: ComponentId| t.to_set().contains(c) <==> s.to_set().insert(id).contains(c) by {
        if t.contains(c) {
            let k = choose|k: int| 0 <= k < t.len() && t[k] == c;
            if k < p {
                assert(s[k] == c);
            } else if k > p {
                assert(s[k - 1] == c);
            }
        }
        if s.contains(c) {
            let k = choose|k: int| 0 <= k < s.len() && s[k] == c;
            if k < p {
                assert(t[k] == c);
            } else {
                assert(t[k + 1] == c);
            }
        }
        if c == id {
            assert(t[p] == c);
        }
    }
    assert(t.to_set() =~= s.to_set().insert(id));
}

/// Removing the entry at a position keeps the signature sorted and drops that id from its set.
pub proof fn lemma_sorted_remove(s: Seq<ComponentId>, p: int)
    requires
        sorted_ids(s),
        0 <= p < s.len(),
    ensures
        sorted_ids(s.remove(p)),
        s.remove(p).to_set() == s.to_set().remove(s[p]),
{
    let t = s.remove(p);
    assert forall|c: ComponentId| t.to_set().contains(c) <==> s.to_set().remove(s[p]).contains(c) by {
        if t.contains(c) {
            let k = choose|k: int| 0 <= k < t.len() && t[k] == c;
            if k < p {
                assert(s[k] == c);
            } else {
                assert(s[k + 1] == c);
            }
        }
        if s.contains(c) && c != s[p] {
            let k = choose|k: int| 0 <= k < s.len() && s[k] == c;
            if k < p {
                assert(t[k] == c);
            } else {
                assert(k != p);
                assert(t[k - 1] == c);
            }
        }
    }
    assert(t.to_set() =~= s.to_set().remove(s[p]));
}

/// Two sorted signatures with the same ids are the same signature.
pub proof fn lemma_sorted_set_eq(a: Seq<ComponentId>, b: Seq<ComponentId>)
    requires
        sorted_ids(a),
        sorted_ids(b),
        a.to_set() == b.to_set(),
    ensures
        a == b,
    decreases a.len(),
{
    if a.len() == 0 {
        if b.len() > 0 {
            assert(b.to_set().contains(b[0]));
        }
        assert(a =~= b);
    } else {
        assert(a.to_set().contains(a[0]));
        if b.len() == 0 {
            assert(false);
        }
        assert(b.to_set().contains(b[0]));
        let i = choose|i: int| 0 <= i < a.len() && a[i] == b[0];
        let j = choose|j: int| 0 <= j < b.len() && b[j] == a[0];
        assert(a[0] <= a[i]);
        assert(b[0] <= b[j]);
        assert(a[0] == b[0]);
        let a1 = a.drop_first();
        let b1 = b.drop_first();
        lemma_sorted_remove(a, 0);
        lemma_sorted_remove(b, 0);
        assert(a.remove(0) =~= a1);
        assert(b.remove(0) =~= b1);
        lemma_sorted_set_eq(a1, b1);
        assert(a.len() == b.len());
        assert forall|k: int| 0 <= k < a.len() implies a[k] == b[k] by {
            if k > 0 {
                assert(a[k] == a1[k - 1]);
                assert(b[k] == b1[k - 1]);
            }
        }
        assert(a =~= b);
    }
}

/// The component map after inserting an id (at its sorted position) and its value.
pub proof fn lemma_values_map_insert<V>(sig: Seq<ComponentId>, values: Seq<V>, p: int, id: ComponentId, v: V)
    requires
        sorted_ids(sig),
        sig.len() == values.len(),
        0 <= p <= sig.len(),
        forall|k: int| 0 <= k < p ==> sig[k] < id,
        forall|k: int| p <= k < sig.len() ==> sig[k] > id,
    ensures
        values_map(sig.insert(p, id), values.insert(p, v)) == values_map(sig, values).insert(id, v),
{
    let t = sig.insert(p, id);
    let w = values.insert(p, v);
    lemma_sorted_insert(sig, p, id);
    assert forall|c: ComponentId| #[trigger] t.contains(c) implies w[t.index_of(c)] == (if c == id { v } else { values[sig.index_of(c)] }) by {
        let k = choose|k: int| 0 <= k < t.len() && t[k] == c;
        lemma_sorted_index_of(t, k);
        if k < p {
            lemma_sorted_index_of(sig, k);
        } else if k > p {
            lemma_sorted_index_of(sig, k - 1);
        }
    }
    assert forall|c: ComponentId| t.contains(c) <==> (sig.contains(c) || c == id) by {
        assert(t.to_set().contains(c) == t.contains(c));
        assert(sig.to_set().contains(c) == sig.contains(c));
    }
    assert(values_map(t, w) =~= values_map(sig, values).insert(id, v));
}

/// The component map after removing the entry at a position, and the value that left.
pub proof fn lemma_values_map_remove<V>(sig: Seq<ComponentId>, values: Seq<V>, p: int)
    requires
        sorted_ids(sig),
        sig.len() == values.len(),
        0 <= p < sig.len(),
    ensures
        values_map(sig.remove(p), values.remove(p)) == values_map(sig, values).remove(sig[p]),
        values_map(sig, values)[sig[p]] == values[p],
        values_map(sig, values).contains_key(sig[p]),
{
    let t = sig.remove(p);
    let w = values.remove(p);
    lemma_sorted_remove(sig, p);
    lemma_sorted_index_of(sig, p);
    assert forall|c: ComponentId| #[trigger] t.contains(c) implies w[t.index_of(c)] == values[sig.index_of(c)] by {
        let k = choose|k: int| 0 <= k < t.len() && t[k] == c;
        lemma_sorted_index_of(t, k);
        if k < p {
            lemma_sorted_index_of(sig, k);
        } else {
            lemma_sorted_index_of(sig, k + 1);
        }
    }
    assert forall|c: ComponentId| t.contains(c) <==> (sig.contains(c) && c != sig[p]) by {
        assert(t.to_set().contains(c) == t.contains(c));
        assert(sig.to_set().contains(c) == sig.contains(c));
    }
    assert(sig.contains(sig[p]));
    assert(values_map(t, w) =~= values_map(sig, values).remove(sig[p]));
}

/// The component map after overwriting the value at a position.
pub proof fn lemma_values_map_update<V>(sig: Seq<ComponentId>, values: Seq<V>, p: int, v: V)
    requires
        sorted_ids(sig),
        sig.len() == values.len(),
        0 <= p < sig.len(),
    ensures
        values_map(sig, values.update(p, v)) == values_map(sig, values).insert(sig[p], v),
{
    assert forall|c: ComponentId| #[trigger] sig.contains(c) implies values.update(p, v)[sig.index_of(c)]
        == (if c == sig[p] { v } else { values[sig.index_of(c)] }) by {
        let k = choose|k: int| 0 <= k < sig.len() && sig[k] == c;
        lemma_sorted_index_of(sig, k);
    }
    assert(sig.contains(sig[p]));
    assert(values_map(sig, values.update(p, v)) =~= values_map(sig, values).insert(sig[p], v));
}

/// A table of entities that share one component signature, with one column per kind.
pub struct Archetype<V> {
    pub id: ArchetypeId,
    pub type_signature: Vec<ComponentId>,
    pub columns: Vec<TypedColumn<V>>,
    pub entities: Vec<Entity>,
    pub add_edges: HashMap<ComponentId, ArchetypeId>,
    pub remove_edges: HashMap<ComponentId, ArchetypeId>,
}

impl<V> Archetype<V> {
    pub open spec fn sig(&self) -> Seq<ComponentId> {
        self.type_signature@
    }

    /// Sorted signature, one column per signature entry, one value per entity in each column.
    pub open spec fn wf(&self) -> bool {
        &&& sorted_ids(self.sig())
        &&& self.columns@.len() == self.sig().len()
        &&& forall|j: int| 0 <= j < self.columns@.len() ==> #[trigger] self.columns@[j]@.len() == self.entities@.len()
    }

    /// The values stored in row `r`, in signature order.
    pub open spec fn row(&self, r: int) -> Seq<V> {
        Seq::new(self.columns@.len(), |j: int| self.columns@[j]@[r])
    }

    /// The components of the entity in row `r`.
    pub open spec fn row_values(&self, r: int) -> Map<ComponentId, V> {
        values_map(self.sig(), self.row(r))
    }

    pub fn new(id: ArchetypeId, signature: Vec<ComponentId>, columns: Vec<TypedColumn<V>>) -> (a: Self)
        ensures
            a.id == id,
            a.sig() == signature@,
            a.columns@ == columns@,
            a.entities@ == Seq::<Entity>::empty(),
            a.add_edges@ == Map::<ComponentId, ArchetypeId>::empty(),
            a.remove_edges@ == Map::<ComponentId, ArchetypeId>::empty(),
    {
        Archetype {
            id,
            type_signature: signature,
            columns,
            entities: Vec::new(),
            add_edges: HashMap::new(),
            remove_edges: HashMap::new(),
        }
    }

    /// Whether the signature holds `id` (exact when the signature is in increasing order,
    /// repeats allowed).
    pub fn has_component(&self, id: ComponentId) -> (b: bool)
        ensures
            ascending_ids(self.sig()) ==> b == self.sig().contains(id),
    {
        search_signature(&self.type_signature, id).is_ok()
    }

    /// Appends an entity to the entity list and returns its row.
    pub fn allocate_row(&mut self, entity: Entity) -> (row: usize)
        ensures
            row == old(self).entities@.len(),
            final(self).entities@ == old(self).entities@.push(entity),
            final(self).id == old(self).id,
            final(self).type_signature@ == old(self).type_signature@,
            final(self).columns@ == old(self).columns@,
            final(self).add_edges@ == old(self).add_edges@,
            final(self).remove_edges@ == old(self).remove_edges@,
    {
        let row = self.entities.len();
        self.entities.push(entity);
        row
    }

    /// Removes the entity at `row`, moving the last entity into its place; returns the entity
    /// that now occupies `row`, if any.
    pub fn free_row(&mut self, row: usize) -> (displaced: Option<Entity>)
        requires
            row < old(self).entities@.len(),
        ensures
            final(self).entities@ == old(self).entities@.update(row as int, old(self).entities@.last()).drop_last(),
            displaced == (if row < final(self).entities@.len() { Some(final(self).entities@[row as int]) } else { None }),
            final(self).id == old(self).id,
            final(self).type_signature@ == old(self).type_signature@,
            final(self).columns@ == old(self).columns@,
            final(self).add_edges@ == old(self).add_edges@,
            final(self).remove_edges@ == old(self).remove_edges@,
    {
        self.entities.swap_remove(row);
        if row < self.entities.len() {
            Some(self.entities[row])
        } else {
            None
        }
    }

    /// Removes row `row` from every column and from the entity list by swap-removal.
    /// Returns the removed values in signature order and the entity that now occupies `row`.
    pub(crate) fn take_row(&mut self, row: usize) -> (r: (Vec<V>, Option<Entity>))
        requires
            old(self).wf(),
            row < old(self).entities@.len(),
        ensures
            final(self).wf(),
            r.0@ == old(self).row(row as int),
            final(self).entities@ == old(self).entities@.update(row as int, old(self).entities@.last()).drop_last(),
            r.1 == (if row < final(self).entities@.len() { Some(final(self).entities@[row as int]) } else { None }),
            forall|k: int| 0 <= k < final(self).entities@.len() ==> #[trigger] final(self).row(k) == (
                if k == row { old(self).row(old(self).entities@.len() - 1) } else { old(self).row(k) }),
            final(self).id == old(self).id,
            final(self).type_signature@ == old(self).type_signature@,
            final(self).add_edges@ == old(self).add_edges@,
            final(self).remove_edges@ == old(self).remove_edges@,
    {
        let ghost n = old(self).entities@.len();
        let mut values: Vec<V> = Vec::new();
        let mut j: usize = 0;
        while j < self.columns.len()
            invariant
                self.columns@.len() == old(self).columns@.len(),
                self.entities@ == old(self).entities@,
                self.type_signature@ == old(self).type_signature@,
                self.id == old(self).id,
                self.add_edges@ == old(self).add_edges@,
                self.remove_edges@ == old(self).remove_edges@,
                old(self).wf(),
                row < n,
                n == old(self).entities@.len(),
                0 <= j <= self.columns@.len(),
                values@.len() == j,
                forall|i: int| 0 <= i < j ==> values@[i] == #[trigger] old(self).columns@[i]@[row as int],
                forall|i: int| 0 <= i < j ==> #[trigger] self.columns@[i]@ == old(self).columns@[i]@.update(
                    row as int, old(self).columns@[i]@.last()).drop_last(),
                forall|i: int| j <= i < self.columns@.len() ==> #[trigger] self.columns@[i] == old(self).columns@[i],
            decreases self.columns@.len() - j,
        {
            assert(self.columns@[j as int]@.len() == n);
            let v = self.columns[j].swap_remove_any(row);
            values.push(v);
            j = j + 1;
        }
        let displaced = self.free_row(row);
        assert(values@ =~= old(self).row(row as int));
        assert forall|k: int| 0 <= k < self.entities@.len() implies #[trigger] self.row(k) == (
            if k == row { old(self).row(n - 1) } else { old(self).row(k) }) by {
            assert(self.row(k) =~= (if k == row { old(self).row(n - 1) } else { old(self).row(k) }));
        }
        (values, displaced)
    }

    /// Appends an entity with one value per signature entry; returns its row.
    pub(crate) fn push_row(&mut self, entity: Entity, values: Vec<V>) -> (row: usize)
        requires
            old(self).wf(),
            values@.len() == old(self).sig().len(),
        ensures
            final(self).wf(),
            row == old(self).entities@.len(),
            final(self).entities@ == old(self).entities@.push(entity),
            final(self).row(row as int) == values@,
            forall|k: int| 0 <= k < row ==> #[trigger] final(self).row(k) == old(self).row(k),
            final(self).id == old(self).id,
            final(self).type_signature@ == old(self).type_signature@,
            final(self).add_edges@ == old(self).add_edges@,
            final(self).remove_edges@ == old(self).remove_edges@,
    {
        let ghost n = old(self).entities@.len();
        let mut values = values;
        let ghost vals = values@;
        // fill the columns back to front so each value can be popped off the end
        let mut j: usize = self.columns.len();
        while j > 0
            invariant
                self.columns@.len() == old(self).columns@.len(),
                self.entities@ == old(self).entities@,
                self.type_signature@ == old(self).type_signature@,
                self.id == old(self).id,
                self.add_edges@ == old(self).add_edges@,
                self.remove_edges@ == old(self).remove_edges@,
                old(self).wf(),
                n == old(self).entities@.len(),
                vals.len() == self.columns@.len(),
                0 <= j <= self.columns@.len(),
                values@ == vals.take(j as int),
                forall|i: int| j <= i < self.columns@.len() ==> #[trigger] self.columns@[i]@ == old(self).columns@[i]@.push(vals[i]),
                forall|i: int| 0 <= i < j ==> #[trigger] self.columns@[i] == old(self).columns@[i],
            decreases j,
        {
            let v = values.pop().unwrap();
            j = j - 1;
            assert(v == vals[j as int]);
            self.columns[j].data.push(v);
            assert(values@ =~= vals.take(j as int));
        }
        let row = self.allocate_row(entity);
        assert(self.row(row as int) =~= vals);
        assert forall|k: int| 0 <= k < row implies #[trigger] self.row(k) == old(self).row(k) by {
            assert(self.row(k) =~= old(self).row(k));
        }
        row
    }

    /// Overwrites the value of the entry at signature position `col` in row `row`.
    pub(crate) fn set_value(&mut self, col: usize, row: usize, value: V)
        requires
            old(self).wf(),
            col < old(self).sig().len(),
            row < old(self).entities@.len(),
        ensures
            final(self).wf(),
            final(self).entities@ == old(self).entities@,
            final(self).row(row as int) == old(self).row(row as int).update(col as int, value),
            forall|k: int| 0 <= k < old(self).entities@.len() && k != row ==> #[trigger] final(self).row(k) == old(self).row(k),
            final(self).id == old(self).id,
            final(self).type_signature@ == old(self).type_signature@,
            final(self).add_edges@ == old(self).add_edges@,
            final(self).remove_edges@ == old(self).remove_edges@,
    {
        assert(self.columns@[col as int]@.len() == self.entities@.len());
        self.columns[col].data.set(row, value);
        assert(self.row(row as int) =~= old(self).row(row as int).update(col as int, value));
        assert forall|k: int| 0 <= k < old(self).entities@.len() && k != row implies #[trigger] self.row(k) == old(self).row(k) by {
            assert(self.row(k) =~= old(self).row(k));
        }
    }

    /// A mutable reference to the value of the entry at signature position `col` in row `row`.
    pub(crate) fn value_mut(&mut self, col: usize, row: usize) -> (v: &mut V)
        requires
            old(self).wf(),
            col < old(self).sig().len(),
            row < old(self).entities@.len(),
        ensures
            *v == old(self).row(row as int)[col as int],
            final(self).wf(),
            final(self).entities@ == old(self).entities@,
            final(self).row(row as int) == old(self).row(row as int).update(col as int, *final(v)),
            forall|k: int| 0 <= k < old(self).entities@.len() && k != row ==> #[trigger] final(self).row(k) == old(self).row(k),
            final(self).id == old(self).id,
            final(self).type_signature@ == old(self).type_signature@,
            final(self).add_edges@ == old(self).add_edges@,
            final(self).remove_edges@ == old(self).remove_edges@,
    {
        assert(self.columns@[col as int]@.len() == self.entities@.len());
        let v = &mut self.columns[col].data[row];
        v
    }
}

} // verus!

use vstd::prelude::*;

use crate::query::access::contains_id;
use crate::storage::ComponentId;

verus! {

/// What a system reads and writes: component kinds, or the whole world.
#[derive(Clone, Debug)]
pub struct AccessDescriptor {
    pub reads: Vec<ComponentId>,
    pub writes: Vec<ComponentId>,
    pub reads_world: bool,
    pub writes_world: bool,
}

impl Default for AccessDescriptor {
    fn default() -> (d: Self)
        ensures
            d.reads@ == Seq::<ComponentId>::empty(),
            d.writes@ == Seq::<ComponentId>::empty(),
            !d.reads_world,
            !d.writes_world,
    {
        AccessDescriptor { reads: Vec::new(), writes: Vec::new(), reads_world: false, writes_world: false }
    }
}

/// Some kind that `a` writes is read or written by `b`.
pub open spec fn writes_touched_by(a: AccessDescriptor, b: AccessDescriptor) -> bool {
    exists|k: int| 0 <= k < a.writes@.len() && (b.reads@.contains(#[trigger] a.writes@[k]) || b.writes@.contains(a.writes@[k]))
}

/// Two systems may not run at the same time: one writes the whole world, or one writes a kind
/// that the other reads or writes.
pub open spec fn spec_conflicts(a: AccessDescriptor, b: AccessDescriptor) -> bool {
    a.writes_world || b.writes_world || writes_touched_by(a, b) || writes_touched_by(b, a)
}

/// Whether some kind that `a` writes is read or written by `b`.
fn writes_overlap(a: &AccessDescriptor, b: &AccessDescriptor) -> (r: bool)
    ensures
        r == writes_touched_by(*a, *b),
{
    let mut i: usize = 0;
    while i < a.writes.len()
        invariant
            0 <= i <= a.writes@.len(),
            forall|k: int| 0 <= k < i ==> !(b.reads@.contains(#[trigger] a.writes@[k]) || b.writes@.contains(a.writes@[k])),
        decreases a.writes@.len() - i,
    {
        let w = a.writes[i];
        if contains_id(&b.reads, w) || contains_id(&b.writes, w) {
            return true;
        }
        i = i + 1;
    }
    false
}

pub fn conflicts(a: &AccessDescriptor, b: &AccessDescriptor) -> (r: bool)
    ensures
        r == spec_conflicts(*a, *b),
{
    if a.writes_world || b.writes_world {
        return true;
    }
    if writes_overlap(a, b) {
        return true;
    }
    if writes_overlap(b, a) {
        return true;
    }
    false
}

/// Law: conflict is symmetric.
pub proof fn lemma_conflicts_symmetric(a: AccessDescriptor, b: AccessDescriptor)
    ensures
        spec_conflicts(a, b) == spec_conflicts(b, a),
{
}

/// Law: two systems that write nothing never conflict, whatever they read.
pub proof fn lemma_readers_never_conflict(a: AccessDescriptor, b: AccessDescriptor)
    requires
        a.writes@.len() == 0,
        b.writes@.len() == 0,
        !a.writes_world,
        !b.writes_world,
    ensures
        !spec_conflicts(a, b),
{
}

} // verus!

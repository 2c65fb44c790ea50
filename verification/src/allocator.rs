use vstd::prelude::*;

use crate::entity::Entity;

verus! {

/// Hands out entity handles. Each slot index carries a generation that is bumped
/// when the slot is freed, so stale handles stop being alive.
pub struct EntityAllocator {
    generations: Vec<u32>,
    free_list: Vec<u32>,
}

impl EntityAllocator {
    /// The generation currently stored for each slot index.
    pub closed spec fn generations(&self) -> Seq<u32> {
        self.generations@
    }

    /// The freed slot indices, in the order they were freed (the last one is reused first).
    pub closed spec fn free_list(&self) -> Seq<u32> {
        self.free_list@
    }

    /// Every freed index names an existing slot.
    pub open spec fn wf(&self) -> bool {
        forall|k: int| 0 <= k < self.free_list().len() ==> #[trigger] self.free_list()[k] < self.generations().len()
    }

    /// An entity is alive when its slot exists and holds the entity's generation.
    pub open spec fn spec_is_alive(&self, entity: Entity) -> bool {
        &&& (entity.index as int) < self.generations().len()
        &&& self.generations()[entity.index as int] == entity.generation
    }

    /// `allocate` can proceed: a freed slot is available, or a fresh index still fits in `u32`.
    pub open spec fn can_alloc(&self) -> bool {
        self.free_list().len() > 0 || self.generations().len() <= u32::MAX
    }

    /// The entity that `allocate` hands out in this state.
    pub open spec fn next_entity(&self) -> Entity {
        if self.free_list().len() > 0 {
            let index = self.free_list().last();
            Entity { index, generation: self.generations()[index as int] }
        } else {
            Entity { index: self.generations().len() as u32, generation: 0 }
        }
    }

    /// The number of slots fits in `usize`.
    pub(crate) proof fn lemma_slot_count_fits(&self)
        ensures
            self.generations().len() <= usize::MAX,
    {
        broadcast use vstd::std_specs::vec::axiom_spec_len;
        assert(self.generations.len() == self.generations@.len());
    }

    /// Whether `allocate` can proceed (see [`EntityAllocator::can_alloc`]).
    pub fn can_allocate(&self) -> (b: bool)
        ensures
            b == self.can_alloc(),
    {
        self.free_list.len() > 0 || self.generations.len() <= 0xffff_ffffusize
    }

    pub fn new() -> (a: Self)
        ensures
            a.wf(),
            a.generations() == Seq::<u32>::empty(),
            a.free_list() == Seq::<u32>::empty(),
    {
        Self { generations: Vec::new(), free_list: Vec::new() }
    }

    /// Hands out the most recently freed slot with its current generation, or a fresh slot
    /// with generation 0.
    pub fn allocate(&mut self) -> (entity: Entity)
        requires
            old(self).wf(),
            old(self).can_alloc(),
        ensures
            final(self).wf(),
            entity == old(self).next_entity(),
            old(self).free_list().len() > 0 ==> {
                &&& final(self).free_list() == old(self).free_list().drop_last()
                &&& final(self).generations() == old(self).generations()
            },
            old(self).free_list().len() == 0 ==> {
                &&& final(self).free_list() == old(self).free_list()
                &&& final(self).generations() == old(self).generations().push(0)
            },
            final(self).spec_is_alive(entity),
            generations_grown(*old(self), *final(self)),
    {
        if let Some(index) = self.free_list.pop() {
            assert(old(self).free_list()[old(self).free_list().len() - 1] == index);
            // the generation was already bumped when the slot was freed
            Entity { index, generation: self.generations[index as usize] }
        } else {
            let index = self.generations.len() as u32;
            self.generations.push(0);
            assert forall|k: int| 0 <= k < self.free_list().len() implies #[trigger] self.free_list()[k]
                < self.generations().len() by {
                assert(old(self).free_list()[k] < old(self).generations().len());
            }
            Entity { index, generation: 0 }
        }
    }

    /// Bumps the slot's generation and queues the slot for reuse.
    pub fn free(&mut self, entity: Entity)
        requires
            old(self).wf(),
            (entity.index as int) < old(self).generations().len(),
            old(self).generations()[entity.index as int] < u32::MAX,
        ensures
            final(self).wf(),
            final(self).generations() == old(self).generations().update(
                entity.index as int,
                (old(self).generations()[entity.index as int] + 1) as u32,
            ),
            final(self).free_list() == old(self).free_list().push(entity.index),
            old(self).spec_is_alive(entity) ==> !final(self).spec_is_alive(entity),
            generations_grown(*old(self), *final(self)),
    {
        let i = entity.index as usize;
        let g = self.generations[i];
        self.generations.set(i, g + 1);
        self.free_list.push(entity.index);
        assert forall|k: int| 0 <= k < self.free_list().len() implies #[trigger] self.free_list()[k]
            < self.generations().len() by {
            if k < old(self).free_list().len() {
                assert(old(self).free_list()[k] < old(self).generations().len());
            }
        }
    }

    pub fn is_alive(&self, entity: Entity) -> (alive: bool)
        ensures
            alive == self.spec_is_alive(entity),
    {
        let i = entity.index as usize;
        if i < self.generations.len() {
            self.generations[i] == entity.generation
        } else {
            false
        }
    }
}

impl Default for EntityAllocator {
    fn default() -> (a: Self)
        ensures
            a.wf(),
            a.generations() == Seq::<u32>::empty(),
            a.free_list() == Seq::<u32>::empty(),
    {
        Self::new()
    }
}

/// Law: freeing a live entity and allocating again hands back the same slot with the next
/// generation; the old handle stays dead and the new one is alive.
pub proof fn lemma_free_then_allocate_reuses_slot(a: EntityAllocator, entity: Entity, freed: EntityAllocator)
    requires
        a.wf(),
        a.spec_is_alive(entity),
        a.generations()[entity.index as int] < u32::MAX,
        freed.generations() == a.generations().update(
            entity.index as int,
            (a.generations()[entity.index as int] + 1) as u32,
        ),
        freed.free_list() == a.free_list().push(entity.index),
    ensures
        freed.next_entity().index == entity.index,
        freed.next_entity().generation == entity.generation + 1,
        !freed.spec_is_alive(entity),
        freed.spec_is_alive(freed.next_entity()),
{
}

/// `b` has every slot of `a`, each with a generation no lower than in `a`: what every
/// `allocate` and `free` keep, step after step.
pub open spec fn generations_grown(a: EntityAllocator, b: EntityAllocator) -> bool {
    &&& a.generations().len() <= b.generations().len()
    &&& forall|i: int| 0 <= i < a.generations().len() ==> a.generations()[i] <= #[trigger] b.generations()[i]
}

/// Steps that each keep generations from falling keep them from falling together.
pub proof fn lemma_generations_grown_trans(a: EntityAllocator, b: EntityAllocator, c: EntityAllocator)
    requires
        generations_grown(a, b),
        generations_grown(b, c),
    ensures
        generations_grown(a, c),
{
    assert forall|i: int| 0 <= i < a.generations().len() implies a.generations()[i] <= #[trigger] c.generations()[i] by {
        assert(a.generations()[i] <= b.generations()[i]);
    }
}

/// Law: a handle whose slot's generation has moved past it (it was freed) is dead in every
/// later state, and no later `allocate` hands it out again: a reused slot comes with a newer
/// generation, a fresh slot with a new index.
pub proof fn lemma_stale_handle_never_reissued(a: EntityAllocator, b: EntityAllocator, h: Entity)
    requires
        generations_grown(a, b),
        (h.index as int) < a.generations().len(),
        h.generation < a.generations()[h.index as int],
        b.wf(),
    ensures
        !b.spec_is_alive(h),
        b.can_alloc() ==> b.next_entity() != h,
{
    assert(a.generations()[h.index as int] <= b.generations()[h.index as int]);
    if b.can_alloc() && b.free_list().len() > 0 {
        let i = b.free_list().last();
        assert(b.free_list()[b.free_list().len() - 1] == i);
    }
}

} // verus!

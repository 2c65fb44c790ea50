use vstd::prelude::*;

verus! {

/// A handle to an entity: a slot index and the generation of that slot.
#[derive(Clone, Copy, PartialEq, Eq, Structural, PartialOrd, Ord, Hash, Debug)]
pub struct Entity {
    pub index: u32,
    pub generation: u32,
}

} // verus!

use vstd::prelude::*;

use crate::world::World;

verus! {

/// Registers a component kind with a world; implemented by users for their kinds.
pub trait RegisterComponent<V> {
    fn register(world: &mut World<V>)
        requires
            old(world).wf(),
        ensures
            final(world).wf(),
    ;
}

/// Registers an event kind with a world; implemented by users for their kinds.
pub trait RegisterEvent<V> {
    fn register(world: &mut World<V>)
        requires
            old(world).wf(),
        ensures
            final(world).wf(),
    ;
}

} // verus!

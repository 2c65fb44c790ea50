use ribble_ecs::EntityAllocator;

#[test]
fn alloc_free_realloc_increments_generation() {
    let mut alloc = EntityAllocator::new();
    let e1 = alloc.allocate();
    assert_eq!(e1.generation, 0);

    alloc.free(e1);
    assert!(!alloc.is_alive(e1));

    let e2 = alloc.allocate();
    assert_eq!(e1.index, e2.index);
    assert_eq!(e2.generation, 1);
    assert!(alloc.is_alive(e2));
    assert!(!alloc.is_alive(e1));
}

#[test]
fn fresh_slots_get_consecutive_indices() {
    let mut alloc = EntityAllocator::default();
    let a = alloc.allocate();
    let b = alloc.allocate();
    assert_eq!((a.index, a.generation), (0, 0));
    assert_eq!((b.index, b.generation), (1, 0));
    assert!(alloc.is_alive(a) && alloc.is_alive(b));
}

#[test]
fn most_recently_freed_slot_is_reused_first() {
    let mut alloc = EntityAllocator::new();
    let a = alloc.allocate();
    let b = alloc.allocate();
    alloc.free(a);
    alloc.free(b);
    let c = alloc.allocate();
    assert_eq!((c.index, c.generation), (b.index, 1));
    let d = alloc.allocate();
    assert_eq!((d.index, d.generation), (a.index, 1));
}

#[test]
fn unknown_slot_is_not_alive() {
    let alloc = EntityAllocator::new();
    assert!(!alloc.is_alive(ribble_ecs::Entity { index: 3, generation: 0 }));
}

#[test]
fn freed_handles_are_never_handed_out_again() {
    let mut alloc = EntityAllocator::new();
    let a = alloc.allocate();
    let b = alloc.allocate();
    alloc.free(a);
    let c = alloc.allocate();
    alloc.free(c);
    let d = alloc.allocate();
    assert_eq!(d.index, a.index);
    assert_ne!(d, a);
    assert_ne!(d, c);
    assert!(!alloc.is_alive(a));
    assert!(!alloc.is_alive(c));
    assert!(alloc.is_alive(b));
    assert!(alloc.is_alive(d));
}

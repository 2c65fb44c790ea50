use ribble_ecs::{
    Allow, EcsError, Entity, EntityData, FilteredEntityMutData, FilteredEntityRefData, Query, QueryBuilder, ReadData,
    RegisterComponent, RegisterEvent, With, Without, World, WriteData,
};

#[derive(Clone, Copy, Debug, PartialEq)]
struct Position {
    x: f32,
    y: f32,
}

#[derive(Clone, Copy, Debug, PartialEq)]
struct Velocity {
    dx: f32,
    dy: f32,
}

#[derive(Clone, Copy, Debug, PartialEq)]
struct Health(u32);

#[derive(Clone, Debug, PartialEq)]
struct Damaged {
    entity: Entity,
    amount: u32,
}

#[derive(Default, Clone, Debug, PartialEq, Eq)]
struct Tick(u32);

#[derive(Clone, Debug, PartialEq)]
struct GameTime {
    seconds: f32,
}

#[derive(Clone, Debug, PartialEq)]
enum Value {
    Position(Position),
    Velocity(Velocity),
    Health(Health),
    Damaged(Damaged),
    Tick(Tick),
    GameTime(GameTime),
}

const POSITION: u64 = 1;
const VELOCITY: u64 = 2;
const HEALTH: u64 = 3;
const DAMAGED: u64 = 10;
const TICK: u64 = 20;
const GAME_TIME: u64 = 21;

impl RegisterEvent<Value> for Damaged {
    fn register(world: &mut World<Value>) {
        world.add_event(DAMAGED);
    }
}

impl RegisterComponent<Value> for Position {
    fn register(world: &mut World<Value>) {
        world.register_component(POSITION);
    }
}

fn test_world() -> World<Value> {
    let mut world = World::new();
    world.register_component(POSITION);
    world.register_component(VELOCITY);
    world.register_component(HEALTH);
    world
}

fn pos(x: f32, y: f32) -> Value {
    Value::Position(Position { x, y })
}

fn vel(dx: f32, dy: f32) -> Value {
    Value::Velocity(Velocity { dx, dy })
}

#[test]
fn spawn_despawn_respawn_no_collisions() {
    let mut world = test_world();
    let mut spawned = Vec::new();
    for _ in 0..100 {
        spawned.push(world.spawn());
    }

    let to_despawn: Vec<_> = spawned.drain(50..).collect();
    for entity in to_despawn {
        world.despawn(entity).unwrap();
        assert!(!world.is_alive(entity));
    }

    for _ in 0..50 {
        let e = world.spawn();
        assert!(world.is_alive(e));
        spawned.push(e);
    }

    let mut indices = spawned.iter().map(|e| e.index).collect::<Vec<_>>();
    indices.sort_unstable();
    indices.dedup();
    assert_eq!(indices.len(), spawned.len());
}

#[test]
fn get_or_create_archetype_reuses_signature() {
    let mut world = test_world();
    let entities: Vec<_> = (0..3).map(|_| world.spawn()).collect();
    for (i, &e) in entities.iter().enumerate() {
        world.insert_component(e, POSITION, pos(i as f32, 0.0)).unwrap();
    }
    assert_eq!(world.query_single(POSITION).len(), 3);
}

#[test]
fn insert_and_remove_migrate_correctly() {
    let mut world = test_world();
    let e = world.spawn();

    world.insert_component(e, POSITION, pos(1.0, 2.0)).unwrap();
    assert_eq!(world.get(e, POSITION), Some(&pos(1.0, 2.0)));

    world.insert_component(e, VELOCITY, vel(0.5, -1.0)).unwrap();
    assert_eq!(world.get(e, VELOCITY), Some(&vel(0.5, -1.0)));
    assert_eq!(world.get(e, POSITION), Some(&pos(1.0, 2.0)));

    let p = world.remove_component(e, POSITION).unwrap();
    assert_eq!(p, pos(1.0, 2.0));
    assert!(world.get(e, POSITION).is_none());
    assert_eq!(world.get(e, VELOCITY), Some(&vel(0.5, -1.0)));
}

#[test]
fn query_returns_matching_entities_only() {
    let mut world = test_world();

    for i in 0..10 {
        let e = world.spawn();
        world.insert_component(e, POSITION, pos(i as f32, 0.0)).unwrap();
        world.insert_component(e, VELOCITY, vel(1.0, 0.0)).unwrap();
    }

    for i in 0..5 {
        let e = world.spawn();
        world.insert_component(e, POSITION, pos(100.0 + i as f32, 0.0)).unwrap();
    }

    let count = world.query((EntityData, ReadData(POSITION), ReadData(VELOCITY)), Allow).len();
    assert_eq!(count, 10);

    let pos_only = world.query_single(POSITION).len();
    assert_eq!(pos_only, 15);
}

#[test]
fn swap_remove_updates_displaced_location() {
    let mut world = test_world();
    let e0 = world.spawn();
    let e1 = world.spawn();
    let e2 = world.spawn();

    for e in [e0, e1, e2] {
        world.insert_component(e, POSITION, pos(e.index as f32, 0.0)).unwrap();
    }

    world.despawn(e1).unwrap();
    assert!(!world.is_alive(e1));
    assert_eq!(world.get(e2, POSITION), Some(&pos(2.0, 0.0)));
}

#[test]
fn dynamic_query_builder_with_without() {
    let mut world = test_world();
    let with_vel = world.spawn();
    world.insert_component(with_vel, POSITION, pos(1.0, 0.0)).unwrap();
    world.insert_component(with_vel, VELOCITY, vel(1.0, 0.0)).unwrap();

    let without_vel = world.spawn();
    world.insert_component(without_vel, POSITION, pos(2.0, 0.0)).unwrap();

    let state = world.query_builder().read(POSITION).with(VELOCITY).build(&world);
    assert_eq!(world.query_dynamic(&state).count(), 1);

    let state = world.query_builder().read(POSITION).without(VELOCITY).build(&world);
    assert_eq!(world.query_dynamic(&state).count(), 1);
}

#[test]
fn filtered_entity_ref_dynamic_access() {
    let mut world = test_world();
    let e = world.spawn();
    world.insert_component(e, POSITION, pos(3.0, 4.0)).unwrap();

    let state = world.query_builder().read(POSITION).build(&world);
    let entity_ref = world.query_dynamic(&state).next().unwrap();
    assert_eq!(entity_ref.get(POSITION), Some(&pos(3.0, 4.0)));
    assert!(entity_ref.get(VELOCITY).is_none());
    assert!(entity_ref.get_by_id(VELOCITY).is_none());
}

#[test]
fn typed_query_with_filter() {
    let mut world = test_world();
    let e = world.spawn();
    world.insert_component(e, POSITION, pos(1.0, 0.0)).unwrap();
    world.insert_component(e, VELOCITY, vel(1.0, 0.0)).unwrap();

    let query = world.query((EntityData, ReadData(POSITION)), With(VELOCITY));
    assert_eq!(query.len(), 1);
    let (entity, p) = query.single().unwrap();
    assert_eq!(entity, e);
    assert_eq!(p, &pos(1.0, 0.0));
}

#[test]
fn resources_and_events() {
    let mut world: World<Value> = World::new();
    world.insert_resource(TICK, Value::Tick(Tick(42)));
    assert_eq!(world.resource(TICK), Some(&Value::Tick(Tick(42))));

    <Damaged as RegisterEvent<Value>>::register(&mut world);
    world.send_event(DAMAGED, Value::Damaged(Damaged { entity: Entity { index: 0, generation: 0 }, amount: 10 }));

    let mut reader = world.event_reader(DAMAGED).unwrap();
    let events: Vec<_> = reader.read_iter().to_vec();
    assert_eq!(events.len(), 1);
    match &events[0] {
        Value::Damaged(d) => assert_eq!(d.amount, 10),
        other => panic!("unexpected event {:?}", other),
    }

    world.update();
    let reader = world.event_reader(DAMAGED).unwrap();
    assert!(reader.is_empty());
}

#[test]
fn movement_integration() {
    let mut world = test_world();
    for _ in 0..3 {
        let e = world.spawn();
        world.insert_component(e, POSITION, pos(0.0, 0.0)).unwrap();
        world.insert_component(e, VELOCITY, vel(1.0, 2.0)).unwrap();
    }

    fn movement(w: &mut World<Value>) {
        let mut updates: Vec<(Entity, Velocity)> = Vec::new();
        {
            let query = w.query_single(VELOCITY);
            let mut it = query.iter();
            while let Some((entity, value)) = it.next() {
                if let Value::Velocity(v) = value {
                    updates.push((entity, *v));
                }
            }
        }
        for (entity, v) in updates {
            if let Some(Value::Position(p)) = w.get_mut(entity, POSITION) {
                p.x += v.dx;
                p.y += v.dy;
            }
        }
    }

    for _ in 0..5 {
        movement(&mut world);
        world.update();
    }

    let query = world.query_single(POSITION);
    let mut it = query.iter();
    let mut seen = 0;
    while let Some((_, p)) = it.next() {
        assert_eq!(p, &pos(5.0, 10.0));
        seen += 1;
    }
    assert_eq!(seen, 3);
}

#[test]
fn derive_component_registers_and_inserts() {
    let mut world: World<Value> = World::new();
    <Position as RegisterComponent<Value>>::register(&mut world);

    let entity = world.spawn();
    world.insert_component(entity, POSITION, pos(1.0, 2.0)).unwrap();

    assert_eq!(world.get(entity, POSITION), Some(&pos(1.0, 2.0)));
}

#[test]
fn register_components_macro() {
    let mut world: World<Value> = World::new();
    <Position as RegisterComponent<Value>>::register(&mut world);

    let entity = world.spawn();
    world.insert_component(entity, POSITION, pos(0.0, 0.0)).unwrap();
    assert!(world.get(entity, POSITION).is_some());
}

#[test]
fn derive_event_registers_and_sends() {
    let mut world: World<Value> = World::new();
    <Damaged as RegisterEvent<Value>>::register(&mut world);

    let entity = world.spawn();
    world.send_event(DAMAGED, Value::Damaged(Damaged { entity, amount: 5 }));

    let mut reader = world.event_reader(DAMAGED).unwrap();
    let events: Vec<_> = reader.read_iter().to_vec();
    assert_eq!(events.len(), 1);
    match &events[0] {
        Value::Damaged(d) => assert_eq!(d.amount, 5),
        other => panic!("unexpected event {:?}", other),
    }
}

#[test]
fn derive_resource() {
    let mut world: World<Value> = World::new();
    world.insert_resource(GAME_TIME, Value::GameTime(GameTime { seconds: 1.5 }));
    assert_eq!(world.resource(GAME_TIME), Some(&Value::GameTime(GameTime { seconds: 1.5 })));
}

#[test]
fn hidden_component_does_not_auto_register() {
    let mut world: World<Value> = World::new();
    let entity = world.spawn();
    assert!(world.insert_component(entity, HEALTH, Value::Health(Health(1))).is_err());
}

#[test]
fn errors_for_dead_and_missing() {
    let mut world = test_world();
    let e = world.spawn();
    world.despawn(e).unwrap();
    assert_eq!(world.despawn(e), Err(EcsError::DeadEntity));
    assert_eq!(world.insert_component(e, POSITION, pos(0.0, 0.0)), Err(EcsError::DeadEntity));
    assert_eq!(world.remove_component(e, POSITION), Err(EcsError::DeadEntity));
    // the freed slot's next generation is "alive" but holds no row until it is spawned
    let ghost_handle = Entity { index: e.index, generation: e.generation + 1 };
    assert!(world.is_alive(ghost_handle));
    assert_eq!(world.despawn(ghost_handle), Err(EcsError::MissingLocation));
    assert_eq!(world.insert_component(ghost_handle, POSITION, pos(0.0, 0.0)), Err(EcsError::MissingLocation));
    let f = world.spawn();
    assert_eq!(f, ghost_handle);
    assert_eq!(world.remove_component(f, POSITION), Err(EcsError::MissingComponent));
    assert_eq!(world.insert_component(f, 99, pos(0.0, 0.0)), Err(EcsError::UnregisteredComponent));
}

#[test]
fn reinsert_overwrites_in_place() {
    let mut world = test_world();
    let e = world.spawn();
    world.insert_component(e, POSITION, pos(1.0, 1.0)).unwrap();
    world.insert_component(e, POSITION, pos(2.0, 2.0)).unwrap();
    assert_eq!(world.get(e, POSITION), Some(&pos(2.0, 2.0)));
    assert_eq!(world.query_single(POSITION).len(), 1);
}

#[test]
fn resource_lifecycle() {
    let mut world: World<Value> = World::new();
    assert!(!world.contains_resource(TICK));
    *world.init_resource_with(TICK, || Value::Tick(Tick(1))) = Value::Tick(Tick(2));
    assert_eq!(world.get_resource(TICK), Some(&Value::Tick(Tick(2))));
    let _ = world.init_resource_with(TICK, || Value::Tick(Tick(9)));
    assert_eq!(world.resource(TICK), Some(&Value::Tick(Tick(2))));
    if let Some(v) = world.resource_mut(TICK) {
        *v = Value::Tick(Tick(3));
    }
    assert_eq!(world.res(TICK).map(|r| (*r).clone()), Some(Value::Tick(Tick(3))));
    assert_eq!(world.remove_resource(TICK), Some(Value::Tick(Tick(3))));
    assert_eq!(world.remove_resource(TICK), None);
    assert!(world.get_resource_mut(TICK).is_none());
}

#[test]
fn event_writer_registers_kind() {
    let mut world: World<Value> = World::new();
    assert!(world.events(DAMAGED).is_none());
    {
        let mut writer = world.event_writer(DAMAGED).unwrap();
        writer.send(Value::Tick(Tick(1)));
    }
    assert_eq!(world.events(DAMAGED).unwrap().len(), 1);
    world.init_events(DAMAGED).clear();
    assert!(world.events(DAMAGED).unwrap().is_empty());
}

#[test]
fn query_pair_and_single() {
    let mut world = test_world();
    let a = world.spawn();
    world.insert_component(a, POSITION, pos(1.0, 1.0)).unwrap();
    world.insert_component(a, VELOCITY, vel(1.0, 1.0)).unwrap();
    let b = world.spawn();
    world.insert_component(b, POSITION, pos(2.0, 2.0)).unwrap();
    let q = world.query_pair(POSITION, VELOCITY);
    assert_eq!(q.len(), 1);
    let first = q.single().unwrap();
    assert_eq!(first.0, a);
    assert_eq!(first.1, &pos(1.0, 1.0));
    assert_eq!(first.2, &vel(1.0, 1.0));
    assert!(!q.is_empty());
    let none = world.query_single(HEALTH);
    assert!(none.is_empty());
    assert!(none.single().is_none());
    let mut builder = QueryBuilder::new();
    builder.read(POSITION);
    let fresh = builder.build_fresh(&world);
    assert_eq!(fresh.len(&world), 2);
}

#[test]
fn mutable_query_updates_components() {
    let mut world = test_world();
    let a = world.spawn();
    world.insert_component(a, POSITION, pos(1.0, 1.0)).unwrap();
    let b = world.spawn();
    world.insert_component(b, POSITION, pos(2.0, 2.0)).unwrap();
    world.insert_component(b, VELOCITY, vel(0.0, 0.0)).unwrap();
    {
        let mut it = world.query_mut(POSITION);
        while let Some(mut item) = it.next() {
            assert!(item.get_mut(VELOCITY).is_none());
            if let Some(Value::Position(p)) = item.get_mut(POSITION) {
                p.x += 10.0;
            }
        }
    }
    assert_eq!(world.get(a, POSITION), Some(&pos(11.0, 1.0)));
    assert_eq!(world.get(b, POSITION), Some(&pos(12.0, 2.0)));

    let state = world.query_builder().read(VELOCITY).build(&world);
    let mut it = world.query_dynamic_mut(state);
    let item = it.next().unwrap();
    assert_eq!(item.entity(), b);
    assert_eq!(item.get(VELOCITY), Some(&vel(0.0, 0.0)));
    assert_eq!(item.get_by_id(POSITION), None);
}

#[test]
fn query_state_tracks_new_archetypes() {
    let mut world = test_world();
    let mut b = QueryBuilder::new();
    b.read(POSITION);
    let mut state = b.build(&world);
    assert!(state.matched_archetypes().is_empty());
    let e = world.spawn();
    world.insert_component(e, POSITION, pos(0.0, 0.0)).unwrap();
    state.update(&world);
    assert_eq!(state.matched_archetypes(), &[1]);
    assert_eq!(state.archetype_id(&world, 0), 1);
    assert_eq!(state.len(&world), 1);
    assert!(!state.is_empty(&world));
    state.force_update(&world);
    assert_eq!(state.matched_archetypes(), &[1]);
}

#[test]
fn iteration_count_matches_len() {
    let mut world = test_world();
    for i in 0..4 {
        let e = world.spawn();
        world.insert_component(e, POSITION, pos(i as f32, 0.0)).unwrap();
        if i % 2 == 0 {
            world.insert_component(e, HEALTH, Value::Health(Health(i))).unwrap();
        }
    }
    let state = world.query_builder().read(POSITION).build(&world);
    assert_eq!(state.len(&world), 4);
    assert_eq!(world.query_dynamic(&state).count(), state.len(&world));
    let healthy = world.query_builder().read(HEALTH).build(&world);
    assert_eq!(world.query_dynamic(&healthy).count(), 2);
}

#[test]
fn init_resource_stores_default_once() {
    let mut world: World<u64> = World::new();
    assert_eq!(*world.init_resource(7), 0);
    *world.init_resource(7) = 5;
    assert_eq!(*world.init_resource(7), 5);
    {
        let mut r = world.res_mut(7).unwrap();
        *r = 11;
    }
    assert_eq!(world.resource(7), Some(&11));
    assert!(world.res_mut(8).is_none());
}

#[test]
fn typed_items_for_each_data_kind() {
    let mut world = test_world();
    let e = world.spawn();
    world.insert_component(e, POSITION, pos(1.0, 2.0)).unwrap();
    world.insert_component(e, VELOCITY, vel(3.0, 4.0)).unwrap();
    let q = world.query((EntityData, WriteData(POSITION), ReadData(VELOCITY), FilteredEntityRefData), Allow);
    let (entity, p, v, r) = q.single().unwrap();
    assert_eq!(entity, e);
    assert_eq!(p, &pos(1.0, 2.0));
    assert_eq!(v, &vel(3.0, 4.0));
    assert_eq!(r.entity(), e);
    assert!(r.get(POSITION).is_none());

    let q1 = world.query((FilteredEntityMutData,), Without(HEALTH));
    let (m,) = q1.single().unwrap();
    assert_eq!(m.entity(), e);
    assert!(m.get_by_id(VELOCITY).is_none());
}

#[test]
fn query_iter_skips_archetypes_the_filter_rejects() {
    let mut world = test_world();
    let a = world.spawn();
    world.insert_component(a, POSITION, pos(1.0, 0.0)).unwrap();
    let b = world.spawn();
    world.insert_component(b, POSITION, pos(2.0, 0.0)).unwrap();
    world.insert_component(b, VELOCITY, vel(0.0, 0.0)).unwrap();
    let state = world.query_builder().read(POSITION).build(&world);
    let q = Query::new(&world, state, (EntityData,), Without(VELOCITY));
    assert_eq!(q.len(), 2);
    let mut it = q.iter();
    assert_eq!(it.next(), Some((a,)));
    assert_eq!(it.next(), None);
}

#[test]
fn optional_terms_are_granted_but_not_required() {
    let mut world = test_world();
    let e = world.spawn();
    world.insert_component(e, POSITION, pos(1.0, 0.0)).unwrap();
    let mut b = QueryBuilder::new();
    b.read(POSITION);
    let mut nested = QueryBuilder::new();
    nested.read(VELOCITY);
    b.optional(nested);
    assert!(b.access().can_read(VELOCITY));
    let state = b.build(&world);
    assert_eq!(world.query_dynamic(&state).count(), 1);

    let f = world.spawn();
    world.insert_component(f, POSITION, pos(2.0, 0.0)).unwrap();
    world.insert_component(f, VELOCITY, vel(1.0, 1.0)).unwrap();
    let state = b.build(&world);
    let mut it = world.query_dynamic(&state);
    let mut with_velocity = 0;
    while let Some(item) = it.next() {
        if item.get(VELOCITY).is_some() {
            with_velocity += 1;
        }
    }
    assert_eq!(with_velocity, 1);
}

#[test]
fn room_and_archetype_count_are_observable() {
    let mut world = test_world();
    assert!(world.has_room_to_spawn());
    assert_eq!(world.archetype_len(), 1);
    let e = world.spawn();
    world.insert_component(e, POSITION, pos(0.0, 0.0)).unwrap();
    assert_eq!(world.archetype_len(), 2);
    world.insert_component(e, POSITION, pos(1.0, 0.0)).unwrap();
    assert_eq!(world.archetype_len(), 2);
    world.remove_component(e, POSITION).unwrap();
    assert_eq!(world.archetype_len(), 2);
    assert!(world.has_room_to_spawn());
}

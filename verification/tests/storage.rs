use ribble_ecs::{Archetype, ComponentRegistry, EcsError, Entity, TypedColumn};

#[derive(Clone, Copy, Debug, PartialEq)]
struct Pos {
    x: f32,
}

#[test]
fn typed_column_push_swap_remove_len() {
    let mut col = TypedColumn::<Pos> { data: Vec::new() };
    col.push_any(Pos { x: 1.0 }).unwrap();
    col.push_any(Pos { x: 2.0 }).unwrap();
    col.push_any(Pos { x: 3.0 }).unwrap();
    assert_eq!(col.len(), 3);

    let removed = col.swap_remove_any(1);
    assert_eq!(removed, Pos { x: 2.0 });
    assert_eq!(col.len(), 2);
    assert_eq!(col.as_slice(), &[Pos { x: 1.0 }, Pos { x: 3.0 }]);
}

#[test]
fn typed_column_get_out_of_range_is_none() {
    let mut col = TypedColumn::<Pos>::new();
    assert!(col.is_empty());
    col.push_any(Pos { x: 4.0 }).unwrap();
    assert_eq!(col.get_any(0), Some(&Pos { x: 4.0 }));
    assert_eq!(col.get_any(1), None);
    if let Some(p) = col.get_any_mut(0) {
        p.x = 5.0;
    }
    assert_eq!(col.as_slice(), &[Pos { x: 5.0 }]);
    assert!(col.get_any_mut(7).is_none());
}

#[test]
fn registry_creates_columns_for_registered_kinds_only() {
    let mut reg = ComponentRegistry::new();
    assert!(!reg.is_registered(7));
    assert!(reg.create_column::<Pos>(7).is_none());
    reg.register(7);
    assert!(reg.is_registered(7));
    let col = reg.create_column::<Pos>(7).unwrap();
    assert_eq!(col.len(), 0);
}

#[test]
fn free_row_displaces_last_entity() {
    let mut arch = Archetype::<Pos>::new(0, vec![], vec![]);
    let e0 = Entity { index: 0, generation: 0 };
    let e1 = Entity { index: 1, generation: 0 };
    let e2 = Entity { index: 2, generation: 0 };

    arch.allocate_row(e0);
    arch.allocate_row(e1);
    arch.allocate_row(e2);

    let displaced = arch.free_row(1);
    assert_eq!(displaced, Some(e2));
    assert_eq!(arch.entities, vec![e0, e2]);
}

#[test]
fn free_last_row_displaces_nothing() {
    let mut arch = Archetype::<Pos>::new(0, vec![], vec![]);
    let e0 = Entity { index: 0, generation: 0 };
    arch.allocate_row(e0);
    assert_eq!(arch.free_row(0), None);
    assert!(arch.entities.is_empty());
}

#[test]
fn has_component_searches_the_signature() {
    let arch = Archetype::<Pos>::new(3, vec![2, 5, 9], vec![TypedColumn::new(), TypedColumn::new(), TypedColumn::new()]);
    assert!(arch.has_component(5));
    assert!(arch.has_component(9));
    assert!(!arch.has_component(4));
    assert!(!arch.has_component(10));
}

#[test]
fn error_messages() {
    assert_eq!(EcsError::DeadEntity.message(), "Entity is not alive");
    assert_eq!(EcsError::TypeMismatch.message(), "Component type mismatch during downcast");
    assert_eq!(EcsError::MissingLocation.message(), "Entity has no location in the world");
    assert_eq!(EcsError::UnregisteredComponent.message(), "Component type is not registered");
    assert_eq!(EcsError::MissingComponent.message(), "Entity does not have the requested component");
}

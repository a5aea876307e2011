use systems::ecs::VecStorage;

#[derive(Debug, PartialEq)]
struct Health(i32);

#[test]
fn test_storage_insert_get() {
    let mut storage: VecStorage<Health> = VecStorage::default();
    storage.insert(3, Health(7));
    assert_eq!(storage.get(3), Some(&Health(7)));
    assert_eq!(storage.get(0), None);
    assert_eq!(storage.get(10), None);
    storage.insert(3, Health(8));
    assert_eq!(storage.get(3), Some(&Health(8)));
}

#[test]
fn test_storage_get_mut_changes_in_place() {
    let mut storage: VecStorage<Health> = VecStorage::default();
    storage.insert(0, Health(100));
    if let Some(h) = storage.get_mut(0) {
        h.0 -= 10;
    }
    assert_eq!(storage.get(0), Some(&Health(90)));
    assert!(storage.get_mut(5).is_none());
}

#[derive(Debug, PartialEq)]
struct Speed(i32);

#[test]
fn test_storage_entries_in_entity_order() {
    let mut storage: VecStorage<Health> = VecStorage::default();
    storage.insert(5, Health(50));
    storage.insert(0, Health(1));
    storage.insert(2, Health(20));
    let entries = storage.entries();
    assert_eq!(entries, vec![(0, &Health(1)), (2, &Health(20)), (5, &Health(50))]);
    let empty: VecStorage<Health> = VecStorage::default();
    assert!(empty.entries().is_empty());
}

#[test]
fn test_storage_join_keeps_common_entities() {
    let mut health: VecStorage<Health> = VecStorage::default();
    let mut speed: VecStorage<Speed> = VecStorage::default();
    health.insert(0, Health(10));
    health.insert(1, Health(11));
    health.insert(2, Health(12));
    health.insert(9, Health(19));
    speed.insert(1, Speed(1));
    speed.insert(2, Speed(2));
    speed.insert(3, Speed(3));
    let joined = health.join(&speed);
    assert_eq!(joined, vec![(1, &Health(11), &Speed(1)), (2, &Health(12), &Speed(2))]);
    assert_eq!(speed.join(&health).len(), 2);
}

#[derive(Debug, PartialEq)]
struct Position {
    x: f32,
    y: f32,
}

#[derive(Debug, PartialEq)]
struct Velocity {
    dx: f32,
    dy: f32,
}

#[test]
fn test_queries() {
    let mut position: VecStorage<Position> = VecStorage::default();
    let mut velocity: VecStorage<Velocity> = VecStorage::default();
    let mut health: VecStorage<Health> = VecStorage::default();
    let (e0, e1, e2, e3) = (0, 1, 2, 3);
    position.insert(e0, Position { x: 0.0, y: 0.0 });
    position.insert(e1, Position { x: 1.0, y: 0.0 });
    velocity.insert(e1, Velocity { dx: 1.0, dy: 0.0 });
    position.insert(e2, Position { x: 2.0, y: 0.0 });
    velocity.insert(e2, Velocity { dx: 2.0, dy: 0.0 });
    health.insert(e2, Health(100));
    velocity.insert(e3, Velocity { dx: 3.0, dy: 0.0 });

    assert_eq!(position.entries().len(), 3);
    assert_eq!(velocity.entries().len(), 3);
    assert_eq!(health.entries().len(), 1);

    let pos_vel = position.join(&velocity);
    assert_eq!(pos_vel.len(), 2);
    let e1_result = pos_vel.iter().find(|(id, _, _)| *id == e1).unwrap();
    assert_eq!(e1_result.1, &Position { x: 1.0, y: 0.0 });
    assert_eq!(e1_result.2, &Velocity { dx: 1.0, dy: 0.0 });
}

#[test]
fn test_benchmark_stub() {
    let mut position: VecStorage<Position> = VecStorage::default();
    for e in 0..10_000 {
        position.insert(e, Position { x: 0.0, y: 0.0 });
    }
    let start = std::time::Instant::now();
    let query = position.entries();
    let elapsed = start.elapsed();
    assert_eq!(query.len(), 10_000);
    assert!(elapsed < std::time::Duration::from_millis(50));
}

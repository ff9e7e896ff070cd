use necst::Registry;

const POSITION: u64 = 1;
const VELOCITY: u64 = 2;
const COLOR: u64 = 3;

#[derive(Debug, Default, PartialEq, Clone, Copy)]
struct Position {
    x: i32,
    y: i32,
}

#[derive(Debug, Default, PartialEq, Clone, Copy)]
struct Velocity {
    dx: i32,
    dy: i32,
}

#[derive(Debug, Default, PartialEq, Clone, Copy)]
struct Color {
    r: u8,
    g: u8,
    b: u8,
}

#[derive(Debug, PartialEq, Clone, Copy)]
enum Comp {
    Position(Position),
    Velocity(Velocity),
    Color(Color),
}

#[test]
fn add_keeps_first_value() {
    let mut registry: Registry<Comp> = Registry::new();
    let entity = registry.create();
    registry.add(entity, POSITION, Comp::Position(Position { x: 1, y: 2 }));
    registry.add(entity, POSITION, Comp::Position(Position { x: 9, y: 9 }));
    assert_eq!(
        registry.get(entity, POSITION),
        Some(&Comp::Position(Position { x: 1, y: 2 }))
    );
}

#[test]
fn add_to_missing_entity_is_noop() {
    let mut registry: Registry<Comp> = Registry::new();
    registry.add(42, POSITION, Comp::Position(Position { x: 1, y: 2 }));
    assert!(!registry.alive(42));
    assert!(registry.get(42, POSITION).is_none());
    assert!(registry.view(&vec![POSITION]).is_empty());
}

#[test]
fn replace_requires_presence() {
    let mut registry: Registry<Comp> = Registry::new();
    let entity = registry.create();
    registry.replace(entity, POSITION, Comp::Position(Position { x: 7, y: 7 }));
    assert_eq!(registry.get(entity, POSITION), None);
    registry.add(entity, POSITION, Comp::Position(Position { x: 1, y: 2 }));
    registry.replace(entity, POSITION, Comp::Position(Position { x: 7, y: 7 }));
    assert_eq!(
        registry.get(entity, POSITION),
        Some(&Comp::Position(Position { x: 7, y: 7 }))
    );
}

#[test]
fn destroy_cascades() {
    let mut registry: Registry<Comp> = Registry::new();
    let entity = registry.create();
    registry.add(entity, POSITION, Comp::Position(Position { x: 1, y: 2 }));
    registry.add(entity, VELOCITY, Comp::Velocity(Velocity { dx: 3, dy: 4 }));
    registry.destroy(entity);
    assert!(!registry.alive(entity));
    assert!(registry.get(entity, POSITION).is_none());
    assert!(registry.get(entity, VELOCITY).is_none());
    assert!(registry.get(entity, COLOR).is_none());
    registry.destroy(entity);
    assert!(!registry.alive(entity));
}

#[test]
fn pool_dropped_with_last_holder() {
    let mut registry: Registry<Comp> = Registry::new();
    let e1 = registry.create();
    let e2 = registry.create();
    registry.add(e1, COLOR, Comp::Color(Color { r: 1, g: 2, b: 3 }));
    registry.remove(e1, COLOR);
    assert!(registry.view(&vec![COLOR]).is_empty());
    registry.add(e2, VELOCITY, Comp::Velocity(Velocity { dx: 1, dy: 1 }));
    assert!(registry.get(e1, COLOR).is_none());
    assert!(registry.get(e2, COLOR).is_none());
    registry.add(e2, COLOR, Comp::Color(Color { r: 9, g: 9, b: 9 }));
    let owners: Vec<u64> = registry.view(&vec![COLOR]).iter().map(|(e, _)| *e).collect();
    assert_eq!(owners, vec![e2]);
}

#[test]
fn view_matches_gets() {
    let mut registry: Registry<Comp> = Registry::new();
    let e1 = registry.create();
    registry.add(e1, POSITION, Comp::Position(Position { x: 1, y: 1 }));
    registry.add(e1, VELOCITY, Comp::Velocity(Velocity { dx: 2, dy: 2 }));
    registry.add(e1, COLOR, Comp::Color(Color::default()));
    let e2 = registry.create();
    registry.add(e2, POSITION, Comp::Position(Position { x: 3, y: 3 }));
    registry.add(e2, VELOCITY, Comp::Velocity(Velocity { dx: 4, dy: 4 }));
    let e3 = registry.create();
    registry.add(e3, POSITION, Comp::Position(Position { x: 5, y: 5 }));
    registry.add(e3, COLOR, Comp::Color(Color::default()));

    let rows = registry.view(&vec![POSITION, VELOCITY]);
    let mut owners: Vec<u64> = rows.iter().map(|(e, _)| *e).collect();
    owners.sort();
    assert_eq!(owners, vec![e1, e2]);
    for (e, row) in rows {
        assert_eq!(registry.get(e, POSITION), Some(&row[0]));
        assert_eq!(registry.get(e, VELOCITY), Some(&row[1]));
    }
    for e in [e1, e2, e3] {
        let both = registry.get(e, POSITION).is_some() && registry.get(e, VELOCITY).is_some();
        assert_eq!(both, owners.contains(&e));
    }
}

#[test]
fn view_missing_pool_is_empty() {
    let mut registry: Registry<Comp> = Registry::new();
    let e1 = registry.create();
    registry.add(e1, POSITION, Comp::Position(Position { x: 1, y: 1 }));
    assert!(registry.view(&vec![POSITION, VELOCITY]).is_empty());
    assert!(registry.view(&vec![VELOCITY, POSITION]).is_empty());
}

#[test]
fn null_entity_never_lives() {
    let mut registry: Registry<Comp> = Registry::new();
    assert!(!registry.alive(0));
    registry.add(0, POSITION, Comp::Position(Position { x: 1, y: 1 }));
    registry.replace(0, POSITION, Comp::Position(Position { x: 1, y: 1 }));
    registry.destroy(0);
    assert!(!registry.alive(0));
    assert!(registry.get(0, POSITION).is_none());
    let e = registry.create();
    assert_ne!(e, 0);
    assert!(!registry.alive(0));
}

#[test]
fn ids_strictly_increase_and_never_return() {
    let mut registry: Registry<Comp> = Registry::new();
    let e1 = registry.create();
    let e2 = registry.create();
    assert!(e1 < e2);
    registry.destroy(e2);
    let e3 = registry.create();
    assert!(e2 < e3);
    assert!(!registry.alive(e2));
}

#[test]
fn patch_skips_missing_component() {
    let mut registry: Registry<Comp> = Registry::new();
    let entity = registry.create();
    registry.patch(entity, POSITION, |_c| panic!("mutator ran without a component"));
    assert!(registry.get(entity, POSITION).is_none());
    registry.add(entity, POSITION, Comp::Position(Position { x: 1, y: 2 }));
    registry.patch(entity, POSITION, |c| match c {
        Comp::Position(p) => Comp::Position(Position { x: p.x + 10, y: p.y }),
        other => other,
    });
    assert_eq!(
        registry.get(entity, POSITION),
        Some(&Comp::Position(Position { x: 11, y: 2 }))
    );
}

#[test]
fn get_all_slots_are_independent() {
    let mut registry: Registry<Comp> = Registry::new();
    let entity = registry.create();
    registry.add(entity, VELOCITY, Comp::Velocity(Velocity { dx: 8, dy: 9 }));
    let all = registry.get_all(entity, &vec![POSITION, VELOCITY, COLOR]);
    assert_eq!(all[0], None);
    assert_eq!(all[1], Some(Comp::Velocity(Velocity { dx: 8, dy: 9 })));
    assert_eq!(all[2], None);
    let none = registry.get_all(99, &vec![POSITION, VELOCITY]);
    assert_eq!(none, vec![None, None]);
}

#[test]
fn create_with_equals_create_then_adds() {
    let mut registry: Registry<Comp> = Registry::new();
    let entity = registry.create_with(vec![
        (POSITION, Comp::Position(Position { x: 10, y: 20 })),
        (VELOCITY, Comp::Velocity(Velocity { dx: -50, dy: -100 })),
        (POSITION, Comp::Position(Position { x: 77, y: 77 })),
    ]);
    assert!(registry.alive(entity));
    assert_eq!(
        registry.get(entity, POSITION),
        Some(&Comp::Position(Position { x: 10, y: 20 }))
    );
    assert_eq!(
        registry.get(entity, VELOCITY),
        Some(&Comp::Velocity(Velocity { dx: -50, dy: -100 }))
    );
    assert_eq!(registry.get(entity, COLOR), None);
}

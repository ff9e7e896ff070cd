use necst::Registry;

const POSITION: u64 = 1;
const VELOCITY: u64 = 2;
const COLOR: u64 = 3;
const INTS: u64 = 4;

#[derive(Debug, Default, PartialEq, Clone, Copy)]
struct Position {
    x: i32,
    y: i32,
}

#[derive(Debug, Default, PartialEq, Clone, Copy)]
struct Velocity {
    dx: i32,
    dy: i32,
}

#[derive(Debug, Default, PartialEq, Clone, Copy)]
struct Color {
    r: u8,
    g: u8,
    b: u8,
}

#[derive(Debug, PartialEq, Clone, Copy)]
enum Comp {
    Position(Position),
    Velocity(Velocity),
    Color(Color),
}

#[derive(Debug, PartialEq, Clone)]
enum Comp2 {
    Position(Position),
    Velocity(Velocity),
    Color(Color),
    Ints(Vec<usize>),
}

#[test]
fn registry() {
    let mut registry: Registry<Comp> = Registry::new();
    let entity = registry.create();

    registry.add(entity, POSITION, Comp::Position(Position { x: 10, y: 20 }));
    registry.add(entity, VELOCITY, Comp::Velocity(Velocity { dx: -50, dy: -100 }));
    registry.add(entity, COLOR, Comp::Color(Color::default()));
    registry.replace(entity, POSITION, Comp::Position(Position { x: 40, y: 80 }));
    registry.remove(entity, COLOR);

    assert!(!registry.alive(10));
    assert!(registry.get(10, POSITION).is_none());
    assert!(registry.get(10, VELOCITY).is_none());
    assert!(registry.get(10, COLOR).is_none());

    assert!(registry.alive(entity));
    assert_eq!(
        registry.get(entity, POSITION),
        Some(&Comp::Position(Position { x: 40, y: 80 }))
    );
    assert_eq!(
        registry.get(entity, VELOCITY),
        Some(&Comp::Velocity(Velocity { dx: -50, dy: -100 }))
    );
    assert_eq!(registry.get(entity, COLOR), None);

    registry.patch(entity, VELOCITY, |c| match c {
        Comp::Velocity(vel) => Comp::Velocity(Velocity { dx: vel.dx, dy: vel.dy - 20 }),
        other => other,
    });
    assert_ne!(
        registry.get(entity, VELOCITY),
        Some(&Comp::Velocity(Velocity { dx: -50, dy: -100 }))
    );
    assert_eq!(
        registry.get(entity, VELOCITY),
        Some(&Comp::Velocity(Velocity { dx: -50, dy: -120 }))
    );

    registry.destroy(entity);
    assert!(!registry.alive(entity));
    assert!(registry.get(entity, POSITION).is_none());
    assert!(registry.get(entity, VELOCITY).is_none());
    assert!(registry.get(entity, COLOR).is_none());
}

#[test]
fn registry2() {
    let mut registry: Registry<Comp2> = Registry::new();
    let _entity = registry.create_with(vec![(POSITION, Comp2::Position(Position::default()))]);
    let _entity = registry.create_with(vec![
        (POSITION, Comp2::Position(Position::default())),
        (VELOCITY, Comp2::Velocity(Velocity::default())),
    ]);
    let _entity = registry.create_with(vec![
        (POSITION, Comp2::Position(Position::default())),
        (VELOCITY, Comp2::Velocity(Velocity::default())),
        (COLOR, Comp2::Color(Color::default())),
    ]);
    let _entity = registry.create_with(vec![
        (POSITION, Comp2::Position(Position::default())),
        (VELOCITY, Comp2::Velocity(Velocity::default())),
        (COLOR, Comp2::Color(Color::default())),
        (INTS, Comp2::Ints(Vec::<usize>::default())),
    ]);
}

#[test]
fn get_tuple() {
    let mut registry: Registry<Comp> = Registry::new();
    let entity = registry.create();
    registry.add(entity, POSITION, Comp::Position(Position::default()));
    registry.add(entity, VELOCITY, Comp::Velocity(Velocity::default()));
    registry.add(entity, COLOR, Comp::Color(Color::default()));
    registry.replace(entity, POSITION, Comp::Position(Position::default()));
    registry.remove(entity, COLOR);

    let all = registry.get_all(entity, &vec![POSITION, VELOCITY, COLOR]);
    assert!(all[0].is_some());
    assert!(all[1].is_some());
    assert!(all[2].is_none());

    let all = registry.get_all(entity, &vec![POSITION, VELOCITY]);
    assert!(all[0].is_some());
    assert!(all[1].is_some());

    let all = registry.get_all(entity, &vec![POSITION, VELOCITY]);
    assert!(all[0].is_some());
    assert!(all[1].is_some());

    let all = registry.get_all(entity, &vec![COLOR]);
    assert!(all[0].is_none());
}

#[test]
fn view() {
    let mut registry: Registry<Comp> = Registry::new();
    let e1 = registry.create();
    registry.add(e1, POSITION, Comp::Position(Position { x: 10, y: 20 }));
    registry.add(e1, VELOCITY, Comp::Velocity(Velocity { dx: -50, dy: -100 }));
    registry.add(e1, COLOR, Comp::Color(Color::default()));
    let e2 = registry.create();
    registry.add(e2, POSITION, Comp::Position(Position { x: 20, y: 30 }));
    registry.add(e2, VELOCITY, Comp::Velocity(Velocity { dx: -60, dy: -200 }));
    let e3 = registry.create();
    registry.add(e3, POSITION, Comp::Position(Position { x: 20, y: 30 }));
    registry.add(e3, COLOR, Comp::Color(Color::default()));
    let e4 = registry.create();
    registry.add(e4, POSITION, Comp::Position(Position { x: 30, y: 50 }));
    registry.add(e4, VELOCITY, Comp::Velocity(Velocity { dx: -80, dy: -500 }));
    registry.add(e4, COLOR, Comp::Color(Color::default()));

    let all = registry.view(&vec![POSITION]);
    let mut owners: Vec<u64> = all.iter().map(|(e, _)| *e).collect();
    owners.sort();
    assert_eq!(owners, vec![e1, e2, e3, e4]);

    let mut owners: Vec<u64> = Vec::new();
    for (entt, _row) in registry.view(&vec![POSITION, VELOCITY]) {
        owners.push(entt);
    }
    owners.sort();
    assert_eq!(owners, vec![e1, e2, e4]);

    let mut owners: Vec<u64> = Vec::new();
    registry
        .view(&vec![POSITION, VELOCITY, COLOR])
        .iter()
        .for_each(|(entt, _row)| {
            owners.push(*entt);
        });
    owners.sort();
    assert_eq!(owners, vec![e1, e4]);
}

use game_core::common::Position;
use game_core::enemy::{get_random_free_position, position_is_free};
use game_core::geom::Vec2i;
use game_core::health_system::HealthData;
use game_core::hitbox::Hitbox;
use game_core::map::{despawn_map, LevelMap, MapStorage};
use game_core::move_system::{
    MoveObjectType, MoveSystemObject, MoveSystemObjectWithVelocity, VelocityVector,
};
use game_core::parser::{get_filename, get_string_from_id, ParsedEntity};
use game_core::world::World;

fn rect(w: i64, h: i64) -> Hitbox {
    Hitbox::new_rectangle(Vec2i::new(w, h))
}

#[test]
fn spawn_and_read_back() {
    let mut world = World::new();
    let id = world.spawn_object(
        Vec2i::new(7, -3),
        MoveSystemObjectWithVelocity::new(MoveObjectType::Player, rect(30, 30), Vec2i::new(1, 2)),
        Some(HealthData::new_health(42)),
    );
    assert_eq!(world.get_position(id), Some(Vec2i::new(7, -3)));
    let h = world.get_health(id).unwrap();
    assert_eq!(h.max_health, 42);
    assert_eq!(h.current_health, 42);
    assert_eq!(world.entities[0].velocity, Some(VelocityVector(Vec2i::new(1, 2))));
}

#[test]
fn spawn_static_has_no_velocity() {
    let mut world = World::new();
    let id = world.spawn_static(
        Vec2i::new(0, 0),
        MoveSystemObject::new(MoveObjectType::Obstacle, rect(50, 50)),
        None,
    );
    assert!(world.entities[0].velocity.is_none());
    assert!(world.get_health(id).is_none());
}

#[test]
fn remove_entity_frees_the_id() {
    let mut world = World::new();
    let a = world.spawn(Vec2i::new(0, 0), MoveObjectType::Enemy, rect(30, 30), None, None);
    let b = world.spawn(Vec2i::new(90, 0), MoveObjectType::Enemy, rect(30, 30), None, None);
    assert!(world.remove_entity(a));
    assert!(!world.remove_entity(a));
    assert_eq!(world.get_position(a), None);
    assert_eq!(world.get_position(b), Some(Vec2i::new(90, 0)));
}

#[test]
fn filename_is_prefix_plus_decimal_id() {
    assert_eq!(get_filename(&7), "maps/map7");
    assert_eq!(get_filename(&0), "maps/map0");
    assert_eq!(get_filename(&412), "maps/map412");
    assert_eq!(get_string_from_id(&12345), "12345");
    assert_eq!(get_string_from_id(&u32::MAX), "4294967295");
}

#[test]
fn map_storage_keeps_loaded_maps() {
    let mut storage = MapStorage::new();
    assert!(!storage.contains(3));
    let mut map = LevelMap::new();
    map.insert(ParsedEntity {
        move_type: MoveObjectType::Floor,
        position: Position(0, 0),
        hitbox: rect(100, 100),
    });
    storage.insert(3, map);
    assert!(storage.contains(3));
    assert_eq!(storage.get(3).unwrap().len(), 1);
    assert!(storage.get(4).is_none());
    let removed = storage.remove(3).unwrap();
    assert_eq!(removed.len(), 1);
    assert!(!storage.contains(3));
    assert!(storage.remove(3).is_none());
}

#[test]
fn maps_hold_only_obstacles_and_floor() {
    let good = vec![
        ParsedEntity {
            move_type: MoveObjectType::Obstacle,
            position: Position(10, 20),
            hitbox: rect(50, 50),
        },
        ParsedEntity {
            move_type: MoveObjectType::Floor,
            position: Position(0, 0),
            hitbox: rect(100, 100),
        },
    ];
    let map = LevelMap::from_entities(good).unwrap();
    assert_eq!(map.len(), 2);
    assert_eq!(map.get(0).position, Position(10, 20));

    let bad = vec![ParsedEntity {
        move_type: MoveObjectType::Player,
        position: Position(0, 0),
        hitbox: rect(30, 30),
    }];
    assert!(LevelMap::from_entities(bad).is_none());
}

#[test]
fn free_position_check_is_exact() {
    let others = vec![(Vec2i::new(0, 0), rect(30, 30))];
    // overlapping spot
    assert!(!position_is_free(&others, rect(30, 30), Vec2i::new(10, 10)));
    // touching edge is free
    assert!(position_is_free(&others, rect(30, 30), Vec2i::new(30, 0)));
    // far away is free
    assert!(position_is_free(&others, rect(30, 30), Vec2i::new(200, 200)));
}

#[test]
fn random_positions_are_free_and_in_window() {
    let others = vec![
        (Vec2i::new(0, 0), rect(100, 100)),
        (Vec2i::new(-200, -100), rect(100, 100)),
    ];
    for _ in 0..20 {
        let p = get_random_free_position(&others, rect(30, 30)).unwrap();
        assert!((-450..450).contains(&p.x));
        assert!((-250..250).contains(&p.y));
        assert!(position_is_free(&others, rect(30, 30), p));
    }
}

#[test]
fn map_teardown_keeps_only_the_player() {
    let mut world = World::new();
    world.spawn(Vec2i::new(0, 0), MoveObjectType::Floor, rect(100, 100), None, None);
    let player = world.spawn(Vec2i::new(10, 0), MoveObjectType::Player, rect(30, 30), None, None);
    world.spawn(Vec2i::new(50, 0), MoveObjectType::Obstacle, rect(50, 50), None, None);
    world.spawn(Vec2i::new(90, 0), MoveObjectType::Enemy, rect(30, 30), None, None);
    despawn_map(&mut world);
    assert_eq!(world.entities.len(), 1);
    assert_eq!(world.entities[0].id, player);
}

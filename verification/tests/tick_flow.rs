use game_core::bullet::{despawn_bullets_after_collision, on_collision_bullet};
use game_core::enemy::{collect_spawn_obstacles, despawn_dead_enemies, enemies_take_damage};
use game_core::game::{
    check_if_player_finished_level, next_level, reset_level_number, Level, MAX_LEVEL,
    PLAYER_BOOST_HEALTH,
};
use game_core::geom::Vec2i;
use game_core::health_system::{DeathEvent, HealEvent, HealthData};
use game_core::hitbox::Hitbox;
use game_core::move_system::{MoveObjectType, VelocityVector};
use game_core::player::player_dies;
use game_core::tick::{run_tick, VelocityIntent};
use game_core::world::World;

fn rect(w: i64, h: i64) -> Hitbox {
    Hitbox::new_rectangle(Vec2i::new(w, h))
}

fn vel0() -> Option<VelocityVector> {
    Some(VelocityVector(Vec2i::new(0, 0)))
}

// One full tick: an enemy bullet flies into the player. Both collision
// events appear; the bullet takes a point for its hit and dies of it; the
// player takes a point; the bullet despawner removes the bullet.
#[test]
fn full_tick_bullet_hits_player() {
    let mut world = World::new();
    let player = world.spawn(
        Vec2i::new(0, 0),
        MoveObjectType::Player,
        rect(30, 30),
        vel0(),
        Some(HealthData::new_health(42)),
    );
    let bullet = world.spawn(
        Vec2i::new(25, 0),
        MoveObjectType::EnemyBullet,
        rect(5, 5),
        vel0(),
        Some(HealthData::new_health(1)),
    );
    let intents = vec![VelocityIntent { id: bullet, delta: Vec2i::new(-50, 0) }];
    let heals: Vec<HealEvent> = Vec::new();
    let out = run_tick(&mut world, &intents, &heals, 100);

    assert_eq!(out.collisions.len(), 2);
    assert_eq!(out.damages.len(), 2);
    assert!(out.damages.iter().any(|d| d.id == bullet && d.amount == 1));
    assert!(out.damages.iter().any(|d| d.id == player && d.amount == 1));
    assert_eq!(out.deaths.len(), 1);
    assert_eq!(out.deaths[0].id, bullet);
    assert_eq!(world.get_health(player).unwrap().current_health, 41);
    assert_eq!(world.get_health(bullet).unwrap().current_health, 0);
    assert!(!player_dies(&world, &out.deaths));

    despawn_bullets_after_collision(&mut world, &out.deaths);
    assert!(world.get_position(bullet).is_none());
    assert!(world.get_position(player).is_some());
}

// A tick with nothing near: everyone moves by velocity x dt and nothing
// else happens.
#[test]
fn quiet_tick_moves_everyone() {
    let mut world = World::new();
    let a = world.spawn(Vec2i::new(0, 0), MoveObjectType::Player, rect(30, 30), vel0(), None);
    let b = world.spawn(Vec2i::new(200, 100), MoveObjectType::Enemy, rect(30, 30), vel0(), None);
    let intents = vec![
        VelocityIntent { id: a, delta: Vec2i::new(40, -20) },
        VelocityIntent { id: b, delta: Vec2i::new(-10, 0) },
    ];
    let heals: Vec<HealEvent> = Vec::new();
    let out = run_tick(&mut world, &intents, &heals, 500);
    assert!(out.collisions.is_empty());
    assert!(out.damages.is_empty());
    assert!(out.deaths.is_empty());
    assert_eq!(world.get_position(a), Some(Vec2i::new(20, -10)));
    assert_eq!(world.get_position(b), Some(Vec2i::new(195, 100)));
}

// Intents are cleared between ticks: a second tick without intents leaves
// everyone in place.
#[test]
fn velocity_does_not_carry_over() {
    let mut world = World::new();
    let a = world.spawn(Vec2i::new(0, 0), MoveObjectType::Player, rect(30, 30), vel0(), None);
    let intents = vec![VelocityIntent { id: a, delta: Vec2i::new(100, 0) }];
    let heals: Vec<HealEvent> = Vec::new();
    run_tick(&mut world, &intents, &heals, 1000);
    assert_eq!(world.get_position(a), Some(Vec2i::new(100, 0)));
    let no_intents: Vec<VelocityIntent> = Vec::new();
    run_tick(&mut world, &no_intents, &heals, 1000);
    assert_eq!(world.get_position(a), Some(Vec2i::new(100, 0)));
}

#[test]
fn enemies_take_damage_only_from_player_bullets() {
    let mut world = World::new();
    let enemy = world.spawn(Vec2i::new(0, 0), MoveObjectType::Enemy, rect(30, 30), vel0(), None);
    let bullet = world.spawn(
        Vec2i::new(20, 0),
        MoveObjectType::PlayerBullet,
        rect(5, 5),
        vel0(),
        Some(HealthData::new_health(1)),
    );
    let heals: Vec<HealEvent> = Vec::new();
    let no_intents: Vec<VelocityIntent> = Vec::new();
    let out = run_tick(&mut world, &no_intents, &heals, 100);
    assert_eq!(out.collisions.len(), 2);
    let enemy_damage = enemies_take_damage(&world, &out.collisions);
    assert_eq!(enemy_damage.len(), 1);
    assert_eq!(enemy_damage[0].id, enemy);
    let bullet_damage = on_collision_bullet(&world, &out.collisions);
    assert_eq!(bullet_damage.len(), 1);
    assert_eq!(bullet_damage[0].id, bullet);
}

#[test]
fn dead_enemies_leave_remains_where_they_stood() {
    let mut world = World::new();
    let enemy = world.spawn(Vec2i::new(70, 80), MoveObjectType::Enemy, rect(30, 30), None, None);
    let other = world.spawn(Vec2i::new(0, 0), MoveObjectType::Player, rect(30, 30), None, None);
    let deaths = vec![DeathEvent { id: enemy }, DeathEvent { id: other }];
    let remains = despawn_dead_enemies(&mut world, &deaths);
    assert_eq!(remains, vec![Vec2i::new(70, 80)]);
    assert!(world.get_position(enemy).is_none());
    // the player is not an enemy: the enemy despawner leaves it alone
    assert!(world.get_position(other).is_some());
}

#[test]
fn player_death_is_noticed() {
    let mut world = World::new();
    let player = world.spawn(Vec2i::new(0, 0), MoveObjectType::Player, rect(30, 30), None, None);
    let enemy = world.spawn(Vec2i::new(90, 0), MoveObjectType::Enemy, rect(30, 30), None, None);
    assert!(player_dies(&world, &vec![DeathEvent { id: player }]));
    assert!(!player_dies(&world, &vec![DeathEvent { id: enemy }]));
    assert!(!player_dies(&world, &Vec::new()));
}

#[test]
fn level_flow_advances_and_ends() {
    let mut level = Level { current: 1 };
    assert!(next_level(&mut level));
    assert_eq!(level.current, 2);
    assert!(next_level(&mut level));
    assert_eq!(level.current, MAX_LEVEL);
    assert!(!next_level(&mut level));
    assert_eq!(level.current, MAX_LEVEL);
    reset_level_number(&mut level);
    assert_eq!(level.current, 1);
}

#[test]
fn finished_level_heals_the_player() {
    let mut world = World::new();
    let player = world.spawn(
        Vec2i::new(0, 0),
        MoveObjectType::Player,
        rect(30, 30),
        None,
        Some(HealthData { max_health: 42, current_health: 10 }),
    );
    let (finished, heal) = check_if_player_finished_level(&world, true);
    assert!(finished);
    let heal = heal.unwrap();
    assert_eq!(heal.id, player);
    assert_eq!(heal.amount, PLAYER_BOOST_HEALTH);

    // enemies still to spawn: not finished
    let (finished2, heal2) = check_if_player_finished_level(&world, false);
    assert!(!finished2);
    assert!(heal2.is_none());

    // a live enemy: not finished
    world.spawn(Vec2i::new(90, 0), MoveObjectType::Enemy, rect(30, 30), None, None);
    let (finished3, heal3) = check_if_player_finished_level(&world, true);
    assert!(!finished3);
    assert!(heal3.is_none());
}

#[test]
fn spawn_obstacles_cover_solid_kinds_only() {
    let mut world = World::new();
    world.spawn(Vec2i::new(0, 0), MoveObjectType::Player, rect(30, 30), None, None);
    world.spawn(Vec2i::new(50, 0), MoveObjectType::Floor, rect(100, 100), None, None);
    world.spawn(Vec2i::new(100, 0), MoveObjectType::Obstacle, rect(50, 50), None, None);
    world.spawn(Vec2i::new(150, 0), MoveObjectType::PlayerBullet, rect(5, 5), None, None);
    world.spawn(Vec2i::new(200, 0), MoveObjectType::Enemy, rect(30, 30), None, None);
    let obstacles = collect_spawn_obstacles(&world);
    assert_eq!(
        obstacles,
        vec![
            (Vec2i::new(0, 0), rect(30, 30)),
            (Vec2i::new(100, 0), rect(50, 50)),
            (Vec2i::new(200, 0), rect(30, 30)),
        ]
    );
}

use game_core::collision::move_system;
use game_core::geom::{axis_step, zone_x, zone_y, Vec2i};
use game_core::hitbox::Hitbox;
use game_core::move_system::{
    add_velocity, allow_overlap, clear_velocity_vector, ignore_collision, CollisionEvent,
    MoveObjectType, VelocityVector,
};
use game_core::player::player_takes_damage;
use game_core::world::World;

fn rect(w: i64, h: i64) -> Hitbox {
    Hitbox::new_rectangle(Vec2i::new(w, h))
}

fn vel(x: i64, y: i64) -> Option<VelocityVector> {
    Some(VelocityVector(Vec2i::new(x, y)))
}

#[test]
fn axis_step_truncates_toward_zero() {
    assert_eq!(axis_step(-50, 100), -5);
    assert_eq!(axis_step(50, 100), 5);
    assert_eq!(axis_step(7, 100), 0);
    assert_eq!(axis_step(-7, 100), 0);
    assert_eq!(axis_step(100, 1000), 100);
    assert_eq!(axis_step(0, 1000), 0);
}

#[test]
fn zones_clamp_to_the_grid() {
    assert_eq!(zone_x(-100_000), 0);
    assert_eq!(zone_x(-501), 0);
    assert_eq!(zone_x(-500), 0);
    assert_eq!(zone_x(0), 5);
    assert_eq!(zone_x(549), 10);
    assert_eq!(zone_x(100_000), 10);
    assert_eq!(zone_y(-100_000), 0);
    assert_eq!(zone_y(0), 3);
    assert_eq!(zone_y(100_000), 6);
}

// Clearing is idempotent on observations: after the clear phase every
// tracked accumulator is exactly zero, whatever it held before.
#[test]
fn clear_zeroes_every_accumulator() {
    let mut world = World::new();
    let a = world.spawn(Vec2i::new(0, 0), MoveObjectType::Player, rect(30, 30), vel(17, -4), None);
    let b = world.spawn(Vec2i::new(90, 0), MoveObjectType::Enemy, rect(30, 30), vel(-1, 1), None);
    let c = world.spawn(Vec2i::new(0, 90), MoveObjectType::Obstacle, rect(30, 30), None, None);
    clear_velocity_vector(&mut world);
    for e in world.entities.iter() {
        if e.id == a || e.id == b {
            assert_eq!(e.velocity, Some(VelocityVector(Vec2i::new(0, 0))));
        }
        if e.id == c {
            assert!(e.velocity.is_none());
        }
    }
    // clearing again changes nothing
    clear_velocity_vector(&mut world);
    assert_eq!(world.entities[0].velocity, Some(VelocityVector(Vec2i::new(0, 0))));
}

// Velocity contributions commute: the same intents in another order sum
// to the same accumulator.
#[test]
fn intents_commute() {
    let contributions = [
        Vec2i::new(3, -2),
        Vec2i::new(-10, 5),
        Vec2i::new(7, 7),
        Vec2i::new(0, -1),
    ];
    let mut world1 = World::new();
    let id1 = world1.spawn(Vec2i::new(0, 0), MoveObjectType::Player, rect(30, 30), vel(0, 0), None);
    for c in contributions.iter() {
        assert!(add_velocity(&mut world1, id1, *c));
    }
    let mut world2 = World::new();
    let id2 = world2.spawn(Vec2i::new(0, 0), MoveObjectType::Player, rect(30, 30), vel(0, 0), None);
    for c in contributions.iter().rev() {
        assert!(add_velocity(&mut world2, id2, *c));
    }
    assert_eq!(world1.entities[0].velocity, world2.entities[0].velocity);
    assert_eq!(world1.entities[0].velocity, Some(VelocityVector(Vec2i::new(0, 9))));
}

#[test]
fn add_velocity_rejects_out_of_bounds_and_missing() {
    let mut world = World::new();
    let id = world.spawn(Vec2i::new(0, 0), MoveObjectType::Player, rect(30, 30), vel(0, 0), None);
    let stat = world.spawn(Vec2i::new(90, 0), MoveObjectType::Obstacle, rect(30, 30), None, None);
    assert!(!add_velocity(&mut world, id + 100, Vec2i::new(1, 1)));
    assert!(!add_velocity(&mut world, stat, Vec2i::new(1, 1)));
    assert!(!add_velocity(&mut world, id, Vec2i::new(i64::MAX, 0)));
    assert_eq!(world.entities[0].velocity, Some(VelocityVector(Vec2i::new(0, 0))));
}

// Scenario: two rectangles of size (30,30) at distance 40 on the x-axis,
// a blocking kind pair, zero velocity: no event and no blocking.
#[test]
fn separated_rectangles_neither_collide_nor_block() {
    let mut world = World::new();
    let a = world.spawn(Vec2i::new(0, 0), MoveObjectType::Player, rect(30, 30), vel(0, 0), None);
    let b = world.spawn(Vec2i::new(40, 0), MoveObjectType::Obstacle, rect(30, 30), None, None);
    let events = move_system(&mut world, 100);
    assert!(events.is_empty());
    assert_eq!(world.get_position(a), Some(Vec2i::new(0, 0)));
    assert_eq!(world.get_position(b), Some(Vec2i::new(40, 0)));
}

// Scenario: the player at (0,0) size (30,30); an enemy projectile at
// (25,0) size (5,5) moving at (-50,0); dt = 0.1 s. The projectile is
// bucketed at its projected position (20,0), which overlaps the player:
// two collision events, and the damage mapper turns the player-side event
// into one point of damage on the player.
#[test]
fn projectile_projection_hits_player() {
    let mut world = World::new();
    let player = world.spawn(
        Vec2i::new(0, 0),
        MoveObjectType::Player,
        rect(30, 30),
        vel(0, 0),
        None,
    );
    let bullet = world.spawn(
        Vec2i::new(25, 0),
        MoveObjectType::EnemyBullet,
        rect(5, 5),
        vel(-50, 0),
        None,
    );
    let events = move_system(&mut world, 100);
    assert_eq!(events.len(), 2);
    let from_player: Vec<&CollisionEvent> =
        events.iter().filter(|e| e.object_id == player).collect();
    let from_bullet: Vec<&CollisionEvent> =
        events.iter().filter(|e| e.object_id == bullet).collect();
    assert_eq!(from_player.len(), 1);
    assert_eq!(from_bullet.len(), 1);
    assert_eq!(from_player[0].object_type, MoveObjectType::Player);
    assert_eq!(from_player[0].collided_with_id, bullet);
    assert_eq!(from_player[0].collided_with_type, MoveObjectType::EnemyBullet);
    assert_eq!(from_bullet[0].collided_with_id, player);

    let damage = player_takes_damage(&world, &events);
    assert_eq!(damage.len(), 1);
    assert_eq!(damage[0].id, player);
    assert_eq!(damage[0].amount, 1);

    // the pair blocks: neither position advanced
    assert_eq!(world.get_position(player), Some(Vec2i::new(0, 0)));
    assert_eq!(world.get_position(bullet), Some(Vec2i::new(25, 0)));
}

// Collision symmetry on concrete values: exactly two events, one from
// each side's point of view, in the same tick.
#[test]
fn every_overlap_yields_two_mirrored_events() {
    let mut world = World::new();
    let a = world.spawn(Vec2i::new(0, 0), MoveObjectType::Player, rect(30, 30), vel(0, 0), None);
    let b = world.spawn(Vec2i::new(10, 10), MoveObjectType::Obstacle, rect(30, 30), None, None);
    let events = move_system(&mut world, 100);
    assert_eq!(events.len(), 2);
    let mirrored = CollisionEvent {
        object_id: events[0].collided_with_id,
        object_type: events[0].collided_with_type,
        collided_with_id: events[0].object_id,
        collided_with_type: events[0].object_type,
    };
    assert_eq!(events[1], mirrored);
    assert!(events.iter().any(|e| e.object_id == a && e.collided_with_id == b));
    assert!(events.iter().any(|e| e.object_id == b && e.collided_with_id == a));
}

// Blocking correctness, ignore half: an ignored kind pair yields no event
// even on geometric overlap, and both keep moving.
#[test]
fn ignored_pairs_emit_nothing_and_keep_moving() {
    assert!(ignore_collision(&MoveObjectType::Enemy, &MoveObjectType::Enemy));
    assert!(!allow_overlap(&MoveObjectType::Enemy, &MoveObjectType::Enemy));
    let mut world = World::new();
    let a = world.spawn(Vec2i::new(0, 0), MoveObjectType::Enemy, rect(30, 30), vel(10, 0), None);
    let b = world.spawn(Vec2i::new(10, 0), MoveObjectType::Enemy, rect(30, 30), vel(0, 0), None);
    let events = move_system(&mut world, 1000);
    assert!(events.is_empty());
    assert_eq!(world.get_position(a), Some(Vec2i::new(10, 0)));
    assert_eq!(world.get_position(b), Some(Vec2i::new(10, 0)));
}

// Blocking correctness, block half: an overlapping blocking pair holds
// both entities in place for the tick.
#[test]
fn blocking_pair_is_held_in_place() {
    let mut world = World::new();
    let a = world.spawn(Vec2i::new(0, 0), MoveObjectType::Player, rect(30, 30), vel(70, 0), None);
    let b = world.spawn(Vec2i::new(60, 0), MoveObjectType::Obstacle, rect(30, 30), None, None);
    // projected player position (70, 0) overlaps the obstacle at (60, 0)
    let events = move_system(&mut world, 1000);
    assert_eq!(events.len(), 2);
    assert_eq!(world.get_position(a), Some(Vec2i::new(0, 0)));
    assert_eq!(world.get_position(b), Some(Vec2i::new(60, 0)));
}

// The policy table is symmetric.
#[test]
fn policy_table_is_symmetric() {
    let kinds = [
        MoveObjectType::Obstacle,
        MoveObjectType::Floor,
        MoveObjectType::Player,
        MoveObjectType::Enemy,
        MoveObjectType::PlayerBullet,
        MoveObjectType::EnemyBullet,
    ];
    for t1 in kinds.iter() {
        for t2 in kinds.iter() {
            assert_eq!(ignore_collision(t1, t2), ignore_collision(t2, t1));
            assert_eq!(allow_overlap(t1, t2), allow_overlap(t2, t1));
        }
    }
}

// Floor never takes part: no event and no movement for floor tiles.
#[test]
fn floor_neither_collides_nor_moves() {
    let mut world = World::new();
    let floor = world.spawn(
        Vec2i::new(0, 0),
        MoveObjectType::Floor,
        rect(100, 100),
        vel(50, 0),
        None,
    );
    let a = world.spawn(Vec2i::new(10, 10), MoveObjectType::Obstacle, rect(30, 30), None, None);
    let events = move_system(&mut world, 1000);
    assert!(events.is_empty());
    assert_eq!(world.get_position(floor), Some(Vec2i::new(0, 0)));
    assert_eq!(world.get_position(a), Some(Vec2i::new(10, 10)));
}

// Touching edges do not overlap: distance exactly the extent gives no
// event.
#[test]
fn touching_edges_do_not_collide() {
    let mut world = World::new();
    world.spawn(Vec2i::new(0, 0), MoveObjectType::Player, rect(30, 30), vel(0, 0), None);
    world.spawn(Vec2i::new(30, 0), MoveObjectType::Obstacle, rect(30, 30), None, None);
    let events = move_system(&mut world, 100);
    assert!(events.is_empty());
}

// Overlaps across a cell boundary are still found: the pair stands in
// adjacent grid cells.
#[test]
fn overlap_across_cell_boundary_is_detected() {
    let mut world = World::new();
    // cell boundary at x == 100: (-500 + 6 * 100)
    let a = world.spawn(Vec2i::new(80, 0), MoveObjectType::Player, rect(30, 30), vel(0, 0), None);
    let b = world.spawn(Vec2i::new(105, 0), MoveObjectType::Obstacle, rect(30, 30), None, None);
    let events = move_system(&mut world, 100);
    assert_eq!(events.len(), 2);
    assert!(events.iter().any(|e| e.object_id == a && e.collided_with_id == b));
}

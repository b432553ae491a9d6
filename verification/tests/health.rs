use game_core::geom::Vec2i;
use game_core::health_system::{health_system, HealEvent, HealthData, TakeDamageEvent};
use game_core::hitbox::Hitbox;
use game_core::move_system::MoveObjectType;
use game_core::world::World;

fn world_with_health(max_health: usize, current_health: usize) -> (World, u64) {
    let mut world = World::new();
    let id = world.spawn(
        Vec2i::new(0, 0),
        MoveObjectType::Enemy,
        Hitbox::new_rectangle(Vec2i::new(30, 30)),
        None,
        Some(HealthData { max_health, current_health }),
    );
    (world, id)
}

fn current(world: &World, id: u64) -> usize {
    world.get_health(id).unwrap().current_health
}

#[test]
fn new_health_starts_full() {
    let h = HealthData::new_health(42);
    assert_eq!(h.max_health, 42);
    assert_eq!(h.current_health, 42);
}

// Scenario: HealthData{max:10, current:1}; one damage of 5 takes health to
// zero and emits one death; a second damage of 3 in the same tick changes
// nothing: still exactly one death, and no negative health.
#[test]
fn two_lethal_events_one_death() {
    let (mut world, id) = world_with_health(10, 1);
    let heals: Vec<HealEvent> = Vec::new();
    let damages = vec![
        TakeDamageEvent { id, amount: 5 },
        TakeDamageEvent { id, amount: 3 },
    ];
    let deaths = health_system(&mut world, &heals, &damages);
    assert_eq!(deaths.len(), 1);
    assert_eq!(deaths[0].id, id);
    assert_eq!(current(&world, id), 0);
}

// Scenario: a heal of 100 on HealthData{max:42, current:10} clamps to 42,
// not 110.
#[test]
fn heal_clamps_at_max() {
    let (mut world, id) = world_with_health(42, 10);
    let heals = vec![HealEvent { id, amount: 100 }];
    let damages: Vec<TakeDamageEvent> = Vec::new();
    let deaths = health_system(&mut world, &heals, &damages);
    assert!(deaths.is_empty());
    assert_eq!(current(&world, id), 42);
}

// Death uniqueness across ticks: an entity already at zero from an
// earlier tick yields no further death event, and health never goes
// negative.
#[test]
fn no_second_death_on_a_later_tick() {
    let (mut world, id) = world_with_health(10, 1);
    let heals: Vec<HealEvent> = Vec::new();
    let deaths = health_system(&mut world, &heals, &vec![TakeDamageEvent { id, amount: 5 }]);
    assert_eq!(deaths.len(), 1);
    let deaths2 = health_system(&mut world, &heals, &vec![TakeDamageEvent { id, amount: 3 }]);
    assert!(deaths2.is_empty());
    assert_eq!(current(&world, id), 0);
}

// Heals are applied strictly before damage, whatever order the events
// arrived in.
#[test]
fn heals_apply_before_damage() {
    let (mut world, id) = world_with_health(10, 1);
    // a lethal 5 and a heal of 4: heal first takes health to 5, damage
    // brings it to 0 exactly — one death
    let heals = vec![HealEvent { id, amount: 4 }];
    let damages = vec![TakeDamageEvent { id, amount: 5 }];
    let deaths = health_system(&mut world, &heals, &damages);
    assert_eq!(deaths.len(), 1);
    assert_eq!(current(&world, id), 0);
}

// Health stays within [0, max_health] over an arbitrary event mix.
#[test]
fn health_stays_in_bounds() {
    let (mut world, id) = world_with_health(10, 5);
    let heals = vec![HealEvent { id, amount: 3 }, HealEvent { id, amount: 50 }];
    let damages = vec![
        TakeDamageEvent { id, amount: 4 },
        TakeDamageEvent { id, amount: 2 },
        TakeDamageEvent { id, amount: 100 },
    ];
    let deaths = health_system(&mut world, &heals, &damages);
    // 5 -> 8 -> 10 (clamped) -> 6 -> 4 -> 0
    assert_eq!(current(&world, id), 0);
    assert_eq!(deaths.len(), 1);
}

#[test]
fn nonlethal_damage_subtracts() {
    let (mut world, id) = world_with_health(10, 7);
    let heals: Vec<HealEvent> = Vec::new();
    let damages = vec![TakeDamageEvent { id, amount: 3 }];
    let deaths = health_system(&mut world, &heals, &damages);
    assert!(deaths.is_empty());
    assert_eq!(current(&world, id), 4);
}

// A stale id — the entity despawned earlier — is silently skipped.
#[test]
fn missing_entities_are_skipped() {
    let (mut world, id) = world_with_health(10, 5);
    let heals = vec![HealEvent { id: id + 7, amount: 3 }];
    let damages = vec![TakeDamageEvent { id: id + 7, amount: 100 }];
    let deaths = health_system(&mut world, &heals, &damages);
    assert!(deaths.is_empty());
    assert_eq!(current(&world, id), 5);
}

// Two different entities dying in one tick give one death each.
#[test]
fn one_death_per_entity() {
    let mut world = World::new();
    let a = world.spawn(
        Vec2i::new(0, 0),
        MoveObjectType::Enemy,
        Hitbox::new_rectangle(Vec2i::new(30, 30)),
        None,
        Some(HealthData { max_health: 3, current_health: 1 }),
    );
    let b = world.spawn(
        Vec2i::new(90, 0),
        MoveObjectType::PlayerBullet,
        Hitbox::new_rectangle(Vec2i::new(5, 5)),
        None,
        Some(HealthData::new_health(1)),
    );
    let heals: Vec<HealEvent> = Vec::new();
    let damages = vec![
        TakeDamageEvent { id: a, amount: 9 },
        TakeDamageEvent { id: b, amount: 1 },
        TakeDamageEvent { id: a, amount: 9 },
    ];
    let deaths = health_system(&mut world, &heals, &damages);
    assert_eq!(deaths.len(), 2);
    assert_eq!(deaths[0].id, a);
    assert_eq!(deaths[1].id, b);
}

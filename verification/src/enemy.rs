//! Enemy behaviour around the collision and health pipelines: enemies
//! take damage from player bullets, dead enemies are despawned (their
//! positions are reported so a caller can drop remains there), and new
//! enemies are placed on random spots that overlap nothing.

use vstd::prelude::*;
use rand::Rng;
use crate::geom::{Vec2i, POS_LIMIT, WINDOW_HEIGHT, WINDOW_WIDTH};
use crate::health_system::{DeathEvent, TakeDamageEvent};
use crate::hitbox::{spec_overlap, Hitbox};
use crate::move_system::{CollisionEvent, MoveObjectType};
use crate::world::{lemma_index_of, spec_index_of, EntityRecord, World};

verus! {

/// A collision event names a live enemy hit by a player bullet.
pub open spec fn spec_hurts_enemy(s: Seq<EntityRecord>, ev: CollisionEvent) -> bool {
    let i = spec_index_of(s, ev.object_id);
    &&& ev.object_type == MoveObjectType::Enemy
    &&& ev.collided_with_type == MoveObjectType::PlayerBullet
    &&& i >= 0
    &&& s[i].object_type == MoveObjectType::Enemy
}

/// Damage events for enemies: one point per player-bullet hit.
pub open spec fn spec_enemy_damage(
    s: Seq<EntityRecord>,
    evs: Seq<CollisionEvent>,
) -> Seq<TakeDamageEvent>
    decreases evs.len(),
{
    if evs.len() == 0 {
        Seq::empty()
    } else {
        let rest = spec_enemy_damage(s, evs.drop_last());
        if spec_hurts_enemy(s, evs.last()) {
            rest.push(TakeDamageEvent { id: evs.last().object_id, amount: 1 })
        } else {
            rest
        }
    }
}

/// Map the tick's collision events to damage on the enemies hit by player
/// bullets.
pub fn enemies_take_damage(world: &World, collision_events: &Vec<CollisionEvent>) -> (damage: Vec<
    TakeDamageEvent,
>)
    ensures
        damage@ == spec_enemy_damage(world.entities@, collision_events@),
{
    let mut damage: Vec<TakeDamageEvent> = Vec::new();
    let n = collision_events.len();
    for k in 0..n
        invariant
            n == collision_events@.len(),
            damage@ == spec_enemy_damage(world.entities@, collision_events@.take(k as int)),
    {
        let ev = collision_events[k];
        if matches!(ev.object_type, MoveObjectType::Enemy) && matches!(
            ev.collided_with_type,
            MoveObjectType::PlayerBullet,
        ) {
            match world.find_entity(ev.object_id) {
                Some(i) => {
                    proof {
                        lemma_index_of(world.entities@, ev.object_id);
                    }
                    if matches!(world.entities[i].object_type, MoveObjectType::Enemy) {
                        damage.push(TakeDamageEvent { id: ev.object_id, amount: 1 });
                    }
                },
                None => {},
            }
        }
        proof {
            assert(collision_events@.take(k as int + 1).drop_last() =~= collision_events@.take(
                k as int,
            ));
            assert(collision_events@.take(k as int + 1).last() == ev);
        }
    }
    proof {
        assert(collision_events@.take(n as int) =~= collision_events@);
    }
    damage
}

/// The store after the tick's dead enemies are removed, with the
/// positions they stood on, in death order.
pub open spec fn spec_despawn_enemies(
    s: Seq<EntityRecord>,
    deaths: Seq<DeathEvent>,
) -> (Seq<EntityRecord>, Seq<Vec2i>)
    decreases deaths.len(),
{
    if deaths.len() == 0 {
        (s, Seq::empty())
    } else {
        let r = spec_despawn_enemies(s, deaths.drop_last());
        let i = spec_index_of(r.0, deaths.last().id);
        if i >= 0 && r.0[i].object_type == MoveObjectType::Enemy {
            (r.0.remove(i), r.1.push(r.0[i].position))
        } else {
            r
        }
    }
}

/// Death consumer for enemies: despawn every enemy named by a death event
/// of this tick, and report where each one stood.
pub fn despawn_dead_enemies(world: &mut World, death_events: &Vec<DeathEvent>) -> (remains: Vec<
    Vec2i,
>)
    requires
        old(world).inv(),
    ensures
        final(world).inv(),
        final(world).next_id == old(world).next_id,
        final(world).entities@ == spec_despawn_enemies(old(world).entities@, death_events@).0,
        remains@ == spec_despawn_enemies(old(world).entities@, death_events@).1,
{
    let mut remains: Vec<Vec2i> = Vec::new();
    let n = death_events.len();
    for k in 0..n
        invariant
            n == death_events@.len(),
            world.inv(),
            world.next_id == old(world).next_id,
            (world.entities@, remains@) == spec_despawn_enemies(
                old(world).entities@,
                death_events@.take(k as int),
            ),
    {
        let ev = death_events[k];
        match world.find_entity(ev.id) {
            Some(i) => {
                proof {
                    lemma_index_of(world.entities@, ev.id);
                }
                if matches!(world.entities[i].object_type, MoveObjectType::Enemy) {
                    remains.push(world.entities[i].position);
                    world.remove_entity(ev.id);
                }
            },
            None => {},
        }
        proof {
            assert(death_events@.take(k as int + 1).drop_last() =~= death_events@.take(k as int));
            assert(death_events@.take(k as int + 1).last() == ev);
        }
    }
    proof {
        assert(death_events@.take(n as int) =~= death_events@);
    }
    remains
}

/// The shape at `pos` overlaps none of the given placed shapes.
pub open spec fn spec_position_free(
    others: Seq<(Vec2i, Hitbox)>,
    hitbox: Hitbox,
    pos: Vec2i,
) -> bool {
    forall|k: int|
        0 <= k < others.len() ==> !spec_overlap(
            pos,
            hitbox,
            (#[trigger] others[k]).0,
            others[k].1,
        )
}

/// Would a shape at this position overlap one of the placed shapes?
pub fn position_is_free(others: &Vec<(Vec2i, Hitbox)>, hitbox: Hitbox, pos: Vec2i) -> (r: bool)
    requires
        hitbox.wf(),
        pos.within(2 * POS_LIMIT as int),
        forall|k: int|
            0 <= k < others@.len() ==> {
                &&& (#[trigger] others@[k]).1.wf()
                &&& others@[k].0.within(2 * POS_LIMIT as int)
            },
    ensures
        r == spec_position_free(others@, hitbox, pos),
{
    let n = others.len();
    for k in 0..n
        invariant
            n == others@.len(),
            hitbox.wf(),
            pos.within(2 * POS_LIMIT as int),
            forall|j: int|
                0 <= j < others@.len() ==> {
                    &&& (#[trigger] others@[j]).1.wf()
                    &&& others@[j].0.within(2 * POS_LIMIT as int)
                },
            forall|j: int|
                0 <= j < k ==> !spec_overlap(pos, hitbox, (#[trigger] others@[j]).0, others@[j].1),
    {
        let (other_pos, other_hitbox) = others[k];
        if Hitbox::check_collision(&hitbox, pos, &other_hitbox, other_pos) {
            return false;
        }
    }
    true
}

/// Relies on rand's Rng::gen_range, which returns a value uniformly drawn
/// from the given half-open range and panics only on an empty one.
#[verifier::external_body]
fn random_range(lo: i64, hi: i64) -> (r: i64)
    requires
        lo < hi,
    ensures
        lo <= r < hi,
{
    rand::thread_rng().gen_range(lo..hi)
}

/// Draw random positions inside the window, margins kept, until one is
/// found where a shape of the given hitbox overlaps nothing. Gives up
/// after a generous number of draws — on a crowded field no free spot may
/// exist — and reports that no place was found.
pub fn get_random_free_position(other_objects: &Vec<(Vec2i, Hitbox)>, hitbox: Hitbox) -> (r:
    Option<Vec2i>)
    requires
        hitbox.wf(),
        forall|k: int|
            0 <= k < other_objects@.len() ==> {
                &&& (#[trigger] other_objects@[k]).1.wf()
                &&& other_objects@[k].0.within(2 * POS_LIMIT as int)
            },
    ensures
        match r {
            Some(p) => {
                &&& spec_position_free(other_objects@, hitbox, p)
                &&& -(WINDOW_WIDTH as int) / 2 + 50 <= p.x < (WINDOW_WIDTH as int) / 2 - 50
                &&& -(WINDOW_HEIGHT as int) / 2 + 50 <= p.y < (WINDOW_HEIGHT as int) / 2 - 50
            },
            None => true,
        },
{
    let mut attempts: usize = 10000;
    while attempts > 0
        invariant
            hitbox.wf(),
            forall|k: int|
                0 <= k < other_objects@.len() ==> {
                    &&& (#[trigger] other_objects@[k]).1.wf()
                    &&& other_objects@[k].0.within(2 * POS_LIMIT as int)
                },
        decreases attempts,
    {
        attempts = attempts - 1;
        let x = random_range(-(WINDOW_WIDTH / 2 - 50), WINDOW_WIDTH / 2 - 50);
        let y = random_range(-(WINDOW_HEIGHT / 2 - 50), WINDOW_HEIGHT / 2 - 50);
        let random_position = Vec2i { x, y };
        if position_is_free(other_objects, hitbox, random_position) {
            return Some(random_position);
        }
    }
    None
}

/// The spots already taken by enemies, the player and obstacles, paired
/// with their shapes: what a fresh enemy must not be placed upon.
pub open spec fn spec_spawn_obstacles(s: Seq<EntityRecord>) -> Seq<(Vec2i, Hitbox)>
    decreases s.len(),
{
    if s.len() == 0 {
        Seq::empty()
    } else {
        let rest = spec_spawn_obstacles(s.drop_last());
        let e = s.last();
        if e.object_type == MoveObjectType::Enemy || e.object_type == MoveObjectType::Player
            || e.object_type == MoveObjectType::Obstacle {
            rest.push((e.position, e.hitbox))
        } else {
            rest
        }
    }
}

/// Collect the positions and shapes a fresh enemy must keep clear of.
pub fn collect_spawn_obstacles(world: &World) -> (r: Vec<(Vec2i, Hitbox)>)
    ensures
        r@ == spec_spawn_obstacles(world.entities@),
{
    let mut r: Vec<(Vec2i, Hitbox)> = Vec::new();
    let n = world.entities.len();
    for k in 0..n
        invariant
            n == world.entities@.len(),
            r@ == spec_spawn_obstacles(world.entities@.take(k as int)),
    {
        let e = world.entities[k];
        if matches!(
            e.object_type,
            MoveObjectType::Enemy | MoveObjectType::Player | MoveObjectType::Obstacle
        ) {
            r.push((e.position, e.hitbox));
        }
        proof {
            assert(world.entities@.take(k as int + 1).drop_last() =~= world.entities@.take(
                k as int,
            ));
            assert(world.entities@.take(k as int + 1).last() == e);
        }
    }
    proof {
        assert(world.entities@.take(n as int) =~= world.entities@);
    }
    r
}

} // verus!

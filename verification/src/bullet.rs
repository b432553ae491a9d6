//! Bullet behaviour around the collision pipeline: a bullet that hits
//! anything takes one damage itself (its health record of one point makes
//! a single hit destroy it), and dead bullets are despawned.

use vstd::prelude::*;
use crate::health_system::{DeathEvent, TakeDamageEvent};
use crate::move_system::{CollisionEvent, MoveObjectType};
use crate::world::{lemma_index_of, spec_index_of, EntityRecord, World};

verus! {

/// The entity at index `i` is a bullet of either side.
pub open spec fn spec_is_bullet(s: Seq<EntityRecord>, i: int) -> bool {
    s[i].object_type == MoveObjectType::PlayerBullet || s[i].object_type
        == MoveObjectType::EnemyBullet
}

/// Damage events for bullets: one point to every bullet that is the
/// subject of a collision event. Stale subjects that no longer exist are
/// skipped.
pub open spec fn spec_bullet_damage(
    s: Seq<EntityRecord>,
    evs: Seq<CollisionEvent>,
) -> Seq<TakeDamageEvent>
    decreases evs.len(),
{
    if evs.len() == 0 {
        Seq::empty()
    } else {
        let rest = spec_bullet_damage(s, evs.drop_last());
        let i = spec_index_of(s, evs.last().object_id);
        if i >= 0 && spec_is_bullet(s, i) {
            rest.push(TakeDamageEvent { id: evs.last().object_id, amount: 1 })
        } else {
            rest
        }
    }
}

/// Map the tick's collision events to damage on the bullets involved: a
/// bullet reports its hit and is then destroyed by the damage/death path,
/// not despawned directly.
pub fn on_collision_bullet(world: &World, collision_events: &Vec<CollisionEvent>) -> (damage: Vec<
    TakeDamageEvent,
>)
    ensures
        damage@ == spec_bullet_damage(world.entities@, collision_events@),
{
    let mut damage: Vec<TakeDamageEvent> = Vec::new();
    let n = collision_events.len();
    for k in 0..n
        invariant
            n == collision_events@.len(),
            damage@ == spec_bullet_damage(world.entities@, collision_events@.take(k as int)),
    {
        let ev = collision_events[k];
        match world.find_entity(ev.object_id) {
            Some(i) => {
                proof {
                    lemma_index_of(world.entities@, ev.object_id);
                }
                if matches!(
                    world.entities[i].object_type,
                    MoveObjectType::PlayerBullet | MoveObjectType::EnemyBullet
                ) {
                    damage.push(TakeDamageEvent { id: ev.object_id, amount: 1 });
                }
            },
            None => {},
        }
        proof {
            assert(collision_events@.take(k as int + 1).drop_last() =~= collision_events@.take(
                k as int,
            ));
            assert(collision_events@.take(k as int + 1).last() == ev);
        }
    }
    proof {
        assert(collision_events@.take(n as int) =~= collision_events@);
    }
    damage
}

/// The store after the tick's dead bullets are removed, in death order.
pub open spec fn spec_despawn_bullets(
    s: Seq<EntityRecord>,
    deaths: Seq<DeathEvent>,
) -> Seq<EntityRecord>
    decreases deaths.len(),
{
    if deaths.len() == 0 {
        s
    } else {
        let before = spec_despawn_bullets(s, deaths.drop_last());
        let i = spec_index_of(before, deaths.last().id);
        if i >= 0 && spec_is_bullet(before, i) {
            before.remove(i)
        } else {
            before
        }
    }
}

/// Death consumer for bullets: despawn every bullet named by a death
/// event of this tick.
pub fn despawn_bullets_after_collision(world: &mut World, death_events: &Vec<DeathEvent>)
    requires
        old(world).inv(),
    ensures
        final(world).inv(),
        final(world).next_id == old(world).next_id,
        final(world).entities@ == spec_despawn_bullets(old(world).entities@, death_events@),
{
    let n = death_events.len();
    for k in 0..n
        invariant
            n == death_events@.len(),
            world.inv(),
            world.next_id == old(world).next_id,
            world.entities@ == spec_despawn_bullets(old(world).entities@, death_events@.take(
                k as int,
            )),
    {
        let ev = death_events[k];
        match world.find_entity(ev.id) {
            Some(i) => {
                proof {
                    lemma_index_of(world.entities@, ev.id);
                }
                if matches!(
                    world.entities[i].object_type,
                    MoveObjectType::PlayerBullet | MoveObjectType::EnemyBullet
                ) {
                    world.remove_entity(ev.id);
                }
            },
            None => {},
        }
        proof {
            assert(death_events@.take(k as int + 1).drop_last() =~= death_events@.take(k as int));
            assert(death_events@.take(k as int + 1).last() == ev);
        }
    }
    proof {
        assert(death_events@.take(n as int) =~= death_events@);
    }
}

} // verus!

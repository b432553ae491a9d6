//! Player behaviour around the collision and health pipelines: the player
//! takes one damage for contact with an enemy or an enemy bullet, and a
//! player death ends the run.

use vstd::prelude::*;
use crate::health_system::{DeathEvent, TakeDamageEvent};
use crate::move_system::{CollisionEvent, MoveObjectType};
use crate::world::{lemma_index_of, spec_index_of, EntityRecord, World};

verus! {

/// A collision event names the player as subject and an enemy or an enemy
/// bullet as the other side, and both entities still exist.
pub open spec fn spec_hurts_player(s: Seq<EntityRecord>, ev: CollisionEvent) -> bool {
    let i = spec_index_of(s, ev.object_id);
    let j = spec_index_of(s, ev.collided_with_id);
    &&& i >= 0
    &&& s[i].object_type == MoveObjectType::Player
    &&& j >= 0
    &&& (s[j].object_type == MoveObjectType::EnemyBullet || s[j].object_type
        == MoveObjectType::Enemy)
}

/// Damage events for the player: one point per collision with an enemy
/// bullet or an enemy body.
pub open spec fn spec_player_damage(
    s: Seq<EntityRecord>,
    evs: Seq<CollisionEvent>,
) -> Seq<TakeDamageEvent>
    decreases evs.len(),
{
    if evs.len() == 0 {
        Seq::empty()
    } else {
        let rest = spec_player_damage(s, evs.drop_last());
        if spec_hurts_player(s, evs.last()) {
            rest.push(TakeDamageEvent { id: evs.last().object_id, amount: 1 })
        } else {
            rest
        }
    }
}

/// Map the tick's collision events to damage on the player.
pub fn player_takes_damage(world: &World, collision_events: &Vec<CollisionEvent>) -> (damage: Vec<
    TakeDamageEvent,
>)
    ensures
        damage@ == spec_player_damage(world.entities@, collision_events@),
{
    let mut damage: Vec<TakeDamageEvent> = Vec::new();
    let n = collision_events.len();
    for k in 0..n
        invariant
            n == collision_events@.len(),
            damage@ == spec_player_damage(world.entities@, collision_events@.take(k as int)),
    {
        let ev = collision_events[k];
        let is_player = match world.find_entity(ev.object_id) {
            Some(i) => {
                proof {
                    lemma_index_of(world.entities@, ev.object_id);
                }
                matches!(world.entities[i].object_type, MoveObjectType::Player)
            },
            None => false,
        };
        let other_hostile = match world.find_entity(ev.collided_with_id) {
            Some(j) => {
                proof {
                    lemma_index_of(world.entities@, ev.collided_with_id);
                }
                matches!(
                    world.entities[j].object_type,
                    MoveObjectType::EnemyBullet | MoveObjectType::Enemy
                )
            },
            None => false,
        };
        if is_player && other_hostile {
            damage.push(TakeDamageEvent { id: ev.object_id, amount: 1 });
        }
        proof {
            assert(collision_events@.take(k as int + 1).drop_last() =~= collision_events@.take(
                k as int,
            ));
            assert(collision_events@.take(k as int + 1).last() == ev);
        }
    }
    proof {
        assert(collision_events@.take(n as int) =~= collision_events@);
    }
    damage
}

/// Some death event of this tick names a player entity.
pub open spec fn spec_player_died(s: Seq<EntityRecord>, deaths: Seq<DeathEvent>) -> bool {
    exists|k: int|
        0 <= k < deaths.len() && {
            let i = spec_index_of(s, (#[trigger] deaths[k]).id);
            i >= 0 && s[i].object_type == MoveObjectType::Player
        }
}

/// Death consumer for the player: reports whether the player died this
/// tick, so the caller can leave the running state.
pub fn player_dies(world: &World, death_events: &Vec<DeathEvent>) -> (died: bool)
    ensures
        died == spec_player_died(world.entities@, death_events@),
{
    let n = death_events.len();
    for k in 0..n
        invariant
            n == death_events@.len(),
            !spec_player_died(world.entities@, death_events@.take(k as int)),
    {
        let ev = death_events[k];
        let hit = match world.find_entity(ev.id) {
            Some(i) => {
                proof {
                    lemma_index_of(world.entities@, ev.id);
                }
                matches!(world.entities[i].object_type, MoveObjectType::Player)
            },
            None => false,
        };
        if hit {
            proof {
                assert(death_events@[k as int] == ev);
            }
            return true;
        }
        proof {
            assert forall|kk: int| 0 <= kk < k as int + 1 implies !{
                let i = spec_index_of(world.entities@, (#[trigger] death_events@.take(
                    k as int + 1,
                )[kk]).id);
                i >= 0 && world.entities@[i].object_type == MoveObjectType::Player
            } by {
                if kk < k as int {
                    assert(death_events@.take(k as int + 1)[kk] == death_events@.take(
                        k as int,
                    )[kk]);
                } else {
                    assert(death_events@.take(k as int + 1)[kk] == ev);
                    lemma_index_of(world.entities@, ev.id);
                }
            }
        }
    }
    proof {
        assert(death_events@.take(n as int) =~= death_events@);
    }
    false
}

} // verus!

//! The tick driver: one full pass of the pipeline per simulation tick, in
//! the fixed required order — clear velocities, sum the producers'
//! intents, move and detect collisions, map collisions to damage, resolve
//! health, and hand the death events to the death consumers.

use vstd::prelude::*;
use crate::collision::{
    move_system, spec_detected, spec_event_count, spec_event_of, spec_moved_position,
    spec_positions_bounded,
};
use crate::bullet::spec_bullet_damage;
use crate::enemy::spec_enemy_damage;
use crate::geom::{Vec2i, DT_LIMIT};
use crate::health_system::{
    health_system, spec_apply_damages, spec_apply_heals, DeathEvent, HealEvent, TakeDamageEvent,
};
use crate::move_system::{
    add_velocity, clear_velocity_vector, spec_can_add_velocity, spec_cleared_velocity,
    CollisionEvent, VelocityVector,
};
use crate::player::spec_player_damage;
use crate::world::{lemma_index_of, spec_index_of, EntityRecord, World};

verus! {

/// One producer's contribution to one entity's velocity accumulator.
#[derive(Clone, Copy, PartialEq, Eq, Structural, Debug)]
pub struct VelocityIntent {
    pub id: u64,
    pub delta: Vec2i,
}

/// Everything one tick of the pipeline emits.
pub struct TickOutput {
    pub collisions: Vec<CollisionEvent>,
    pub damages: Vec<TakeDamageEvent>,
    pub deaths: Vec<DeathEvent>,
}

/// The store after the clear phase: every velocity accumulator zeroed.
pub open spec fn spec_cleared_world(s: Seq<EntityRecord>) -> Seq<EntityRecord> {
    Seq::new(
        s.len(),
        |i: int| EntityRecord { velocity: spec_cleared_velocity(s[i].velocity), ..s[i] },
    )
}

/// One intent summed into its entity's accumulator; an intent that names
/// a missing or velocity-less entity, or would leave the velocity bound,
/// changes nothing.
pub open spec fn spec_add_intent(s: Seq<EntityRecord>, it: VelocityIntent) -> Seq<EntityRecord> {
    if spec_can_add_velocity(s, it.id, it.delta) {
        let i = spec_index_of(s, it.id);
        let v = (s[i].velocity->0).0;
        s.update(
            i,
            EntityRecord {
                velocity: Some(
                    VelocityVector(
                        Vec2i { x: (v.x + it.delta.x) as i64, y: (v.y + it.delta.y) as i64 },
                    ),
                ),
                ..s[i]
            },
        )
    } else {
        s
    }
}

/// All intents of the modify phase, summed in order. Producers are
/// additive, so any order gives the same accumulators.
pub open spec fn spec_apply_intents(
    s: Seq<EntityRecord>,
    intents: Seq<VelocityIntent>,
) -> Seq<EntityRecord>
    decreases intents.len(),
{
    if intents.len() == 0 {
        s
    } else {
        spec_add_intent(spec_apply_intents(s, intents.drop_last()), intents.last())
    }
}

/// Summing intents touches only velocity accumulators.
proof fn lemma_intents_frame(s: Seq<EntityRecord>, intents: Seq<VelocityIntent>)
    ensures
        spec_apply_intents(s, intents).len() == s.len(),
        forall|i: int|
            #![trigger spec_apply_intents(s, intents)[i]]
            0 <= i < s.len() ==> {
                &&& spec_apply_intents(s, intents)[i].position == s[i].position
                &&& spec_apply_intents(s, intents)[i].id == s[i].id
                &&& spec_apply_intents(s, intents)[i].object_type == s[i].object_type
                &&& spec_apply_intents(s, intents)[i].hitbox == s[i].hitbox
                &&& spec_apply_intents(s, intents)[i].health == s[i].health
            },
    decreases intents.len(),
{
    if intents.len() > 0 {
        let prev = spec_apply_intents(s, intents.drop_last());
        lemma_intents_frame(s, intents.drop_last());
        let it = intents.last();
        if spec_can_add_velocity(prev, it.id, it.delta) {
            lemma_index_of(prev, it.id);
        }
    }
}

/// The store after the movement step: every non-floor, non-blocked entity
/// stands at its projected position.
pub open spec fn spec_moved_world(s: Seq<EntityRecord>, dt: int) -> Seq<EntityRecord> {
    Seq::new(s.len(), |i: int| EntityRecord { position: spec_moved_position(s, dt, i), ..s[i] })
}

/// The damage the tick's collisions translate into: bullets take a point
/// for any hit, the player for contact with anything hostile, enemies for
/// player-bullet hits.
pub open spec fn spec_tick_damages(
    s: Seq<EntityRecord>,
    collisions: Seq<CollisionEvent>,
) -> Seq<TakeDamageEvent> {
    spec_bullet_damage(s, collisions) + spec_player_damage(s, collisions) + spec_enemy_damage(
        s,
        collisions,
    )
}

/// Run one tick: clear and re-sum velocities from the given intents, move
/// and detect collisions, map the collision events to damage, apply the
/// tick's heals and then its damages, and report collisions, damage and
/// deaths. `heal_events` carries what heal producers outside the core
/// asked for this tick.
pub fn run_tick(
    world: &mut World,
    intents: &Vec<VelocityIntent>,
    heal_events: &Vec<HealEvent>,
    delta_time_ms: u64,
) -> (out: TickOutput)
    requires
        old(world).inv(),
        delta_time_ms <= DT_LIMIT,
        spec_positions_bounded(old(world).entities@),
    ensures
        final(world).inv(),
        final(world).next_id == old(world).next_id,
        ({
            let s1 = spec_apply_intents(spec_cleared_world(old(world).entities@), intents@);
            let s2 = spec_moved_world(s1, delta_time_ms as int);
            &&& (forall|i: int, j: int|
                spec_detected(s1, delta_time_ms as int, i, j) ==> spec_event_count(
                    out.collisions@,
                    #[trigger] spec_event_of(s1, i, j),
                ) == 1)
            &&& (forall|k: int|
                0 <= k < out.collisions@.len() ==> exists|i: int, j: int|
                    spec_detected(s1, delta_time_ms as int, i, j)
                        && #[trigger] out.collisions@[k] == spec_event_of(s1, i, j))
            &&& out.damages@ == spec_tick_damages(s2, out.collisions@)
            &&& final(world).entities@ == spec_apply_damages(
                spec_apply_heals(s2, heal_events@),
                Seq::empty(),
                out.damages@,
            ).0
            &&& out.deaths@.map_values(|d: DeathEvent| d.id) == spec_apply_damages(
                spec_apply_heals(s2, heal_events@),
                Seq::empty(),
                out.damages@,
            ).1
        }),
{
    let ghost s0 = world.entities@;
    let ghost dti = delta_time_ms as int;

    // clear phase, then modify phase
    clear_velocity_vector(world);
    proof {
        assert(world.entities@ =~= spec_cleared_world(s0));
    }
    let ghost sc = spec_cleared_world(s0);
    let ni = intents.len();
    for k in 0..ni
        invariant
            ni == intents@.len(),
            world.inv(),
            world.next_id == old(world).next_id,
            sc == spec_cleared_world(s0),
            world.entities@ == spec_apply_intents(sc, intents@.take(k as int)),
    {
        let it = intents[k];
        add_velocity(world, it.id, it.delta);
        proof {
            assert(intents@.take(k as int + 1).drop_last() =~= intents@.take(k as int));
            assert(intents@.take(k as int + 1).last() == it);
        }
    }
    proof {
        assert(intents@.take(ni as int) =~= intents@);
    }
    let ghost s1 = world.entities@;

    // movement and broad/narrow-phase collision
    proof {
        lemma_intents_frame(sc, intents@);
        assert forall|i: int| 0 <= i < s1.len() implies (#[trigger] s1[i]).position.within(
            crate::geom::POS_LIMIT as int,
        ) by {
            assert(s1[i].position == sc[i].position);
            assert(sc[i].position == s0[i].position);
            assert(s0[i].position.within(crate::geom::POS_LIMIT as int));
        }
    }
    let collisions = move_system(world, delta_time_ms);
    proof {
        assert(world.entities@ =~= spec_moved_world(s1, dti));
    }
    let ghost s2 = world.entities@;

    // collision-effect producers
    let mut damages = crate::bullet::on_collision_bullet(world, &collisions);
    let mut player_damage = crate::player::player_takes_damage(world, &collisions);
    let mut enemy_damage = crate::enemy::enemies_take_damage(world, &collisions);
    damages.append(&mut player_damage);
    damages.append(&mut enemy_damage);
    proof {
        assert(damages@ == spec_tick_damages(s2, collisions@));
    }

    // health resolution: heals strictly before damage
    let deaths = health_system(world, heal_events, &damages);

    TickOutput { collisions, damages, deaths }
}

} // verus!

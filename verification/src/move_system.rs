//! Object kinds, the pair policy table, velocity accumulators, and
//! collision events.
//!
//! The mover itself — broad phase, narrow phase, blocking and position
//! integration — lives in [`crate::collision`].

use vstd::prelude::*;
use crate::geom::{Vec2i, VEL_LIMIT};
use crate::hitbox::Hitbox;
use crate::world::{spec_index_of, lemma_index_of, EntityRecord, World};

verus! {

/// Kind of a moving or static object. It drives the collision policy and
/// is fixed for an entity's lifetime.
#[derive(Clone, Copy, PartialEq, Eq, Structural, Debug)]
pub enum MoveObjectType {
    Obstacle,
    Floor,
    Player,
    Enemy,
    PlayerBullet,
    EnemyBullet,
}

/// Per-entity velocity accumulator in world units per second. It is reset
/// to zero at the start of every tick, then summed in place by any number
/// of intent producers before the mover consumes it.
#[derive(Clone, Copy, PartialEq, Eq, Structural, Debug)]
pub struct VelocityVector(pub Vec2i);

/// Directional record of one detected overlap: every physical overlap
/// yields exactly two of these, one from each side's point of view.
#[derive(Clone, Copy, PartialEq, Eq, Structural, Debug)]
pub struct CollisionEvent {
    pub object_id: u64,
    pub object_type: MoveObjectType,
    pub collided_with_id: u64,
    pub collided_with_type: MoveObjectType,
}

/// Collision-relevant description of a static object.
#[derive(Clone, Copy, PartialEq, Eq, Structural, Debug)]
pub struct MoveSystemObject {
    pub object_type: MoveObjectType,
    pub hitbox: Hitbox,
}

impl MoveSystemObject {
    pub fn new(object_type: MoveObjectType, hitbox: Hitbox) -> (r: MoveSystemObject)
        ensures
            r == (MoveSystemObject { object_type, hitbox }),
    {
        MoveSystemObject { object_type, hitbox }
    }
}

/// Collision-relevant description of a moving object.
#[derive(Clone, Copy, PartialEq, Eq, Structural, Debug)]
pub struct MoveSystemObjectWithVelocity {
    pub object_bundle: MoveSystemObject,
    pub velocity: VelocityVector,
}

impl MoveSystemObjectWithVelocity {
    pub fn new(object_type: MoveObjectType, hitbox: Hitbox, vel: Vec2i) -> (r:
        MoveSystemObjectWithVelocity)
        ensures
            r == (MoveSystemObjectWithVelocity {
                object_bundle: MoveSystemObject { object_type, hitbox },
                velocity: VelocityVector(vel),
            }),
    {
        MoveSystemObjectWithVelocity {
            object_bundle: MoveSystemObject::new(object_type, hitbox),
            velocity: VelocityVector(vel),
        }
    }

    pub fn new_with_vel_0(object_type: MoveObjectType, hitbox: Hitbox) -> (r:
        MoveSystemObjectWithVelocity)
        ensures
            r == (MoveSystemObjectWithVelocity {
                object_bundle: MoveSystemObject { object_type, hitbox },
                velocity: VelocityVector(Vec2i { x: 0, y: 0 }),
            }),
    {
        MoveSystemObjectWithVelocity::new(object_type, hitbox, Vec2i::zero())
    }
}

/// Pairs of kinds whose overlaps are ignored outright: no overlap test, no
/// event, no blocking. The table is symmetric.
pub open spec fn spec_ignore_collision(t1: MoveObjectType, t2: MoveObjectType) -> bool {
    match (t1, t2) {
        (MoveObjectType::Player, MoveObjectType::PlayerBullet) => true,
        (MoveObjectType::PlayerBullet, MoveObjectType::Player) => true,
        (MoveObjectType::Player, MoveObjectType::Floor) => true,
        (MoveObjectType::Floor, MoveObjectType::Player) => true,
        (MoveObjectType::Enemy, MoveObjectType::Floor) => true,
        (MoveObjectType::Floor, MoveObjectType::Enemy) => true,
        (MoveObjectType::PlayerBullet, MoveObjectType::Floor) => true,
        (MoveObjectType::Floor, MoveObjectType::PlayerBullet) => true,
        (MoveObjectType::Enemy, MoveObjectType::EnemyBullet) => true,
        (MoveObjectType::EnemyBullet, MoveObjectType::Enemy) => true,
        (MoveObjectType::EnemyBullet, MoveObjectType::Floor) => true,
        (MoveObjectType::Floor, MoveObjectType::EnemyBullet) => true,
        (MoveObjectType::Enemy, MoveObjectType::Enemy) => true,
        _ => false,
    }
}

/// Completely ignore a collision between these kinds: it has no effect on
/// the objects and no event is sent.
pub fn ignore_collision(type_1: &MoveObjectType, type_2: &MoveObjectType) -> (r: bool)
    ensures
        r == spec_ignore_collision(*type_1, *type_2),
{
    match (*type_1, *type_2) {
        (MoveObjectType::Player, MoveObjectType::PlayerBullet) => true,
        (MoveObjectType::PlayerBullet, MoveObjectType::Player) => true,
        (MoveObjectType::Player, MoveObjectType::Floor) => true,
        (MoveObjectType::Floor, MoveObjectType::Player) => true,
        (MoveObjectType::Enemy, MoveObjectType::Floor) => true,
        (MoveObjectType::Floor, MoveObjectType::Enemy) => true,
        (MoveObjectType::PlayerBullet, MoveObjectType::Floor) => true,
        (MoveObjectType::Floor, MoveObjectType::PlayerBullet) => true,
        (MoveObjectType::Enemy, MoveObjectType::EnemyBullet) => true,
        (MoveObjectType::EnemyBullet, MoveObjectType::Enemy) => true,
        (MoveObjectType::EnemyBullet, MoveObjectType::Floor) => true,
        (MoveObjectType::Floor, MoveObjectType::EnemyBullet) => true,
        (MoveObjectType::Enemy, MoveObjectType::Enemy) => true,
        _ => false,
    }
}

/// Pairs of kinds whose overlaps are reported but do not block movement
/// (pass-through). No pair currently passes through, so every reported
/// overlap blocks.
pub open spec fn spec_allow_overlap(t1: MoveObjectType, t2: MoveObjectType) -> bool {
    false
}

/// Report a collision between these kinds to other systems, but let the
/// objects keep moving through each other.
pub fn allow_overlap(type_1: &MoveObjectType, type_2: &MoveObjectType) -> (r: bool)
    ensures
        r == spec_allow_overlap(*type_1, *type_2),
{
    false
}

/// The ignore table is symmetric: the pair policy does not depend on the
/// order of the two kinds.
pub proof fn lemma_ignore_collision_symmetric(t1: MoveObjectType, t2: MoveObjectType)
    ensures
        spec_ignore_collision(t1, t2) == spec_ignore_collision(t2, t1),
{
}

/// The pass-through table is symmetric too.
pub proof fn lemma_allow_overlap_symmetric(t1: MoveObjectType, t2: MoveObjectType)
    ensures
        spec_allow_overlap(t1, t2) == spec_allow_overlap(t2, t1),
{
}

/// A velocity accumulator after the clear phase: zero if the entity
/// tracks velocity, still absent otherwise.
pub open spec fn spec_cleared_velocity(v: Option<VelocityVector>) -> Option<VelocityVector> {
    match v {
        Some(_) => Some(VelocityVector(Vec2i { x: 0, y: 0 })),
        None => None,
    }
}

/// Clear every velocity accumulator, before any intent producer runs this
/// tick. Afterwards every tracked accumulator is exactly zero, whatever it
/// held at the end of the previous tick; nothing else changes.
pub fn clear_velocity_vector(world: &mut World)
    requires
        old(world).inv(),
    ensures
        final(world).inv(),
        final(world).next_id == old(world).next_id,
        final(world).entities@.len() == old(world).entities@.len(),
        forall|i: int|
            0 <= i < old(world).entities@.len() ==> final(world).entities@[i] == (EntityRecord {
                velocity: spec_cleared_velocity(old(world).entities@[i].velocity),
                ..old(world).entities@[i]
            }),
{
    let n = world.entities.len();
    for i in 0..n
        invariant
            world.next_id == old(world).next_id,
            n == world.entities@.len(),
            old(world).entities@.len() == n,
            forall|j: int|
                0 <= j < i ==> world.entities@[j] == (EntityRecord {
                    velocity: spec_cleared_velocity(old(world).entities@[j].velocity),
                    ..old(world).entities@[j]
                }),
            forall|j: int| i <= j < n ==> world.entities@[j] == old(world).entities@[j],
    {
        if world.entities[i].velocity.is_some() {
            world.entities[i].velocity = Some(VelocityVector(Vec2i::zero()));
        }
    }
    proof {
        assert forall|i: int, j: int|
            0 <= i < j < world.entities@.len() implies world.entities@[i].id
            != world.entities@[j].id by {
            assert(old(world).entities@[i].id != old(world).entities@[j].id);
        }
    }
}

/// Adding `delta` to accumulator `v` keeps both axes within VEL_LIMIT.
pub open spec fn spec_vel_sum_ok(v: Vec2i, delta: Vec2i) -> bool {
    &&& -(VEL_LIMIT as int) <= v.x + delta.x <= VEL_LIMIT as int
    &&& -(VEL_LIMIT as int) <= v.y + delta.y <= VEL_LIMIT as int
}

/// An intent for `id` can be accepted: the entity is present, tracks
/// velocity, and the new sum stays within the velocity bound.
pub open spec fn spec_can_add_velocity(s: Seq<EntityRecord>, id: u64, delta: Vec2i) -> bool {
    let i = spec_index_of(s, id);
    &&& i >= 0
    &&& s[i].velocity is Some
    &&& spec_vel_sum_ok((s[i].velocity->0).0, delta)
}

/// Add one producer's contribution to an entity's velocity accumulator
/// during the modify phase. Contributions are summed, never overwritten;
/// one that would leave the velocity bound, or that names a missing or
/// velocity-less entity, is rejected and changes nothing.
pub fn add_velocity(world: &mut World, id: u64, delta: Vec2i) -> (ok: bool)
    requires
        old(world).inv(),
    ensures
        final(world).inv(),
        final(world).next_id == old(world).next_id,
        ok == spec_can_add_velocity(old(world).entities@, id, delta),
        ok ==> {
            let i = spec_index_of(old(world).entities@, id);
            let v = (old(world).entities@[i].velocity->0).0;
            final(world).entities@ == old(world).entities@.update(
                i,
                (EntityRecord {
                    velocity: Some(
                        VelocityVector(
                            Vec2i { x: (v.x + delta.x) as i64, y: (v.y + delta.y) as i64 },
                        ),
                    ),
                    ..old(world).entities@[i]
                }),
            )
        },
        !ok ==> final(world).entities@ == old(world).entities@,
{
    proof {
        lemma_index_of(world.entities@, id);
    }
    match world.find_entity(id) {
        Some(i) => {
            match world.entities[i].velocity {
                Some(VelocityVector(v)) => {
                    let sx: i128 = (v.x as i128) + (delta.x as i128);
                    let sy: i128 = (v.y as i128) + (delta.y as i128);
                    if -(VEL_LIMIT as i128) <= sx && sx <= VEL_LIMIT as i128 && -(VEL_LIMIT as i128)
                        <= sy && sy <= VEL_LIMIT as i128 {
                        world.entities[i].velocity = Some(
                            VelocityVector(Vec2i { x: sx as i64, y: sy as i64 }),
                        );
                        proof {
                            assert forall|a: int, b: int|
                                0 <= a < b < world.entities@.len()
                                implies world.entities@[a].id != world.entities@[b].id by {
                                assert(old(world).entities@[a].id != old(world).entities@[b].id);
                            }
                        }
                        true
                    } else {
                        false
                    }
                },
                None => false,
            }
        },
        None => false,
    }
}

/// Sum over a sequence of velocity contributions, x axis.
pub open spec fn spec_sum_x(s: Seq<Vec2i>) -> int
    decreases s.len(),
{
    if s.len() == 0 {
        0
    } else {
        spec_sum_x(s.drop_last()) + s.last().x
    }
}

/// Sum over a sequence of velocity contributions, y axis.
pub open spec fn spec_sum_y(s: Seq<Vec2i>) -> int
    decreases s.len(),
{
    if s.len() == 0 {
        0
    } else {
        spec_sum_y(s.drop_last()) + s.last().y
    }
}

/// Removing one contribution takes exactly its value out of the sum.
proof fn lemma_sum_remove(s: Seq<Vec2i>, i: int)
    requires
        0 <= i < s.len(),
    ensures
        spec_sum_x(s.remove(i)) == spec_sum_x(s) - s[i].x,
        spec_sum_y(s.remove(i)) == spec_sum_y(s) - s[i].y,
    decreases s.len(),
{
    if i == s.len() - 1 {
        assert(s.remove(i) =~= s.drop_last());
    } else {
        let t = s.drop_last();
        lemma_sum_remove(t, i);
        assert(s.remove(i).drop_last() =~= t.remove(i));
        assert(s.remove(i).last() == s.last());
    }
}

/// Velocity contributions commute: two sequences of intents that hold the
/// same contributions, in any order, sum to the same accumulator.
pub proof fn lemma_intents_commute(s1: Seq<Vec2i>, s2: Seq<Vec2i>)
    requires
        s1.to_multiset() == s2.to_multiset(),
    ensures
        spec_sum_x(s1) == spec_sum_x(s2),
        spec_sum_y(s1) == spec_sum_y(s2),
    decreases s1.len(),
{
    broadcast use vstd::seq_lib::group_to_multiset_ensures;
    broadcast use vstd::multiset::group_multiset_axioms;

    if s1.len() == 0 {
        assert(s2.to_multiset().len() == 0);
    } else {
        let x = s1.last();
        assert(s1.contains(x));
        assert(s1.to_multiset().count(x) > 0);
        assert(s2.contains(x));
        let j = choose|j: int| 0 <= j < s2.len() && s2[j] == x;
        assert(s1 =~= s1.drop_last().push(x));
        assert(s1.to_multiset() == s1.drop_last().to_multiset().insert(x));
        assert(s2.remove(j).to_multiset() == s2.to_multiset().remove(x));
        assert(s1.drop_last().to_multiset() =~= s2.remove(j).to_multiset());
        lemma_intents_commute(s1.drop_last(), s2.remove(j));
        lemma_sum_remove(s2, j);
    }
}

} // verus!

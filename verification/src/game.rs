//! The course of the game: level numbers and the level-completion rule.

use vstd::prelude::*;
use crate::health_system::HealEvent;
use crate::move_system::MoveObjectType;
use crate::world::{EntityRecord, World};

verus! {

/// Highest level number.
pub const MAX_LEVEL: usize = 3;

/// After finishing a level the player is healed by this many health
/// points.
pub const PLAYER_BOOST_HEALTH: usize = 20;

/// Current level number.
#[derive(Clone, Copy, PartialEq, Eq, Structural, Debug)]
pub struct Level {
    pub current: usize,
}

/// After winning the game the level is set back to the first one in case
/// someone wants to play again.
pub fn reset_level_number(level: &mut Level)
    ensures
        final(level).current == 1,
{
    level.current = 1;
}

/// If there are any levels left, go to the next one; reports whether one
/// was left — when not, the game is won.
pub fn next_level(level: &mut Level) -> (advanced: bool)
    ensures
        advanced == (old(level).current < MAX_LEVEL),
        advanced ==> final(level).current == old(level).current + 1,
        !advanced ==> final(level).current == old(level).current,
{
    if level.current < MAX_LEVEL {
        level.current = level.current + 1;
        true
    } else {
        false
    }
}

/// Some entity of the given kind is on the field.
pub open spec fn spec_has_of_type(s: Seq<EntityRecord>, t: MoveObjectType) -> bool {
    exists|i: int| 0 <= i < s.len() && (#[trigger] s[i]).object_type == t
}

/// Index of the first entity of the given kind, or -1 if there is none.
pub open spec fn spec_first_of_type(s: Seq<EntityRecord>, t: MoveObjectType) -> int
    decreases s.len(),
{
    if s.len() == 0 {
        -1
    } else if s[0].object_type == t {
        0
    } else {
        let r = spec_first_of_type(s.drop_first(), t);
        if r < 0 {
            -1
        } else {
            r + 1
        }
    }
}

/// What `spec_first_of_type` finds.
pub proof fn lemma_first_of_type(s: Seq<EntityRecord>, t: MoveObjectType)
    ensures
        spec_first_of_type(s, t) < 0 ==> forall|i: int|
            0 <= i < s.len() ==> (#[trigger] s[i]).object_type != t,
        spec_first_of_type(s, t) >= 0 ==> {
            &&& spec_first_of_type(s, t) < s.len()
            &&& s[spec_first_of_type(s, t)].object_type == t
        },
    decreases s.len(),
{
    if s.len() > 0 && s[0].object_type != t {
        let u = s.drop_first();
        lemma_first_of_type(u, t);
        assert(forall|i: int| 0 <= i < u.len() ==> u[i] == s[i + 1]);
        if spec_first_of_type(u, t) < 0 {
            assert forall|i: int| 0 <= i < s.len() implies (#[trigger] s[i]).object_type != t by {
                if i > 0 {
                    assert(u[i - 1].object_type != t);
                }
            }
        }
    }
}

/// Index of the first entity of the given kind, if one is on the field.
pub fn find_first_of_type(world: &World, t: MoveObjectType) -> (r: Option<usize>)
    ensures
        match r {
            Some(i) => i == spec_first_of_type(world.entities@, t),
            None => spec_first_of_type(world.entities@, t) < 0,
        },
{
    let n = world.entities.len();
    for i in 0..n
        invariant
            n == world.entities@.len(),
            forall|j: int| 0 <= j < i ==> (#[trigger] world.entities@[j]).object_type != t,
            spec_first_of_type(world.entities@, t) >= i || spec_first_of_type(world.entities@, t)
                < 0,
    {
        proof {
            lemma_first_of_type_prefix(world.entities@, t, i as int);
        }
        if world.entities[i].object_type == t {
            proof {
                lemma_first_of_type_prefix(world.entities@, t, i as int);
            }
            return Some(i);
        }
        proof {
            lemma_first_of_type_prefix(world.entities@, t, i as int + 1);
        }
    }
    proof {
        lemma_first_of_type(world.entities@, t);
    }
    None
}

/// If the first `k` records are not of the kind, the first match is at
/// `k` or later — or at `k` exactly when record `k` matches.
proof fn lemma_first_of_type_prefix(s: Seq<EntityRecord>, t: MoveObjectType, k: int)
    requires
        0 <= k <= s.len(),
        forall|j: int| 0 <= j < k ==> (#[trigger] s[j]).object_type != t,
    ensures
        spec_first_of_type(s, t) < 0 || spec_first_of_type(s, t) >= k,
        k < s.len() && s[k].object_type == t ==> spec_first_of_type(s, t) == k,
    decreases k,
{
    lemma_first_of_type(s, t);
    if k > 0 {
        let u = s.drop_first();
        assert(forall|i: int| 0 <= i < u.len() ==> u[i] == s[i + 1]);
        lemma_first_of_type_prefix(u, t, k - 1);
    }
}

/// The level is finished when no enemy is on the field and none is left
/// to spawn. On a finished level the player, if still alive, is owed a
/// heal of PLAYER_BOOST_HEALTH before the next level starts.
pub fn check_if_player_finished_level(world: &World, no_enemies_to_spawn: bool) -> (r: (
    bool,
    Option<HealEvent>,
))
    ensures
        r.0 == (no_enemies_to_spawn && !spec_has_of_type(
            world.entities@,
            MoveObjectType::Enemy,
        )),
        r.1 == (if r.0 && spec_first_of_type(world.entities@, MoveObjectType::Player) >= 0 {
            Some(
                HealEvent {
                    id: world.entities@[spec_first_of_type(
                        world.entities@,
                        MoveObjectType::Player,
                    )].id,
                    amount: PLAYER_BOOST_HEALTH,
                },
            )
        } else {
            Option::<HealEvent>::None
        }),
{
    proof {
        lemma_first_of_type(world.entities@, MoveObjectType::Enemy);
    }
    let no_spawned_enemies = find_first_of_type(world, MoveObjectType::Enemy).is_none();
    proof {
        if spec_has_of_type(world.entities@, MoveObjectType::Enemy) {
            let i = choose|i: int|
                0 <= i < world.entities@.len() && (#[trigger] world.entities@[i]).object_type
                    == MoveObjectType::Enemy;
            lemma_first_of_type_prefix_has(world.entities@, MoveObjectType::Enemy, i);
        }
    }
    if no_spawned_enemies && no_enemies_to_spawn {
        match find_first_of_type(world, MoveObjectType::Player) {
            Some(i) => {
                proof {
                    lemma_first_of_type(world.entities@, MoveObjectType::Player);
                }
                (true, Some(HealEvent { id: world.entities[i].id, amount: PLAYER_BOOST_HEALTH }))
            },
            None => (true, None),
        }
    } else {
        (false, None)
    }
}

/// A kind that occurs somewhere is found.
proof fn lemma_first_of_type_prefix_has(s: Seq<EntityRecord>, t: MoveObjectType, i: int)
    requires
        0 <= i < s.len(),
        s[i].object_type == t,
    ensures
        spec_first_of_type(s, t) >= 0,
{
    lemma_first_of_type(s, t);
}

} // verus!

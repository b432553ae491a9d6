//! The entity store: dense records keyed by a unique integer id.
//!
//! All per-entity state lives here, in one record per entity; systems are
//! free functions over the store. Ids are handed out by a monotone counter
//! and never reused, so a stale id simply fails to look up.

use vstd::prelude::*;
use crate::geom::{Vec2i, VEL_LIMIT};
use crate::hitbox::Hitbox;
use crate::health_system::HealthData;
use crate::move_system::{
    MoveObjectType, MoveSystemObject, MoveSystemObjectWithVelocity, VelocityVector,
};

verus! {

/// All per-entity state: position, collision shape, kind, and the optional
/// velocity accumulator and health record.
#[derive(Clone, Copy, PartialEq, Eq, Structural, Debug)]
pub struct EntityRecord {
    pub id: u64,
    pub position: Vec2i,
    pub object_type: MoveObjectType,
    pub hitbox: Hitbox,
    pub velocity: Option<VelocityVector>,
    pub health: Option<HealthData>,
}

impl EntityRecord {
    /// The shape fits a grid cell, the velocity accumulator is within the
    /// world's velocity bound, and health is within its record's bounds.
    pub open spec fn wf(self) -> bool {
        &&& self.hitbox.wf()
        &&& match self.velocity {
            Some(v) => v.0.within(VEL_LIMIT as int),
            None => true,
        }
        &&& match self.health {
            Some(h) => h.wf(),
            None => true,
        }
    }
}

/// Index of the first record with the given id, or -1 if there is none.
pub open spec fn spec_index_of(s: Seq<EntityRecord>, id: u64) -> int
    decreases s.len(),
{
    if s.len() == 0 {
        -1
    } else if s[0].id == id {
        0
    } else {
        let r = spec_index_of(s.drop_first(), id);
        if r < 0 {
            -1
        } else {
            r + 1
        }
    }
}

/// What `spec_index_of` finds: the first matching index, or proof that no
/// record matches.
pub proof fn lemma_index_of(s: Seq<EntityRecord>, id: u64)
    ensures
        spec_index_of(s, id) < 0 ==> forall|i: int| 0 <= i < s.len() ==> s[i].id != id,
        spec_index_of(s, id) >= 0 ==> {
            &&& spec_index_of(s, id) < s.len()
            &&& s[spec_index_of(s, id)].id == id
            &&& forall|i: int| 0 <= i < spec_index_of(s, id) ==> s[i].id != id
        },
    decreases s.len(),
{
    if s.len() > 0 && s[0].id != id {
        let t = s.drop_first();
        lemma_index_of(t, id);
        assert(forall|i: int| 0 <= i < t.len() ==> t[i] == s[i + 1]);
        let r = spec_index_of(t, id);
        if r >= 0 {
            assert(s[r + 1].id == id);
            assert forall|i: int| 0 <= i < r + 1 implies s[i].id != id by {
                if i > 0 {
                    assert(t[i - 1].id != id);
                }
            }
        } else {
            assert forall|i: int| 0 <= i < s.len() implies s[i].id != id by {
                if i > 0 {
                    assert(t[i - 1].id != id);
                }
            }
        }
    }
}

/// The entity store.
pub struct World {
    pub entities: Vec<EntityRecord>,
    pub next_id: u64,
}

impl World {
    /// Ids are unique and below the counter, and every record is
    /// well-formed.
    pub open spec fn inv(self) -> bool {
        &&& forall|i: int, j: int|
            0 <= i < j < self.entities@.len() ==> self.entities@[i].id != self.entities@[j].id
        &&& forall|i: int| 0 <= i < self.entities@.len() ==> self.entities@[i].id < self.next_id
        &&& forall|i: int| 0 <= i < self.entities@.len() ==> (#[trigger] self.entities@[i]).wf()
    }

    pub fn new() -> (r: World)
        ensures
            r.inv(),
            r.entities@.len() == 0,
            r.next_id == 0,
    {
        World { entities: Vec::new(), next_id: 0 }
    }

    /// Index of the entity with the given id, if it is present.
    pub fn find_entity(&self, id: u64) -> (r: Option<usize>)
        ensures
            match r {
                Some(i) => i == spec_index_of(self.entities@, id),
                None => spec_index_of(self.entities@, id) < 0,
            },
    {
        let n = self.entities.len();
        for i in 0..n
            invariant
                n == self.entities@.len(),
                forall|j: int| 0 <= j < i ==> self.entities@[j].id != id,
                spec_index_of(self.entities@, id) >= i || spec_index_of(self.entities@, id) < 0,
        {
            proof {
                lemma_index_of(self.entities@, id);
            }
            if self.entities[i].id == id {
                proof {
                    lemma_index_of(self.entities@, id);
                }
                return Some(i);
            }
        }
        proof {
            lemma_index_of(self.entities@, id);
        }
        None
    }

    /// Register a new entity; it takes part in movement, collision and
    /// health tracking from the next tick on.
    pub fn spawn(
        &mut self,
        position: Vec2i,
        object_type: MoveObjectType,
        hitbox: Hitbox,
        velocity: Option<VelocityVector>,
        health: Option<HealthData>,
    ) -> (id: u64)
        requires
            old(self).inv(),
            old(self).next_id < u64::MAX,
            hitbox.wf(),
            match velocity {
                Some(v) => v.0.within(VEL_LIMIT as int),
                None => true,
            },
            match health {
                Some(h) => h.wf(),
                None => true,
            },
        ensures
            final(self).inv(),
            id == old(self).next_id,
            final(self).next_id == old(self).next_id + 1,
            final(self).entities@ == old(self).entities@.push(
                EntityRecord { id, position, object_type, hitbox, velocity, health },
            ),
    {
        let id = self.next_id;
        self.entities.push(EntityRecord { id, position, object_type, hitbox, velocity, health });
        self.next_id = self.next_id + 1;
        id
    }

    /// Spawn a moving object from its bundled description.
    pub fn spawn_object(
        &mut self,
        position: Vec2i,
        object: MoveSystemObjectWithVelocity,
        health: Option<HealthData>,
    ) -> (id: u64)
        requires
            old(self).inv(),
            old(self).next_id < u64::MAX,
            object.object_bundle.hitbox.wf(),
            object.velocity.0.within(VEL_LIMIT as int),
            match health {
                Some(h) => h.wf(),
                None => true,
            },
        ensures
            final(self).inv(),
            id == old(self).next_id,
            final(self).next_id == old(self).next_id + 1,
            final(self).entities@ == old(self).entities@.push(
                EntityRecord {
                    id,
                    position,
                    object_type: object.object_bundle.object_type,
                    hitbox: object.object_bundle.hitbox,
                    velocity: Some(object.velocity),
                    health,
                },
            ),
    {
        self.spawn(
            position,
            object.object_bundle.object_type,
            object.object_bundle.hitbox,
            Some(object.velocity),
            health,
        )
    }

    /// Spawn a static object from its bundled description: no velocity
    /// accumulator, so it never moves.
    pub fn spawn_static(
        &mut self,
        position: Vec2i,
        object: MoveSystemObject,
        health: Option<HealthData>,
    ) -> (id: u64)
        requires
            old(self).inv(),
            old(self).next_id < u64::MAX,
            object.hitbox.wf(),
            match health {
                Some(h) => h.wf(),
                None => true,
            },
        ensures
            final(self).inv(),
            id == old(self).next_id,
            final(self).next_id == old(self).next_id + 1,
            final(self).entities@ == old(self).entities@.push(
                EntityRecord {
                    id,
                    position,
                    object_type: object.object_type,
                    hitbox: object.hitbox,
                    velocity: None,
                    health,
                },
            ),
    {
        self.spawn(position, object.object_type, object.hitbox, None, health)
    }

    /// Remove the entity with the given id; reports whether it was
    /// present. The single authoritative path here is a death consumer
    /// reacting to a death event.
    pub fn remove_entity(&mut self, id: u64) -> (removed: bool)
        requires
            old(self).inv(),
        ensures
            final(self).inv(),
            final(self).next_id == old(self).next_id,
            removed == (spec_index_of(old(self).entities@, id) >= 0),
            removed ==> final(self).entities@ == old(self).entities@.remove(
                spec_index_of(old(self).entities@, id),
            ),
            !removed ==> final(self).entities@ == old(self).entities@,
    {
        proof {
            lemma_index_of(self.entities@, id);
        }
        match self.find_entity(id) {
            Some(i) => {
                self.entities.remove(i);
                true
            },
            None => false,
        }
    }

    /// Read-only output for render and UI collaborators: the entity's
    /// current position.
    pub fn get_position(&self, id: u64) -> (r: Option<Vec2i>)
        ensures
            match r {
                Some(p) => {
                    &&& spec_index_of(self.entities@, id) >= 0
                    &&& p == self.entities@[spec_index_of(self.entities@, id)].position
                },
                None => spec_index_of(self.entities@, id) < 0,
            },
    {
        match self.find_entity(id) {
            Some(i) => {
                proof {
                    lemma_index_of(self.entities@, id);
                }
                Some(self.entities[i].position)
            },
            None => None,
        }
    }

    /// Read-only output for render and UI collaborators: the entity's
    /// health record.
    pub fn get_health(&self, id: u64) -> (r: Option<HealthData>)
        ensures
            match r {
                Some(h) => {
                    &&& spec_index_of(self.entities@, id) >= 0
                    &&& self.entities@[spec_index_of(self.entities@, id)].health == Some(h)
                },
                None => spec_index_of(self.entities@, id) < 0 || self.entities@[spec_index_of(
                    self.entities@,
                    id,
                )].health is None,
            },
    {
        match self.find_entity(id) {
            Some(i) => {
                proof {
                    lemma_index_of(self.entities@, id);
                }
                self.entities[i].health
            },
            None => None,
        }
    }
}

} // verus!

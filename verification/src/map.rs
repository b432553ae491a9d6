//! Loaded maps and the in-memory store that keeps them between levels, so
//! a map read once from disk is never read again.

use vstd::prelude::*;
use std::collections::HashMap;
use crate::move_system::MoveObjectType;
use crate::parser::{MapId, ParsedEntity};
use crate::world::{EntityRecord, World};

verus! {

broadcast use vstd::std_specs::hash::group_hash_axioms;

/// Message asking to load the map of a given ID.
pub struct LoadMap(pub MapId);

/// Message asking to unload the map of a given ID.
pub struct UnloadMap(pub MapId);

/// Message asking to render the map of a given ID.
pub struct RenderMap(pub MapId);

/// Message asking to remove the map.
pub struct RemoveMap;

/// The contents of one loaded map.
#[derive(Clone, PartialEq, Eq, Debug)]
pub struct LevelMap {
    pub entities: Vec<ParsedEntity>,
}

impl LevelMap {
    pub fn new() -> (r: LevelMap)
        ensures
            r.entities@.len() == 0,
    {
        LevelMap { entities: Vec::new() }
    }

    pub fn insert(&mut self, map_entity: ParsedEntity)
        ensures
            final(self).entities@ == old(self).entities@.push(map_entity),
    {
        self.entities.push(map_entity);
    }

    pub fn len(&self) -> (r: usize)
        ensures
            r == self.entities@.len(),
    {
        self.entities.len()
    }

    pub fn get(&self, i: usize) -> (r: &ParsedEntity)
        requires
            i < self.entities@.len(),
        ensures
            *r == self.entities@[i as int],
    {
        &self.entities[i]
    }

    /// Build a map from decoded records. Only obstacles and floor tiles
    /// may stand in a map; any other kind marks the content as malformed
    /// and the whole map is rejected.
    pub fn from_entities(entities: Vec<ParsedEntity>) -> (r: Option<LevelMap>)
        ensures
            match r {
                Some(map) => {
                    &&& map.entities@ == entities@
                    &&& forall|i: int|
                        0 <= i < entities@.len() ==> ((#[trigger] entities@[i]).move_type
                            == MoveObjectType::Obstacle || entities@[i].move_type
                            == MoveObjectType::Floor)
                },
                None => exists|i: int|
                    0 <= i < entities@.len() && (#[trigger] entities@[i]).move_type
                        != MoveObjectType::Obstacle && entities@[i].move_type
                        != MoveObjectType::Floor,
            },
    {
        let n = entities.len();
        for i in 0..n
            invariant
                n == entities@.len(),
                forall|k: int|
                    0 <= k < i ==> ((#[trigger] entities@[k]).move_type == MoveObjectType::Obstacle
                        || entities@[k].move_type == MoveObjectType::Floor),
        {
            let ok = matches!(
                entities[i].move_type,
                MoveObjectType::Obstacle | MoveObjectType::Floor
            );
            if !ok {
                return None;
            }
        }
        Some(LevelMap { entities })
    }
}

/// Store of loaded maps, keyed by map id.
pub struct MapStorage {
    pub maps: HashMap<MapId, LevelMap>,
}

impl MapStorage {
    pub fn new() -> (r: MapStorage)
        ensures
            r.maps@ == Map::<MapId, LevelMap>::empty(),
    {
        MapStorage { maps: HashMap::new() }
    }

    pub fn insert(&mut self, id: MapId, map: LevelMap)
        ensures
            final(self).maps@ == old(self).maps@.insert(id, map),
    {
        self.maps.insert(id, map);
    }

    pub fn get(&self, id: MapId) -> (r: Option<&LevelMap>)
        ensures
            match r {
                Some(map) => self.maps@.contains_key(id) && *map == self.maps@[id],
                None => !self.maps@.contains_key(id),
            },
    {
        self.maps.get(&id)
    }

    pub fn remove(&mut self, id: MapId) -> (r: Option<LevelMap>)
        ensures
            final(self).maps@ == old(self).maps@.remove(id),
            match r {
                Some(map) => old(self).maps@.contains_key(id) && map == old(self).maps@[id],
                None => !old(self).maps@.contains_key(id),
            },
    {
        self.maps.remove(&id)
    }

    pub fn contains(&self, id: MapId) -> (r: bool)
        ensures
            r == self.maps@.contains_key(id),
    {
        self.maps.contains_key(&id)
    }
}

/// What survives a map teardown: the player alone. Everything a level
/// spawned — tiles, obstacles, enemies, bullets — goes with the map.
pub open spec fn spec_retain_player(s: Seq<EntityRecord>) -> Seq<EntityRecord>
    decreases s.len(),
{
    if s.len() == 0 {
        Seq::empty()
    } else {
        let rest = spec_retain_player(s.drop_last());
        if s.last().object_type == MoveObjectType::Player {
            rest.push(s.last())
        } else {
            rest
        }
    }
}

/// Every record the teardown keeps is one of the records it was given.
proof fn lemma_retain_player_sub(s: Seq<EntityRecord>)
    ensures
        forall|k: int|
            0 <= k < spec_retain_player(s).len() ==> exists|i: int|
                0 <= i < s.len() && s[i] == #[trigger] spec_retain_player(s)[k],
    decreases s.len(),
{
    if s.len() > 0 {
        let rest = spec_retain_player(s.drop_last());
        lemma_retain_player_sub(s.drop_last());
        assert forall|k: int|
            0 <= k < spec_retain_player(s).len() implies exists|i: int|
            0 <= i < s.len() && s[i] == #[trigger] spec_retain_player(s)[k] by {
            if s.last().object_type == MoveObjectType::Player && k == rest.len() {
                assert(s[s.len() - 1] == spec_retain_player(s)[k]);
            } else {
                let i = choose|i: int| 0 <= i < s.drop_last().len() && s.drop_last()[i] == rest[k];
                assert(s[i] == spec_retain_player(s)[k]);
            }
        }
    }
}

/// Despawn the currently displayed map, and with it every entity that is
/// not the player.
pub fn despawn_map(world: &mut World)
    requires
        old(world).inv(),
    ensures
        final(world).inv(),
        final(world).next_id == old(world).next_id,
        final(world).entities@ == spec_retain_player(old(world).entities@),
{
    let mut kept: Vec<EntityRecord> = Vec::new();
    let n = world.entities.len();
    for k in 0..n
        invariant
            n == world.entities@.len(),
            world.inv(),
            kept@ == spec_retain_player(world.entities@.take(k as int)),
    {
        let e = world.entities[k];
        if matches!(e.object_type, MoveObjectType::Player) {
            kept.push(e);
        }
        proof {
            assert(world.entities@.take(k as int + 1).drop_last() =~= world.entities@.take(
                k as int,
            ));
            assert(world.entities@.take(k as int + 1).last() == e);
        }
    }
    proof {
        assert(world.entities@.take(n as int) =~= world.entities@);
        lemma_retain_player_sub(world.entities@);
        // uniqueness carries over: every kept record is an original one,
        // and the original ids are pairwise distinct
        assert forall|a: int, b: int|
            0 <= a < b < kept@.len() implies kept@[a].id != kept@[b].id by {
            lemma_retain_player_distinct(world.entities@, a, b);
        }
    }
    world.entities = kept;
}

/// The teardown keeps records at distinct original slots, so with unique
/// ids no two kept records share one.
proof fn lemma_retain_player_distinct(s: Seq<EntityRecord>, a: int, b: int)
    requires
        forall|i: int, j: int| 0 <= i < j < s.len() ==> s[i].id != s[j].id,
        0 <= a < b < spec_retain_player(s).len(),
    ensures
        spec_retain_player(s)[a].id != spec_retain_player(s)[b].id,
    decreases s.len(),
{
    if s.len() > 0 {
        let rest = spec_retain_player(s.drop_last());
        assert(forall|i: int, j: int|
            0 <= i < j < s.drop_last().len() ==> s.drop_last()[i].id != s.drop_last()[j].id);
        if s.last().object_type == MoveObjectType::Player && b == rest.len() {
            lemma_retain_player_sub(s.drop_last());
            let i = choose|i: int| 0 <= i < s.drop_last().len() && s.drop_last()[i] == rest[a];
            assert(s[i].id != s[s.len() - 1].id);
        } else {
            lemma_retain_player_distinct(s.drop_last(), a, b);
        }
    }
}

} // verus!

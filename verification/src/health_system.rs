//! Health records, heal/damage/death events, and the health state machine.
//!
//! Per tick, all heal events are applied before all damage events, and one
//! death event is reported for each entity whose health reached zero this
//! tick — exactly once, and never for an entity that was already at zero
//! when the tick began.

use vstd::prelude::*;
use crate::world::{lemma_index_of, spec_index_of, EntityRecord, World};

verus! {

/// Ask to lower an entity's health by `amount`.
#[derive(Clone, Copy, PartialEq, Eq, Structural, Debug)]
pub struct TakeDamageEvent {
    pub id: u64,
    pub amount: usize,
}

/// Ask to raise an entity's health by `amount`.
#[derive(Clone, Copy, PartialEq, Eq, Structural, Debug)]
pub struct HealEvent {
    pub id: u64,
    pub amount: usize,
}

/// The single authoritative signal that an entity has died.
#[derive(Clone, Copy, PartialEq, Eq, Structural, Debug)]
pub struct DeathEvent {
    pub id: u64,
}

/// Health record of an entity.
#[derive(Clone, Copy, PartialEq, Eq, Structural, Debug)]
pub struct HealthData {
    pub max_health: usize,
    pub current_health: usize,
}

impl HealthData {
    /// Health never leaves [0, max_health].
    pub open spec fn wf(self) -> bool {
        self.current_health <= self.max_health
    }

    /// Healing clamps at max_health.
    pub open spec fn spec_heal(self, amount: int) -> HealthData {
        if self.current_health + amount >= self.max_health {
            HealthData { max_health: self.max_health, current_health: self.max_health }
        } else {
            HealthData {
                max_health: self.max_health,
                current_health: (self.current_health + amount) as usize,
            }
        }
    }

    /// Damage clamps at zero.
    pub open spec fn spec_take_damage(self, amount: int) -> HealthData {
        if self.current_health <= amount {
            HealthData { max_health: self.max_health, current_health: 0 }
        } else {
            HealthData {
                max_health: self.max_health,
                current_health: (self.current_health - amount) as usize,
            }
        }
    }

    /// A fresh record starts at full health.
    pub fn new_health(max_health: usize) -> (r: HealthData)
        ensures
            r == (HealthData { max_health, current_health: max_health }),
            r.wf(),
    {
        HealthData { max_health, current_health: max_health }
    }

    /// Raise health by `amount`, clamped at max_health.
    pub fn heal(&mut self, amount: usize)
        requires
            old(self).wf(),
        ensures
            *final(self) == old(self).spec_heal(amount as int),
            final(self).wf(),
    {
        if amount >= self.max_health - self.current_health {
            self.current_health = self.max_health;
        } else {
            self.current_health = self.current_health + amount;
        }
    }

    /// Lower health by `amount`, clamped at zero; reports whether health
    /// reached zero.
    pub fn take_damage(&mut self, amount: usize) -> (died: bool)
        requires
            old(self).wf(),
        ensures
            *final(self) == old(self).spec_take_damage(amount as int),
            died == (old(self).current_health <= amount),
            final(self).wf(),
    {
        if self.current_health <= amount {
            self.current_health = 0;
            return true;
        }
        self.current_health = self.current_health - amount;
        false
    }
}

/// One heal event applied to the store: missing ids and entities without a
/// health record are silently skipped.
pub open spec fn spec_apply_heal(s: Seq<EntityRecord>, ev: HealEvent) -> Seq<EntityRecord> {
    let i = spec_index_of(s, ev.id);
    if i >= 0 && s[i].health is Some {
        s.update(
            i,
            EntityRecord { health: Some((s[i].health->0).spec_heal(ev.amount as int)), ..s[i] },
        )
    } else {
        s
    }
}

/// All heal events of a tick, applied in order.
pub open spec fn spec_apply_heals(s: Seq<EntityRecord>, evs: Seq<HealEvent>) -> Seq<EntityRecord>
    decreases evs.len(),
{
    if evs.len() == 0 {
        s
    } else {
        spec_apply_heals(spec_apply_heal(s, evs[0]), evs.drop_first())
    }
}

/// One damage event applied to the store and the death list. An entity
/// already at zero health — dead since an earlier event or tick — is left
/// untouched and reported dead no further time; one that reaches zero now
/// is appended to the death list.
pub open spec fn spec_apply_damage(
    s: Seq<EntityRecord>,
    deaths: Seq<u64>,
    ev: TakeDamageEvent,
) -> (Seq<EntityRecord>, Seq<u64>) {
    let i = spec_index_of(s, ev.id);
    if i >= 0 && s[i].health is Some && (s[i].health->0).current_health > 0 {
        let h = (s[i].health->0).spec_take_damage(ev.amount as int);
        let s2 = s.update(i, EntityRecord { health: Some(h), ..s[i] });
        if h.current_health == 0 {
            (s2, deaths.push(ev.id))
        } else {
            (s2, deaths)
        }
    } else {
        (s, deaths)
    }
}

/// All damage events of a tick, applied in order.
pub open spec fn spec_apply_damages(
    s: Seq<EntityRecord>,
    deaths: Seq<u64>,
    evs: Seq<TakeDamageEvent>,
) -> (Seq<EntityRecord>, Seq<u64>)
    decreases evs.len(),
{
    if evs.len() == 0 {
        (s, deaths)
    } else {
        let r = spec_apply_damage(s, deaths, evs[0]);
        spec_apply_damages(r.0, r.1, evs.drop_first())
    }
}

/// Applying the heals of a longer tick is applying those of the shorter
/// one, then the last event.
proof fn lemma_apply_heals_push(s: Seq<EntityRecord>, evs: Seq<HealEvent>, e: HealEvent)
    ensures
        spec_apply_heals(s, evs.push(e)) == spec_apply_heal(spec_apply_heals(s, evs), e),
    decreases evs.len(),
{
    if evs.len() == 0 {
        reveal_with_fuel(spec_apply_heals, 2);
        assert(evs.push(e).drop_first() =~= Seq::<HealEvent>::empty());
        assert(evs.push(e)[0] == e);
    } else {
        assert(evs.push(e).drop_first() =~= evs.drop_first().push(e));
        assert(evs.push(e)[0] == evs[0]);
        lemma_apply_heals_push(spec_apply_heal(s, evs[0]), evs.drop_first(), e);
    }
}

/// The damage counterpart of `lemma_apply_heals_push`.
proof fn lemma_apply_damages_push(
    s: Seq<EntityRecord>,
    deaths: Seq<u64>,
    evs: Seq<TakeDamageEvent>,
    e: TakeDamageEvent,
)
    ensures
        spec_apply_damages(s, deaths, evs.push(e)) == spec_apply_damage(
            spec_apply_damages(s, deaths, evs).0,
            spec_apply_damages(s, deaths, evs).1,
            e,
        ),
    decreases evs.len(),
{
    if evs.len() == 0 {
        reveal_with_fuel(spec_apply_damages, 2);
        assert(evs.push(e).drop_first() =~= Seq::<TakeDamageEvent>::empty());
        assert(evs.push(e)[0] == e);
    } else {
        assert(evs.push(e).drop_first() =~= evs.drop_first().push(e));
        assert(evs.push(e)[0] == evs[0]);
        let r = spec_apply_damage(s, deaths, evs[0]);
        lemma_apply_damages_push(r.0, r.1, evs.drop_first(), e);
    }
}

/// Consume the tick's heal and damage events: apply every heal, then every
/// damage, and report exactly the entities whose health reached zero this
/// tick — each once, and none that was already at zero when the tick
/// began.
pub fn health_system(
    world: &mut World,
    heal_events: &Vec<HealEvent>,
    damage_events: &Vec<TakeDamageEvent>,
) -> (death_events: Vec<DeathEvent>)
    requires
        old(world).inv(),
    ensures
        final(world).inv(),
        final(world).next_id == old(world).next_id,
        final(world).entities@ == spec_apply_damages(
            spec_apply_heals(old(world).entities@, heal_events@),
            Seq::empty(),
            damage_events@,
        ).0,
        death_events@.map_values(|d: DeathEvent| d.id) == spec_apply_damages(
            spec_apply_heals(old(world).entities@, heal_events@),
            Seq::empty(),
            damage_events@,
        ).1,
{
    let ghost s0 = world.entities@;
    let nh = heal_events.len();
    for k in 0..nh
        invariant
            nh == heal_events@.len(),
            world.inv(),
            world.next_id == old(world).next_id,
            world.entities@ == spec_apply_heals(s0, heal_events@.take(k as int)),
    {
        let ghost prev = world.entities@;
        let ev = heal_events[k];
        match world.find_entity(ev.id) {
            Some(i) => {
                proof {
                    lemma_index_of(world.entities@, ev.id);
                }
                match world.entities[i].health {
                    Some(h) => {
                        let mut h2 = h;
                        h2.heal(ev.amount);
                        world.entities[i].health = Some(h2);
                        proof {
                            assert(world.entities@ =~= spec_apply_heal(prev, ev));
                            assert forall|a: int, b: int|
                                0 <= a < b < world.entities@.len()
                                implies world.entities@[a].id != world.entities@[b].id by {
                                assert(prev[a].id != prev[b].id);
                            }
                        }
                    },
                    None => {
                        proof {
                            assert(world.entities@ =~= spec_apply_heal(prev, ev));
                        }
                    },
                }
            },
            None => {
                proof {
                    assert(world.entities@ =~= spec_apply_heal(prev, ev));
                }
            },
        }
        proof {
            assert(heal_events@.take(k as int + 1) =~= heal_events@.take(k as int).push(ev));
            lemma_apply_heals_push(s0, heal_events@.take(k as int), ev);
        }
    }
    proof {
        assert(heal_events@.take(nh as int) =~= heal_events@);
    }
    let ghost s1 = world.entities@;
    let mut death_events: Vec<DeathEvent> = Vec::new();
    let nd = damage_events.len();
    for k in 0..nd
        invariant
            nd == damage_events@.len(),
            world.inv(),
            world.next_id == old(world).next_id,
            (world.entities@, death_events@.map_values(|d: DeathEvent| d.id))
                == spec_apply_damages(s1, Seq::<u64>::empty(), damage_events@.take(k as int)),
    {
        let ghost prev = world.entities@;
        let ghost prev_deaths = death_events@.map_values(|d: DeathEvent| d.id);
        let ev = damage_events[k];
        match world.find_entity(ev.id) {
            Some(i) => {
                proof {
                    lemma_index_of(world.entities@, ev.id);
                }
                match world.entities[i].health {
                    Some(h) => {
                        if h.current_health > 0 {
                            let mut h2 = h;
                            let died = h2.take_damage(ev.amount);
                            world.entities[i].health = Some(h2);
                            if died {
                                death_events.push(DeathEvent { id: ev.id });
                            }
                            proof {
                                assert(world.entities@ =~= spec_apply_damage(
                                    prev,
                                    prev_deaths,
                                    ev,
                                ).0);
                                assert(death_events@.map_values(|d: DeathEvent| d.id)
                                    =~= spec_apply_damage(prev, prev_deaths, ev).1);
                                assert forall|a: int, b: int|
                                    0 <= a < b < world.entities@.len()
                                    implies world.entities@[a].id != world.entities@[b].id by {
                                    assert(prev[a].id != prev[b].id);
                                }
                            }
                        } else {
                            proof {
                                assert(world.entities@ =~= spec_apply_damage(
                                    prev,
                                    prev_deaths,
                                    ev,
                                ).0);
                                assert(death_events@.map_values(|d: DeathEvent| d.id)
                                    =~= spec_apply_damage(prev, prev_deaths, ev).1);
                            }
                        }
                    },
                    None => {
                        proof {
                            assert(world.entities@ =~= spec_apply_damage(prev, prev_deaths, ev).0);
                            assert(death_events@.map_values(|d: DeathEvent| d.id)
                                =~= spec_apply_damage(prev, prev_deaths, ev).1);
                        }
                    },
                }
            },
            None => {
                proof {
                    assert(world.entities@ =~= spec_apply_damage(prev, prev_deaths, ev).0);
                    assert(death_events@.map_values(|d: DeathEvent| d.id) =~= spec_apply_damage(
                        prev,
                        prev_deaths,
                        ev,
                    ).1);
                }
            },
        }
        proof {
            assert(damage_events@.take(k as int + 1) =~= damage_events@.take(k as int).push(ev));
            lemma_apply_damages_push(s1, Seq::<u64>::empty(), damage_events@.take(k as int), ev);
        }
    }
    proof {
        assert(damage_events@.take(nd as int) =~= damage_events@);
    }
    death_events
}

/// Every health record in the store is within its bounds.
pub open spec fn spec_healths_wf(s: Seq<EntityRecord>) -> bool {
    forall|i: int|
        0 <= i < s.len() ==> ((#[trigger] s[i]).health is Some ==> (s[i].health->0).wf())
}

/// Heals keep every health record within [0, max_health].
proof fn lemma_heals_preserve_wf(s: Seq<EntityRecord>, evs: Seq<HealEvent>)
    requires
        spec_healths_wf(s),
    ensures
        spec_healths_wf(spec_apply_heals(s, evs)),
    decreases evs.len(),
{
    if evs.len() > 0 {
        let s2 = spec_apply_heal(s, evs[0]);
        assert(spec_healths_wf(s2)) by {
            crate::world::lemma_index_of(s, evs[0].id);
            let i = spec_index_of(s, evs[0].id);
            if i >= 0 && s[i].health is Some {
                assert forall|k: int|
                    0 <= k < s2.len() implies ((#[trigger] s2[k]).health is Some ==> (
                s2[k].health->0).wf()) by {
                    if k != i {
                        assert(s2[k] == s[k]);
                    }
                }
            }
        }
        lemma_heals_preserve_wf(s2, evs.drop_first());
    }
}

/// Damage keeps every health record within [0, max_health].
proof fn lemma_damages_preserve_wf(
    s: Seq<EntityRecord>,
    deaths: Seq<u64>,
    evs: Seq<TakeDamageEvent>,
)
    requires
        spec_healths_wf(s),
    ensures
        spec_healths_wf(spec_apply_damages(s, deaths, evs).0),
    decreases evs.len(),
{
    if evs.len() > 0 {
        let r = spec_apply_damage(s, deaths, evs[0]);
        assert(spec_healths_wf(r.0)) by {
            crate::world::lemma_index_of(s, evs[0].id);
            let i = spec_index_of(s, evs[0].id);
            if i >= 0 && s[i].health is Some && (s[i].health->0).current_health > 0 {
                assert forall|k: int|
                    0 <= k < r.0.len() implies ((#[trigger] r.0[k]).health is Some ==> (
                r.0[k].health->0).wf()) by {
                    if k != i {
                        assert(r.0[k] == s[k]);
                    }
                }
            }
        }
        lemma_damages_preserve_wf(r.0, r.1, evs.drop_first());
    }
}

/// Health bounds: whatever heal and damage events a tick brings, every
/// health record stays within [0, max_health] — after the heal phase and
/// after the damage phase.
pub proof fn lemma_health_bounds(
    s: Seq<EntityRecord>,
    heals: Seq<HealEvent>,
    damages: Seq<TakeDamageEvent>,
)
    requires
        spec_healths_wf(s),
    ensures
        spec_healths_wf(spec_apply_heals(s, heals)),
        spec_healths_wf(
            spec_apply_damages(spec_apply_heals(s, heals), Seq::empty(), damages).0,
        ),
{
    lemma_heals_preserve_wf(s, heals);
    lemma_damages_preserve_wf(spec_apply_heals(s, heals), Seq::empty(), damages);
}

/// Replacing a record by one with the same id moves no lookup.
proof fn lemma_index_of_update(s: Seq<EntityRecord>, i: int, r: EntityRecord, id: u64)
    requires
        0 <= i < s.len(),
        r.id == s[i].id,
    ensures
        spec_index_of(s.update(i, r), id) == spec_index_of(s, id),
    decreases s.len(),
{
    let s2 = s.update(i, r);
    if i == 0 {
        assert(s2[0].id == s[0].id);
        if s[0].id != id {
            assert(s2.drop_first() =~= s.drop_first());
        }
    } else {
        assert(s2[0] == s[0]);
        if s[0].id != id {
            assert(s2.drop_first() =~= s.drop_first().update(i - 1, r));
            lemma_index_of_update(s.drop_first(), i - 1, r, id);
        }
    }
}

/// The entity a death names is at zero health, and a dead entity is
/// touched by no further damage: the death list never repeats an id, and
/// an entity already at zero gains no new death.
proof fn lemma_damages_deaths_inv(
    s: Seq<EntityRecord>,
    deaths: Seq<u64>,
    evs: Seq<TakeDamageEvent>,
)
    requires
        deaths.no_duplicates(),
        forall|id: u64|
            #![trigger deaths.contains(id)]
            deaths.contains(id) ==> {
                let i = spec_index_of(s, id);
                i >= 0 ==> (s[i].health is Some ==> (s[i].health->0).current_health == 0)
            },
    ensures
        spec_apply_damages(s, deaths, evs).1.no_duplicates(),
        forall|id: u64|
            #![trigger spec_apply_damages(s, deaths, evs).1.contains(id)]
            {
                let i = spec_index_of(s, id);
                (i >= 0 && s[i].health is Some && (s[i].health->0).current_health == 0
                    && !deaths.contains(id)) ==> !spec_apply_damages(s, deaths, evs).1.contains(id)
            },
    decreases evs.len(),
{
    if evs.len() == 0 {
    } else {
        let ev = evs[0];
        let i = spec_index_of(s, ev.id);
        let r = spec_apply_damage(s, deaths, ev);
        crate::world::lemma_index_of(s, ev.id);
        if i >= 0 && s[i].health is Some && (s[i].health->0).current_health > 0 {
            let h = (s[i].health->0).spec_take_damage(ev.amount as int);
            let rec = EntityRecord { health: Some(h), ..s[i] };
            let s2 = s.update(i, rec);
            assert forall|id: u64| #![trigger spec_index_of(s2, id)] true implies spec_index_of(
                s2,
                id,
            ) == spec_index_of(s, id) by {
                lemma_index_of_update(s, i, rec, id);
            }
            if h.current_health == 0 {
                // a dead id cannot be hit again: it is not yet in the list
                assert(!deaths.contains(ev.id));
                assert(r.1 == deaths.push(ev.id));
                assert(r.1.no_duplicates()) by {
                    assert forall|a: int, b: int|
                        0 <= a < b < r.1.len() implies r.1[a] != r.1[b] by {
                        if b < deaths.len() {
                            assert(r.1[a] == deaths[a] && r.1[b] == deaths[b]);
                        } else {
                            assert(r.1[b] == ev.id);
                            assert(r.1[a] == deaths[a]);
                            assert(deaths.contains(deaths[a]));
                        }
                    }
                }
                assert forall|id: u64|
                    #![trigger r.1.contains(id)]
                    r.1.contains(id) implies {
                    let k = spec_index_of(s2, id);
                    k >= 0 ==> (s2[k].health is Some ==> (s2[k].health->0).current_health == 0)
                } by {
                    let d = choose|d: int| 0 <= d < r.1.len() && r.1[d] == id;
                    lemma_index_of_update(s, i, rec, id);
                    crate::world::lemma_index_of(s, id);
                    if d < deaths.len() {
                        assert(deaths.contains(id));
                        let k = spec_index_of(s2, id);
                        if k >= 0 && k != i {
                            assert(s2[k] == s[k]);
                        }
                    } else {
                        assert(id == ev.id);
                        crate::world::lemma_index_of(s, ev.id);
                        assert(s2[i] == rec);
                    }
                }
                lemma_damages_deaths_inv(s2, r.1, evs.drop_first());
            } else {
                assert(r.1 == deaths);
                assert forall|id: u64|
                    #![trigger deaths.contains(id)]
                    deaths.contains(id) implies {
                    let k = spec_index_of(s2, id);
                    k >= 0 ==> (s2[k].health is Some ==> (s2[k].health->0).current_health == 0)
                } by {
                    lemma_index_of_update(s, i, rec, id);
                    crate::world::lemma_index_of(s, id);
                    let k = spec_index_of(s2, id);
                    if k >= 0 {
                        if k == i {
                            assert(s[i].id == ev.id);
                            // a listed dead id cannot be the entity this branch just damaged
                            assert((s[i].health->0).current_health == 0);
                        } else {
                            assert(s2[k] == s[k]);
                        }
                    }
                }
                lemma_damages_deaths_inv(s2, deaths, evs.drop_first());
            }
            assert(spec_apply_damages(s, deaths, evs) == spec_apply_damages(
                s2,
                r.1,
                evs.drop_first(),
            ));
            assert forall|id: u64|
                #![trigger spec_apply_damages(s, deaths, evs).1.contains(id)]
                {
                    let k = spec_index_of(s, id);
                    (k >= 0 && s[k].health is Some && (s[k].health->0).current_health == 0
                        && !deaths.contains(id))
                } implies !spec_apply_damages(s, deaths, evs).1.contains(id) by {
                lemma_index_of_update(s, i, rec, id);
                crate::world::lemma_index_of(s, id);
                let k = spec_index_of(s, id);
                assert(spec_index_of(s2, id) == k);
                assert(k != i);
                assert(s2[k] == s[k]);
                if h.current_health == 0 {
                    assert(id != ev.id) by {
                        crate::world::lemma_index_of(s, id);
                    }
                    assert(!r.1.contains(id)) by {
                        if r.1.contains(id) {
                            let d = choose|d: int| 0 <= d < r.1.len() && r.1[d] == id;
                            assert(d < deaths.len());
                            assert(deaths.contains(id));
                        }
                    }
                }
            }
        } else {
            lemma_damages_deaths_inv(s, deaths, evs.drop_first());
        }
    }
}

/// Death uniqueness: over the damage events of one tick, an entity is
/// reported dead at most once, and an entity whose health was already zero
/// when the tick began is not reported at all.
pub proof fn lemma_death_uniqueness(s: Seq<EntityRecord>, damages: Seq<TakeDamageEvent>)
    ensures
        spec_apply_damages(s, Seq::empty(), damages).1.no_duplicates(),
        forall|id: u64|
            #![trigger spec_apply_damages(s, Seq::<u64>::empty(), damages).1.contains(id)]
            {
                let i = spec_index_of(s, id);
                (i >= 0 && s[i].health is Some && (s[i].health->0).current_health == 0)
                    ==> !spec_apply_damages(s, Seq::<u64>::empty(), damages).1.contains(id)
            },
{
    assert(Seq::<u64>::empty().no_duplicates());
    lemma_damages_deaths_inv(s, Seq::empty(), damages);
}

} // verus!

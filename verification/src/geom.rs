//! Integer 2D geometry: world bounds, the velocity/position model, and the
//! broad-phase grid ("zone") coordinates.

use vstd::prelude::*;
use vstd::arithmetic::div_mod::{
    lemma_div_is_ordered, lemma_div_multiples_vanish, lemma_fundamental_div_mod,
    lemma_mod_division_less_than_divisor,
};

verus! {

/// Width of the play area in world units.
pub const WINDOW_WIDTH: i64 = 1000;

/// Height of the play area in world units.
pub const WINDOW_HEIGHT: i64 = 600;

/// Side length of one broad-phase grid cell. It must not be smaller than
/// any hitbox extent the world accepts, so that an overlapping pair is
/// never more than one cell apart on either axis.
pub const ZONE_SIZE: i64 = 100;

/// Number of grid columns: WINDOW_WIDTH / ZONE_SIZE + 1.
pub const ZONES_HORIZONTALLY: usize = 11;

/// Number of grid rows: WINDOW_HEIGHT / ZONE_SIZE + 1.
pub const ZONES_VERTICALLY: usize = 7;

/// Velocity accumulators stay within this bound on each axis
/// (world units per second).
pub const VEL_LIMIT: i64 = 1_000_000_000;

/// Positions handed to the mover must be within this bound on each axis.
pub const POS_LIMIT: i64 = 1_000_000_000_000_000;

/// Longest tick accepted by the mover, in milliseconds.
pub const DT_LIMIT: u64 = 1_000_000;

/// Farthest an entity can move on one axis in one tick:
/// VEL_LIMIT * DT_LIMIT / 1000.
pub const MAX_STEP: i64 = 1_000_000_000_000;

/// A 2D point or vector in integer world units.
#[derive(Clone, Copy, PartialEq, Eq, Structural, Debug)]
pub struct Vec2i {
    pub x: i64,
    pub y: i64,
}

impl Vec2i {
    /// Both components lie in [-bound, bound].
    pub open spec fn within(self, bound: int) -> bool {
        &&& -bound <= self.x <= bound
        &&& -bound <= self.y <= bound
    }

    pub fn new(x: i64, y: i64) -> (r: Vec2i)
        ensures
            r == (Vec2i { x, y }),
    {
        Vec2i { x, y }
    }

    pub fn zero() -> (r: Vec2i)
        ensures
            r == (Vec2i { x: 0, y: 0 }),
    {
        Vec2i { x: 0, y: 0 }
    }
}

/// Displacement on one axis after `dt` milliseconds at velocity `v` world
/// units per second, truncated toward zero.
pub open spec fn spec_axis_step(v: int, dt: int) -> int {
    if v >= 0 {
        (v * dt) / 1000
    } else {
        -(((-v) * dt) / 1000)
    }
}

/// Projected position on one axis: where the entity will be after `dt`
/// milliseconds at velocity `v`.
pub open spec fn spec_projected(p: int, v: int, dt: int) -> int {
    p + spec_axis_step(v, dt)
}

proof fn lemma_axis_step_bound(m: int, dt: int)
    requires
        0 <= m <= VEL_LIMIT,
        0 <= dt <= DT_LIMIT,
    ensures
        0 <= m * dt <= 1_000_000_000_000_000,
        0 <= (m * dt) / 1000 <= MAX_STEP,
{
    assert(m * dt <= 1_000_000_000_000_000) by (nonlinear_arith)
        requires
            0 <= m <= 1_000_000_000,
            0 <= dt <= 1_000_000,
    ;
    assert(m * dt >= 0) by (nonlinear_arith)
        requires
            0 <= m,
            0 <= dt,
    ;
    lemma_div_is_ordered(0, m * dt, 1000);
    lemma_div_is_ordered(m * dt, 1_000_000_000_000_000, 1000);
    lemma_div_multiples_vanish(1_000_000_000_000, 1000);
    assert(1000 * 1_000_000_000_000int == 1_000_000_000_000_000int) by (nonlinear_arith);
}

/// Displacement on one axis over one tick.
pub fn axis_step(v: i64, dt: u64) -> (r: i64)
    requires
        -VEL_LIMIT <= v <= VEL_LIMIT,
        dt <= DT_LIMIT,
    ensures
        r == spec_axis_step(v as int, dt as int),
        -MAX_STEP <= r <= MAX_STEP,
{
    let mag: u64 = if v >= 0 {
        v as u64
    } else {
        (-v) as u64
    };
    proof {
        lemma_axis_step_bound(mag as int, dt as int);
    }
    let scaled: u64 = (mag * dt) / 1000;
    if v >= 0 {
        scaled as i64
    } else {
        -(scaled as i64)
    }
}

/// Grid index of a world coordinate on one axis: the play area is shifted
/// by `half` so that cell 0 starts at -half, split into cells of
/// ZONE_SIZE, and clamped to [0, max_zone].
pub open spec fn spec_zone_index(p: int, half: int, max_zone: int) -> int {
    if p < -half {
        0
    } else if (p + half) / (ZONE_SIZE as int) > max_zone {
        max_zone
    } else {
        (p + half) / (ZONE_SIZE as int)
    }
}

/// Grid column of an x coordinate.
pub open spec fn spec_zone_x(p: int) -> int {
    spec_zone_index(p, (WINDOW_WIDTH as int) / 2, ZONES_HORIZONTALLY as int - 1)
}

/// Grid row of a y coordinate.
pub open spec fn spec_zone_y(p: int) -> int {
    spec_zone_index(p, (WINDOW_HEIGHT as int) / 2, ZONES_VERTICALLY as int - 1)
}

/// Grid index of a world coordinate on one axis.
pub fn zone_index(p: i64, half: i64, max_zone: usize) -> (r: usize)
    requires
        0 < half <= 1000,
        0 < max_zone <= 1000,
    ensures
        r == spec_zone_index(p as int, half as int, max_zone as int),
        r <= max_zone,
{
    if p < -half {
        0
    } else if p >= ZONE_SIZE * (max_zone as i64) {
        proof {
            lemma_div_is_ordered(
                100 * (max_zone as int),
                p + half,
                100,
            );
            lemma_div_multiples_vanish(max_zone as int, 100);
        }
        max_zone
    } else {
        let t: u64 = ((p + half) as u64) / (ZONE_SIZE as u64);
        proof {
            lemma_div_is_ordered(p + half, 100 * (max_zone as int) + 1000, 100);
            lemma_div_multiples_vanish(max_zone as int + 10, 100);
        }
        let ti: usize = t as usize;
        if ti > max_zone {
            max_zone
        } else {
            ti
        }
    }
}

/// Grid column of an x coordinate.
pub fn zone_x(p: i64) -> (r: usize)
    ensures
        r == spec_zone_x(p as int),
        r < ZONES_HORIZONTALLY,
{
    zone_index(p, WINDOW_WIDTH / 2, ZONES_HORIZONTALLY - 1)
}

/// Grid row of a y coordinate.
pub fn zone_y(p: i64) -> (r: usize)
    ensures
        r == spec_zone_y(p as int),
        r < ZONES_VERTICALLY,
{
    zone_index(p, WINDOW_HEIGHT / 2, ZONES_VERTICALLY - 1)
}

/// A zone index is always within [0, max_zone].
pub proof fn lemma_zone_index_range(p: int, half: int, max_zone: int)
    requires
        0 < half,
        0 < max_zone,
    ensures
        0 <= spec_zone_index(p, half, max_zone) <= max_zone,
{
    if p >= -half {
        vstd::arithmetic::div_mod::lemma_div_pos_is_pos(p + half, 100);
    }
}

/// Quotients by ZONE_SIZE of two coordinates less than ZONE_SIZE apart
/// differ by at most one.
proof fn lemma_div_zone_close(t1: int, t2: int)
    requires
        0 <= t1,
        t1 <= t2,
        t2 - t1 < 100,
    ensures
        t1 / 100 <= t2 / 100 <= t1 / 100 + 1,
{
    lemma_fundamental_div_mod(t1, 100);
    lemma_fundamental_div_mod(t2, 100);
    lemma_mod_division_less_than_divisor(t1, 100);
    lemma_mod_division_less_than_divisor(t2, 100);
    lemma_div_is_ordered(t1, t2, 100);
}

/// Two coordinates less than ZONE_SIZE apart land in the same or in
/// adjacent grid cells, clamping included.
pub proof fn lemma_zone_index_close(p1: int, p2: int, half: int, max_zone: int)
    requires
        0 < half,
        0 < max_zone,
        -(ZONE_SIZE as int) < p1 - p2 < ZONE_SIZE as int,
    ensures
        -1 <= spec_zone_index(p1, half, max_zone) - spec_zone_index(p2, half, max_zone) <= 1,
{
    if p1 <= p2 {
        lemma_zone_index_close_ordered(p1, p2, half, max_zone);
    } else {
        lemma_zone_index_close_ordered(p2, p1, half, max_zone);
    }
}

proof fn lemma_zone_index_close_ordered(p1: int, p2: int, half: int, max_zone: int)
    requires
        0 < half,
        0 < max_zone,
        p1 <= p2,
        p2 - p1 < ZONE_SIZE as int,
    ensures
        spec_zone_index(p1, half, max_zone) <= spec_zone_index(p2, half, max_zone)
            <= spec_zone_index(p1, half, max_zone) + 1,
{
    if p2 < -half {
        // both clamp to 0
    } else if p1 < -half {
        // p2 is in the first cell: 0 <= p2 + half < 100
        lemma_div_zone_close(0, p2 + half);
        vstd::arithmetic::div_mod::lemma_div_of0(100);
    } else {
        lemma_div_zone_close(p1 + half, p2 + half);
        lemma_div_is_ordered(0, p1 + half, 100);
        vstd::arithmetic::div_mod::lemma_div_of0(100);
    }
}

} // verus!

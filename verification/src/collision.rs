//! The mover: broad-phase grid, narrow-phase overlap tests, collision
//! events, blocking, and position integration — one pass per tick.
//!
//! Entities are bucketed by their *projected* next position into grid
//! cells of ZONE_SIZE. Each unordered pair of non-floor entities in the
//! same cell, or in a cell and its right / down / down-right neighbour, is
//! examined once. A pair whose kinds are not mutually ignored and whose
//! projected rectangles overlap is detected: exactly two directional
//! collision events are recorded, and — unless the pair's kinds allow
//! passing through — both entities are blocked and keep their position
//! for this tick. Every other non-floor entity moves to its projected
//! position.

use vstd::prelude::*;
use vstd::arithmetic::div_mod::{
    lemma_div_is_ordered, lemma_fundamental_div_mod, lemma_fundamental_div_mod_converse,
    lemma_mod_division_less_than_divisor,
};
use crate::geom::{
    spec_projected, spec_zone_x, spec_zone_y, zone_x, zone_y, Vec2i, DT_LIMIT, MAX_STEP, POS_LIMIT,
    ZONES_HORIZONTALLY, ZONES_VERTICALLY, ZONE_SIZE,
};
use crate::hitbox::{spec_intervals_overlap, Hitbox};
use crate::move_system::{
    spec_allow_overlap, spec_ignore_collision, CollisionEvent, MoveObjectType,
};
use crate::world::{EntityRecord, World};
use crate::geom::axis_step;

verus! {

/// Total number of broad-phase grid cells.
pub const NUM_ZONES: usize = 77;

/// Projected next x coordinate of a record: current position plus
/// velocity x dt, or the current position for an entity with no velocity
/// accumulator.
pub open spec fn spec_proj_x(e: EntityRecord, dt: int) -> int {
    match e.velocity {
        Some(v) => spec_projected(e.position.x as int, v.0.x as int, dt),
        None => e.position.x as int,
    }
}

/// Projected next y coordinate of a record.
pub open spec fn spec_proj_y(e: EntityRecord, dt: int) -> int {
    match e.velocity {
        Some(v) => spec_projected(e.position.y as int, v.0.y as int, dt),
        None => e.position.y as int,
    }
}

/// Grid cell of a record's projected position.
pub open spec fn spec_zone_of(e: EntityRecord, dt: int) -> (int, int) {
    (spec_zone_x(spec_proj_x(e, dt)), spec_zone_y(spec_proj_y(e, dt)))
}

/// Entity `i` is bucketed into cell `(x, y)` this tick: it is not a floor
/// tile (floor never collides and is left out of the grid) and its
/// projected position falls in that cell.
pub open spec fn spec_in_cell(s: Seq<EntityRecord>, dt: int, i: int, x: int, y: int) -> bool {
    &&& 0 <= i < s.len()
    &&& s[i].object_type != MoveObjectType::Floor
    &&& spec_zone_of(s[i], dt) == (x, y)
}

/// The broad phase compares cells `a` and `b`: the same cell, or one is
/// the right, down, or down-right neighbour of the other. Each unordered
/// cell pair is walked from its lexicographically smaller cell only.
pub open spec fn spec_zones_visited(a: (int, int), b: (int, int)) -> bool {
    ||| b == a
    ||| b == (a.0 + 1, a.1)
    ||| b == (a.0, a.1 + 1)
    ||| b == (a.0 + 1, a.1 + 1)
    ||| a == (b.0 + 1, b.1)
    ||| a == (b.0, b.1 + 1)
    ||| a == (b.0 + 1, b.1 + 1)
}

/// Indices `i` and `j` name two distinct non-floor entities whose
/// projected rectangles the broad phase compares this tick.
pub open spec fn spec_pair_examined(s: Seq<EntityRecord>, dt: int, i: int, j: int) -> bool {
    &&& 0 <= i < s.len() && 0 <= j < s.len() && i != j
    &&& s[i].object_type != MoveObjectType::Floor
    &&& s[j].object_type != MoveObjectType::Floor
    &&& spec_zones_visited(spec_zone_of(s[i], dt), spec_zone_of(s[j], dt))
}

/// The projected rectangles of entities `i` and `j` overlap.
pub open spec fn spec_overlap_at(s: Seq<EntityRecord>, dt: int, i: int, j: int) -> bool {
    &&& spec_intervals_overlap(
        spec_proj_x(s[i], dt),
        s[i].hitbox.extent().x as int,
        spec_proj_x(s[j], dt),
        s[j].hitbox.extent().x as int,
    )
    &&& spec_intervals_overlap(
        spec_proj_y(s[i], dt),
        s[i].hitbox.extent().y as int,
        spec_proj_y(s[j], dt),
        s[j].hitbox.extent().y as int,
    )
}

/// A detected collision: an examined pair whose kinds are not mutually
/// ignored and whose projected rectangles overlap.
pub open spec fn spec_detected(s: Seq<EntityRecord>, dt: int, i: int, j: int) -> bool {
    &&& spec_pair_examined(s, dt, i, j)
    &&& !spec_ignore_collision(s[i].object_type, s[j].object_type)
    &&& spec_overlap_at(s, dt, i, j)
}

/// Entity `i` is blocked this tick: it is in some detected collision
/// whose kinds do not allow passing through.
pub open spec fn spec_blocked(s: Seq<EntityRecord>, dt: int, i: int) -> bool {
    exists|j: int|
        spec_detected(s, dt, i, j) && !spec_allow_overlap(s[i].object_type, s[j].object_type)
}

/// The collision event reported about entity `j` from entity `i`'s point
/// of view.
pub open spec fn spec_event_of(s: Seq<EntityRecord>, i: int, j: int) -> CollisionEvent {
    CollisionEvent {
        object_id: s[i].id,
        object_type: s[i].object_type,
        collided_with_id: s[j].id,
        collided_with_type: s[j].object_type,
    }
}

/// Where entity `i` stands after the tick: held at its current position
/// if it is a floor tile or blocked, else moved to its projection.
pub open spec fn spec_moved_position(s: Seq<EntityRecord>, dt: int, i: int) -> Vec2i {
    if s[i].object_type == MoveObjectType::Floor || spec_blocked(s, dt, i) {
        s[i].position
    } else {
        Vec2i { x: spec_proj_x(s[i], dt) as i64, y: spec_proj_y(s[i], dt) as i64 }
    }
}

/// Every position in the store is within POS_LIMIT on both axes, which
/// keeps one tick of movement within i64 range.
pub open spec fn spec_positions_bounded(s: Seq<EntityRecord>) -> bool {
    forall|i: int|
        0 <= i < s.len() ==> (#[trigger] s[i]).position.within(POS_LIMIT as int)
}

/// Projected positions of all entities, in store order.
fn project_positions(entities: &Vec<EntityRecord>, dt: u64) -> (proj: Vec<Vec2i>)
    requires
        dt <= DT_LIMIT,
        spec_positions_bounded(entities@),
        forall|i: int| 0 <= i < entities@.len() ==> (#[trigger] entities@[i]).wf(),
    ensures
        proj@.len() == entities@.len(),
        forall|i: int|
            0 <= i < entities@.len() ==> {
                &&& (#[trigger] proj@[i]).x == spec_proj_x(entities@[i], dt as int)
                &&& proj@[i].y == spec_proj_y(entities@[i], dt as int)
                &&& proj@[i].within(POS_LIMIT as int + MAX_STEP as int)
            },
{
    let n = entities.len();
    let mut proj: Vec<Vec2i> = Vec::new();
    for i in 0..n
        invariant
            dt <= DT_LIMIT,
            n == entities@.len(),
            spec_positions_bounded(entities@),
            forall|k: int| 0 <= k < entities@.len() ==> (#[trigger] entities@[k]).wf(),
            proj@.len() == i,
            forall|k: int|
                0 <= k < i ==> {
                    &&& (#[trigger] proj@[k]).x == spec_proj_x(entities@[k], dt as int)
                    &&& proj@[k].y == spec_proj_y(entities@[k], dt as int)
                    &&& proj@[k].within(POS_LIMIT as int + MAX_STEP as int)
                },
    {
        let e = entities[i];
        let p = match e.velocity {
            Some(v) => Vec2i { x: e.position.x + axis_step(v.0.x, dt), y: e.position.y + axis_step(
                v.0.y,
                dt,
            ) },
            None => e.position,
        };
        proj.push(p);
    }
    proj
}

/// Linear index of grid cell `(x, y)`.
pub open spec fn spec_cell_index(x: int, y: int) -> int {
    x * (ZONES_VERTICALLY as int) + y
}

/// One grid cell holds exactly the non-floor entities projected into it,
/// as a strictly increasing sequence of store indices.
pub open spec fn spec_cell_wf(
    s: Seq<EntityRecord>,
    dt: int,
    cell: Seq<usize>,
    x: int,
    y: int,
) -> bool {
    &&& forall|k: int| 0 <= k < cell.len() ==> spec_in_cell(s, dt, #[trigger] cell[k] as int, x, y)
    &&& forall|k1: int, k2: int| 0 <= k1 < k2 < cell.len() ==> cell[k1] < cell[k2]
    &&& forall|i: int|
        spec_in_cell(s, dt, i, x, y) ==> exists|k: int| 0 <= k < cell.len() && #[trigger] cell[k] == i
}

/// The whole grid is well-formed.
pub open spec fn spec_grid_wf(s: Seq<EntityRecord>, dt: int, grid: Seq<Vec<usize>>) -> bool {
    &&& grid.len() == NUM_ZONES
    &&& forall|x: int, y: int|
        0 <= x < ZONES_HORIZONTALLY && 0 <= y < ZONES_VERTICALLY ==> spec_cell_wf(
            s,
            dt,
            (#[trigger] grid[spec_cell_index(x, y)])@,
            x,
            y,
        )
}

/// The grid is correct for the first `m` entities: each cell holds, in
/// strictly increasing order, exactly those of the first `m` entities that
/// belong to it.
pub open spec fn spec_grid_partial(
    s: Seq<EntityRecord>,
    dt: int,
    grid: Seq<Vec<usize>>,
    m: int,
) -> bool {
    &&& grid.len() == NUM_ZONES
    &&& forall|x: int, y: int, k: int|
        #![trigger grid[spec_cell_index(x, y)]@[k]]
        0 <= x < ZONES_HORIZONTALLY && 0 <= y < ZONES_VERTICALLY && 0 <= k < grid[spec_cell_index(
            x,
            y,
        )]@.len() ==> {
            &&& spec_in_cell(s, dt, grid[spec_cell_index(x, y)]@[k] as int, x, y)
            &&& grid[spec_cell_index(x, y)]@[k] < m
        }
    &&& forall|x: int, y: int, k1: int, k2: int|
        #![trigger grid[spec_cell_index(x, y)]@[k1], grid[spec_cell_index(x, y)]@[k2]]
        0 <= x < ZONES_HORIZONTALLY && 0 <= y < ZONES_VERTICALLY && 0 <= k1 < k2 < grid[spec_cell_index(
            x,
            y,
        )]@.len() ==> grid[spec_cell_index(x, y)]@[k1] < grid[spec_cell_index(x, y)]@[k2]
    &&& forall|x: int, y: int, e: int|
        #![trigger spec_in_cell(s, dt, e, x, y)]
        0 <= x < ZONES_HORIZONTALLY && 0 <= y < ZONES_VERTICALLY && 0 <= e < m && spec_in_cell(
            s,
            dt,
            e,
            x,
            y,
        ) ==> grid[spec_cell_index(x, y)]@.contains(e as usize)
}

/// Within the grid's bounds, the linear cell index determines the cell.
proof fn lemma_cell_index_injective(x1: int, y1: int, x2: int, y2: int)
    requires
        0 <= y1 < ZONES_VERTICALLY,
        0 <= y2 < ZONES_VERTICALLY,
        spec_cell_index(x1, y1) == spec_cell_index(x2, y2),
    ensures
        x1 == x2 && y1 == y2,
{
    assert((x1 - x2) * 7 == y2 - y1) by (nonlinear_arith)
        requires
            x1 * 7 + y1 == x2 * 7 + y2,
    ;
    if x1 > x2 {
        assert((x1 - x2) * 7 >= 7) by (nonlinear_arith)
            requires
                x1 - x2 >= 1,
        ;
    }
    if x1 < x2 {
        assert((x1 - x2) * 7 <= -7) by (nonlinear_arith)
            requires
                x1 - x2 <= -1,
        ;
    }
}

/// A floor entity is skipped: the grid stays correct one entity further.
proof fn lemma_grid_partial_skip(s: Seq<EntityRecord>, dt: int, grid: Seq<Vec<usize>>, m: int)
    requires
        spec_grid_partial(s, dt, grid, m),
        0 <= m < s.len(),
        s[m].object_type == MoveObjectType::Floor,
    ensures
        spec_grid_partial(s, dt, grid, m + 1),
{
    assert forall|x: int, y: int, e: int|
        #![trigger spec_in_cell(s, dt, e, x, y)]
        0 <= x < ZONES_HORIZONTALLY && 0 <= y < ZONES_VERTICALLY && 0 <= e < m + 1 && spec_in_cell(
            s,
            dt,
            e,
            x,
            y,
        ) implies grid[spec_cell_index(x, y)]@.contains(e as usize) by {
        assert(e != m);
    }
}

/// Appending entity `m` to its own cell keeps the grid correct one entity
/// further.
proof fn lemma_grid_partial_insert(
    s: Seq<EntityRecord>,
    dt: int,
    grid: Seq<Vec<usize>>,
    m: int,
    zx: int,
    zy: int,
    newcell: Vec<usize>,
)
    requires
        spec_grid_partial(s, dt, grid, m),
        0 <= m < s.len(),
        m < usize::MAX,
        spec_in_cell(s, dt, m, zx, zy),
        0 <= zx < ZONES_HORIZONTALLY,
        0 <= zy < ZONES_VERTICALLY,
        newcell@ == grid[spec_cell_index(zx, zy)]@.push(m as usize),
    ensures
        spec_grid_partial(s, dt, grid.update(spec_cell_index(zx, zy), newcell), m + 1),
{
    let ci = spec_cell_index(zx, zy);
    let g2 = grid.update(ci, newcell);
    let oldcell = grid[ci]@;
    assert forall|x: int, y: int, k: int|
        #![trigger g2[spec_cell_index(x, y)]@[k]]
        0 <= x < ZONES_HORIZONTALLY && 0 <= y < ZONES_VERTICALLY && 0 <= k < g2[spec_cell_index(
            x,
            y,
        )]@.len() implies spec_in_cell(s, dt, g2[spec_cell_index(x, y)]@[k] as int, x, y)
        && g2[spec_cell_index(x, y)]@[k] < m + 1 by {
        let cidx = spec_cell_index(x, y);
        if cidx == ci {
            lemma_cell_index_injective(x, y, zx, zy);
            if k < oldcell.len() {
                assert(g2[cidx]@[k] == oldcell[k]);
                assert(grid[cidx]@[k] == oldcell[k]);
            } else {
                assert(g2[cidx]@[k] == m as usize);
            }
        } else {
            assert(g2[cidx] == grid[cidx]);
        }
    }
    assert forall|x: int, y: int, k1: int, k2: int|
        #![trigger g2[spec_cell_index(x, y)]@[k1], g2[spec_cell_index(x, y)]@[k2]]
        0 <= x < ZONES_HORIZONTALLY && 0 <= y < ZONES_VERTICALLY && 0 <= k1 < k2 < g2[spec_cell_index(
            x,
            y,
        )]@.len() implies g2[spec_cell_index(x, y)]@[k1] < g2[spec_cell_index(x, y)]@[k2] by {
        let cidx = spec_cell_index(x, y);
        if cidx == ci {
            lemma_cell_index_injective(x, y, zx, zy);
            assert(g2[cidx]@[k1] == oldcell[k1]);
            assert(grid[cidx]@[k1] == oldcell[k1]);
            if k2 < oldcell.len() {
                assert(g2[cidx]@[k2] == oldcell[k2]);
                assert(grid[cidx]@[k2] == oldcell[k2]);
            } else {
                assert(g2[cidx]@[k2] == m as usize);
                assert(oldcell[k1] < m);
            }
        } else {
            assert(g2[cidx] == grid[cidx]);
        }
    }
    assert forall|x: int, y: int, e: int|
        #![trigger spec_in_cell(s, dt, e, x, y)]
        0 <= x < ZONES_HORIZONTALLY && 0 <= y < ZONES_VERTICALLY && 0 <= e < m + 1 && spec_in_cell(
            s,
            dt,
            e,
            x,
            y,
        ) implies g2[spec_cell_index(x, y)]@.contains(e as usize) by {
        let cidx = spec_cell_index(x, y);
        if e == m {
            assert(spec_zone_of(s[e], dt) == (x, y));
            assert(x == zx && y == zy);
            assert(g2[cidx]@[g2[cidx]@.len() - 1] == m as usize);
        } else {
            assert(grid[cidx]@.contains(e as usize));
            let k = choose|k: int| 0 <= k < grid[cidx]@.len() && grid[cidx]@[k] == e as usize;
            if cidx == ci {
                assert(g2[cidx]@[k] == e as usize);
            } else {
                assert(g2[cidx] == grid[cidx]);
            }
        }
    }
}

/// A grid correct for every entity is well-formed.
proof fn lemma_grid_partial_wf(s: Seq<EntityRecord>, dt: int, grid: Seq<Vec<usize>>)
    requires
        s.len() <= usize::MAX,
        spec_grid_partial(s, dt, grid, s.len() as int),
    ensures
        spec_grid_wf(s, dt, grid),
{
    assert forall|x: int, y: int|
        0 <= x < ZONES_HORIZONTALLY && 0 <= y < ZONES_VERTICALLY implies spec_cell_wf(
        s,
        dt,
        (grid[spec_cell_index(x, y)])@,
        x,
        y,
    ) by {
        let cell = grid[spec_cell_index(x, y)]@;
        assert forall|k: int| 0 <= k < cell.len() implies spec_in_cell(
            s,
            dt,
            #[trigger] cell[k] as int,
            x,
            y,
        ) by {
            assert(spec_in_cell(s, dt, grid[spec_cell_index(x, y)]@[k] as int, x, y));
        }
        assert forall|k1: int, k2: int| 0 <= k1 < k2 < cell.len() implies cell[k1] < cell[k2] by {
            assert(grid[spec_cell_index(x, y)]@[k1] < grid[spec_cell_index(x, y)]@[k2]);
        }
        assert forall|i: int| spec_in_cell(s, dt, i, x, y) implies exists|k: int|
            0 <= k < cell.len() && #[trigger] cell[k] == i by {
            assert(cell.contains(i as usize));
            let k = choose|k: int| 0 <= k < cell.len() && cell[k] == i as usize;
            assert(cell[k] == i);
        }
    }
}

/// Bucket every non-floor entity into the grid cell of its projected
/// position.
fn build_grid(entities: &Vec<EntityRecord>, proj: &Vec<Vec2i>, dt: u64) -> (grid: Vec<Vec<usize>>)
    requires
        proj@.len() == entities@.len(),
        forall|i: int|
            0 <= i < entities@.len() ==> {
                &&& (#[trigger] proj@[i]).x == spec_proj_x(entities@[i], dt as int)
                &&& proj@[i].y == spec_proj_y(entities@[i], dt as int)
            },
    ensures
        spec_grid_wf(entities@, dt as int, grid@),
{
    let mut grid: Vec<Vec<usize>> = Vec::new();
    for c in 0..NUM_ZONES
        invariant
            grid@.len() == c,
            forall|k: int| 0 <= k < c ==> (#[trigger] grid@[k])@.len() == 0,
    {
        grid.push(Vec::new());
    }
    let n = entities.len();
    for i in 0..n
        invariant
            n == entities@.len(),
            proj@.len() == entities@.len(),
            forall|k: int|
                0 <= k < entities@.len() ==> {
                    &&& (#[trigger] proj@[k]).x == spec_proj_x(entities@[k], dt as int)
                    &&& proj@[k].y == spec_proj_y(entities@[k], dt as int)
                },
            spec_grid_partial(entities@, dt as int, grid@, i as int),
    {
        let e = entities[i];
        if matches!(e.object_type, MoveObjectType::Floor) {
            proof {
                lemma_grid_partial_skip(entities@, dt as int, grid@, i as int);
            }
        } else {
            let zx = zone_x(proj[i].x);
            let zy = zone_y(proj[i].y);
            let ci = zx * ZONES_VERTICALLY + zy;
            proof {
                assert(spec_zone_of(entities@[i as int], dt as int) == (zx as int, zy as int));
                assert(spec_in_cell(entities@, dt as int, i as int, zx as int, zy as int));
                assert(ci == spec_cell_index(zx as int, zy as int));
            }
            let ghost old_grid = grid@;
            grid[ci].push(i);
            proof {
                lemma_grid_partial_insert(
                    entities@,
                    dt as int,
                    old_grid,
                    i as int,
                    zx as int,
                    zy as int,
                    grid@[ci as int],
                );
                assert(grid@ =~= old_grid.update(ci as int, grid@[ci as int]));
            }
        }
    }
    proof {
        lemma_grid_partial_wf(entities@, dt as int, grid@);
    }
    grid
}

/// Strict lexicographic order on grid cells: column first, then row.
pub open spec fn spec_cell_lt(a: (int, int), b: (int, int)) -> bool {
    a.0 < b.0 || (a.0 == b.0 && a.1 < b.1)
}

/// The cell responsible for enumerating an examined pair: the
/// lexicographically smaller of the two entities' cells.
pub open spec fn spec_resp(s: Seq<EntityRecord>, dt: int, i: int, j: int) -> (int, int) {
    let a = spec_zone_of(s[i], dt);
    let b = spec_zone_of(s[j], dt);
    if spec_cell_lt(b, a) {
        b
    } else {
        a
    }
}

/// The unordered pair `{i, j}` appears in the candidate list, in either
/// orientation.
pub open spec fn spec_pair_listed(pairs: Seq<(usize, usize)>, i: int, j: int) -> bool {
    exists|d: int|
        0 <= d < pairs.len() && (((#[trigger] pairs[d]).0 == i && pairs[d].1 == j) || (pairs[d].0
            == j && pairs[d].1 == i))
}

/// No unordered pair appears twice in the candidate list.
pub open spec fn spec_pairs_distinct(pairs: Seq<(usize, usize)>) -> bool {
    forall|d1: int, d2: int|
        0 <= d1 < d2 < pairs.len() ==> {
            &&& ((#[trigger] pairs[d1]).0 != (#[trigger] pairs[d2]).0 || pairs[d1].1 != pairs[d2].1)
            &&& (pairs[d1].0 != pairs[d2].1 || pairs[d1].1 != pairs[d2].0)
        }
}

/// Entity `e` is bucketed into one of the three forward neighbours of
/// cell `(x, y)`: right, down, or down-right.
pub open spec fn spec_in_fwd(s: Seq<EntityRecord>, dt: int, e: int, x: int, y: int) -> bool {
    ||| spec_in_cell(s, dt, e, x + 1, y)
    ||| spec_in_cell(s, dt, e, x, y + 1)
    ||| spec_in_cell(s, dt, e, x + 1, y + 1)
}

/// An entity's cell is always within the grid.
pub proof fn lemma_zone_of_range(e: EntityRecord, dt: int)
    ensures
        0 <= spec_zone_of(e, dt).0 < ZONES_HORIZONTALLY,
        0 <= spec_zone_of(e, dt).1 < ZONES_VERTICALLY,
{
    crate::geom::lemma_zone_index_range(spec_proj_x(e, dt), 500, 10);
    crate::geom::lemma_zone_index_range(spec_proj_y(e, dt), 300, 6);
}

/// Collect, in one sequence without duplicates, the entities of the up to
/// three existing forward neighbour cells of `(x, y)`.
fn build_fwd(
    entities: &Vec<EntityRecord>,
    dt: u64,
    grid: &Vec<Vec<usize>>,
    x: usize,
    y: usize,
) -> (fwd: Vec<usize>)
    requires
        spec_grid_wf(entities@, dt as int, grid@),
        x < ZONES_HORIZONTALLY,
        y < ZONES_VERTICALLY,
    ensures
        forall|f: int|
            0 <= f < fwd@.len() ==> spec_in_fwd(
                entities@,
                dt as int,
                #[trigger] fwd@[f] as int,
                x as int,
                y as int,
            ),
        forall|f1: int, f2: int| 0 <= f1 < f2 < fwd@.len() ==> fwd@[f1] != fwd@[f2],
        forall|e: int|
            #![trigger spec_in_fwd(entities@, dt as int, e, x as int, y as int)]
            spec_in_fwd(entities@, dt as int, e, x as int, y as int) ==> exists|f: int|
                0 <= f < fwd@.len() && #[trigger] fwd@[f] as int == e,
{
    let ghost s = entities@;
    let ghost dti = dt as int;
    let mut fwd: Vec<usize> = Vec::new();
    let ghost mut claim: Seq<usize> = Seq::empty();

    if x + 1 < ZONES_HORIZONTALLY {
        let ci = (x + 1) * ZONES_VERTICALLY + y;
        proof {
            assert(ci == spec_cell_index(x as int + 1, y as int));
        }
        let cell = &grid[ci];
        let ghost start = fwd@;
        let m = cell.len();
        for k in 0..m
            invariant
                m == cell@.len(),
                spec_cell_wf(s, dti, cell@, x as int + 1, y as int),
                fwd@ == start + cell@.subrange(0, k as int),
                start == Seq::<usize>::empty(),
        {
            fwd.push(cell[k]);
            proof {
                assert(fwd@ =~= start + cell@.subrange(0, k as int + 1));
            }
        }
        proof {
            assert(fwd@ =~= cell@);
        }
    }
    let ghost len1 = fwd@.len() as int;
    let ghost seg1 = fwd@;

    if y + 1 < ZONES_VERTICALLY {
        let ci = x * ZONES_VERTICALLY + (y + 1);
        proof {
            assert(ci == spec_cell_index(x as int, y as int + 1));
        }
        let cell = &grid[ci];
        let m = cell.len();
        for k in 0..m
            invariant
                m == cell@.len(),
                spec_cell_wf(s, dti, cell@, x as int, y as int + 1),
                fwd@ == seg1 + cell@.subrange(0, k as int),
        {
            fwd.push(cell[k]);
            proof {
                assert(fwd@ =~= seg1 + cell@.subrange(0, k as int + 1));
            }
        }
    }
    let ghost len2 = fwd@.len() as int;
    let ghost seg2 = fwd@;

    if x + 1 < ZONES_HORIZONTALLY && y + 1 < ZONES_VERTICALLY {
        let ci = (x + 1) * ZONES_VERTICALLY + (y + 1);
        proof {
            assert(ci == spec_cell_index(x as int + 1, y as int + 1));
        }
        let cell = &grid[ci];
        let m = cell.len();
        for k in 0..m
            invariant
                m == cell@.len(),
                spec_cell_wf(s, dti, cell@, x as int + 1, y as int + 1),
                fwd@ == seg2 + cell@.subrange(0, k as int),
        {
            fwd.push(cell[k]);
            proof {
                assert(fwd@ =~= seg2 + cell@.subrange(0, k as int + 1));
            }
        }
    }

    proof {
        let xi = x as int;
        let yi = y as int;
        // Segment boundaries and which cell each element came from.
        assert(seg1 =~= fwd@.subrange(0, len1));
        assert(seg2 =~= fwd@.subrange(0, len2));
        assert forall|f: int| 0 <= f < fwd@.len() implies spec_in_fwd(
            s,
            dti,
            #[trigger] fwd@[f] as int,
            xi,
            yi,
        ) by {
            if f < len1 {
                assert(spec_in_cell(s, dti, fwd@[f] as int, xi + 1, yi));
            } else if f < len2 {
                assert(spec_in_cell(s, dti, fwd@[f] as int, xi, yi + 1));
            } else {
                assert(spec_in_cell(s, dti, fwd@[f] as int, xi + 1, yi + 1));
            }
        }
        assert forall|f1: int, f2: int| 0 <= f1 < f2 < fwd@.len() implies fwd@[f1] != fwd@[f2] by {
            let e1 = fwd@[f1] as int;
            let e2 = fwd@[f2] as int;
            if f1 < len1 {
                assert(spec_in_cell(s, dti, e1, xi + 1, yi));
            } else if f1 < len2 {
                assert(spec_in_cell(s, dti, e1, xi, yi + 1));
            } else {
                assert(spec_in_cell(s, dti, e1, xi + 1, yi + 1));
            }
            if f2 < len1 {
                assert(spec_in_cell(s, dti, e2, xi + 1, yi));
            } else if f2 < len2 {
                assert(spec_in_cell(s, dti, e2, xi, yi + 1));
            } else {
                assert(spec_in_cell(s, dti, e2, xi + 1, yi + 1));
            }
            // Same segment: the cell is strictly increasing; different
            // segments: the zones differ, so the entities do.
        }
        assert forall|e: int|
            #![trigger spec_in_fwd(s, dti, e, xi, yi)]
            spec_in_fwd(s, dti, e, xi, yi) implies exists|f: int|
            0 <= f < fwd@.len() && #[trigger] fwd@[f] as int == e by {
            if spec_in_cell(s, dti, e, xi + 1, yi) {
                lemma_zone_of_range(s[e], dti);
                let cell = grid@[spec_cell_index(xi + 1, yi)]@;
                let k = choose|k: int| 0 <= k < cell.len() && #[trigger] cell[k] == e;
                assert(fwd@[k] as int == e);
            } else if spec_in_cell(s, dti, e, xi, yi + 1) {
                lemma_zone_of_range(s[e], dti);
                let cell = grid@[spec_cell_index(xi, yi + 1)]@;
                let k = choose|k: int| 0 <= k < cell.len() && #[trigger] cell[k] == e;
                assert(fwd@[len1 + k] as int == e);
            } else {
                lemma_zone_of_range(s[e], dti);
                let cell = grid@[spec_cell_index(xi + 1, yi + 1)]@;
                let k = choose|k: int| 0 <= k < cell.len() && #[trigger] cell[k] == e;
                assert(fwd@[len2 + k] as int == e);
            }
        }
    }
    fwd
}

/// Every listed pair is an examined pair whose responsible cell is
/// lexicographically before `(cx, cy)`.
pub open spec fn spec_pairs_sound(
    s: Seq<EntityRecord>,
    dt: int,
    pairs: Seq<(usize, usize)>,
    cx: int,
    cy: int,
) -> bool {
    forall|d: int|
        0 <= d < pairs.len() ==> {
            &&& spec_pair_examined(s, dt, (#[trigger] pairs[d]).0 as int, pairs[d].1 as int)
            &&& spec_cell_lt(spec_resp(s, dt, pairs[d].0 as int, pairs[d].1 as int), (cx, cy))
        }
}

/// Every examined pair whose responsible cell is lexicographically before
/// `(cx, cy)` is listed.
pub open spec fn spec_pairs_complete(
    s: Seq<EntityRecord>,
    dt: int,
    pairs: Seq<(usize, usize)>,
    cx: int,
    cy: int,
) -> bool {
    forall|i: int, j: int|
        #![trigger spec_pair_examined(s, dt, i, j)]
        spec_pair_examined(s, dt, i, j) && spec_cell_lt(spec_resp(s, dt, i, j), (cx, cy))
            ==> spec_pair_listed(pairs, i, j)
}

/// The cell walked right after `(x, y)` in lexicographic order.
pub open spec fn spec_cell_next(x: int, y: int) -> (int, int) {
    if y + 1 < ZONES_VERTICALLY {
        (x, y + 1)
    } else {
        (x + 1, 0)
    }
}

/// The responsible cell does not depend on the orientation of the pair.
pub proof fn lemma_resp_symmetric(s: Seq<EntityRecord>, dt: int, i: int, j: int)
    ensures
        spec_resp(s, dt, i, j) == spec_resp(s, dt, j, i),
{
}


/// A listed pair stays listed when the list grows.
proof fn lemma_listed_push(pairs: Seq<(usize, usize)>, p: (usize, usize), i: int, j: int)
    requires
        spec_pair_listed(pairs, i, j),
    ensures
        spec_pair_listed(pairs.push(p), i, j),
{
    let d = choose|d: int|
        0 <= d < pairs.len() && (((#[trigger] pairs[d]).0 == i && pairs[d].1 == j) || (pairs[d].0
            == j && pairs[d].1 == i));
    assert(pairs.push(p)[d] == pairs[d]);
}

/// Completeness is kept when the list grows.
proof fn lemma_complete_push(
    s: Seq<EntityRecord>,
    dt: int,
    pairs: Seq<(usize, usize)>,
    p: (usize, usize),
    cx: int,
    cy: int,
)
    requires
        spec_pairs_complete(s, dt, pairs, cx, cy),
    ensures
        spec_pairs_complete(s, dt, pairs.push(p), cx, cy),
{
    assert forall|i: int, j: int|
        #![trigger spec_pair_examined(s, dt, i, j)]
        spec_pair_examined(s, dt, i, j) && spec_cell_lt(spec_resp(s, dt, i, j), (cx, cy))
        implies spec_pair_listed(pairs.push(p), i, j) by {
        lemma_listed_push(pairs, p, i, j);
    }
}

/// Appending a pair that duplicates no listed pair keeps the list free of
/// duplicates.
proof fn lemma_distinct_push(pairs: Seq<(usize, usize)>, p: (usize, usize))
    requires
        spec_pairs_distinct(pairs),
        forall|d: int|
            0 <= d < pairs.len() ==> (((#[trigger] pairs[d]).0 != p.0 || pairs[d].1 != p.1) && (
            pairs[d].0 != p.1 || pairs[d].1 != p.0)),
    ensures
        spec_pairs_distinct(pairs.push(p)),
{
    let np = pairs.push(p);
    assert forall|d1: int, d2: int| 0 <= d1 < d2 < np.len() implies {
        &&& ((#[trigger] np[d1]).0 != (#[trigger] np[d2]).0 || np[d1].1 != np[d2].1)
        &&& (np[d1].0 != np[d2].1 || np[d1].1 != np[d2].0)
    } by {
        assert(np[d1] == pairs[d1]);
        if d2 < pairs.len() {
            assert(np[d2] == pairs[d2]);
        } else {
            assert(np[d2] == p);
        }
    }
}

/// Walk one cell: list, once each, every examined pair whose responsible
/// cell is `(x, y)` — the pairs within the cell and the pairs between the
/// cell and its three forward neighbours.
fn collect_cell_pairs(
    entities: &Vec<EntityRecord>,
    dt: u64,
    grid: &Vec<Vec<usize>>,
    x: usize,
    y: usize,
    pairs: &mut Vec<(usize, usize)>,
)
    requires
        spec_grid_wf(entities@, dt as int, grid@),
        x < ZONES_HORIZONTALLY,
        y < ZONES_VERTICALLY,
        spec_pairs_sound(entities@, dt as int, old(pairs)@, x as int, y as int),
        spec_pairs_complete(entities@, dt as int, old(pairs)@, x as int, y as int),
        spec_pairs_distinct(old(pairs)@),
    ensures
        spec_pairs_sound(
            entities@,
            dt as int,
            final(pairs)@,
            spec_cell_next(x as int, y as int).0,
            spec_cell_next(x as int, y as int).1,
        ),
        spec_pairs_complete(
            entities@,
            dt as int,
            final(pairs)@,
            spec_cell_next(x as int, y as int).0,
            spec_cell_next(x as int, y as int).1,
        ),
        spec_pairs_distinct(final(pairs)@),
{
    let ghost s = entities@;
    let ghost dti = dt as int;
    let ghost xi = x as int;
    let ghost yi = y as int;
    let c = x * ZONES_VERTICALLY + y;
    proof {
        assert(c == spec_cell_index(xi, yi));
    }
    let members = &grid[c];
    let fwd = build_fwd(entities, dt, grid, x, y);
    let m = members.len();
    for k1 in 0..m
        invariant
            spec_grid_wf(s, dti, grid@),
            x < ZONES_HORIZONTALLY,
            y < ZONES_VERTICALLY,
            xi == x as int,
            yi == y as int,
            s == entities@,
            dti == dt as int,
            m == members@.len(),
            spec_cell_wf(s, dti, members@, xi, yi),
            forall|f: int|
                0 <= f < fwd@.len() ==> spec_in_fwd(s, dti, #[trigger] fwd@[f] as int, xi, yi),
            forall|f1: int, f2: int| 0 <= f1 < f2 < fwd@.len() ==> fwd@[f1] != fwd@[f2],
            forall|e: int|
                #![trigger spec_in_fwd(s, dti, e, xi, yi)]
                spec_in_fwd(s, dti, e, xi, yi) ==> exists|f: int|
                    0 <= f < fwd@.len() && #[trigger] fwd@[f] as int == e,
            // every pair is examined, responsible at or before this cell
            forall|d: int|
                0 <= d < pairs@.len() ==> {
                    &&& spec_pair_examined(s, dti, (#[trigger] pairs@[d]).0 as int, pairs@[d].1 as int)
                    &&& (spec_cell_lt(spec_resp(s, dti, pairs@[d].0 as int, pairs@[d].1 as int), (xi, yi))
                        || spec_resp(s, dti, pairs@[d].0 as int, pairs@[d].1 as int) == (xi, yi))
                },
            // pairs of this cell start at one of the first k1 members
            forall|d: int|
                0 <= d < pairs@.len() && spec_resp(
                    s,
                    dti,
                    (#[trigger] pairs@[d]).0 as int,
                    pairs@[d].1 as int,
                ) == (xi, yi) ==> exists|q: int| 0 <= q < k1 && members@[q] == pairs@[d].0,
            spec_pairs_distinct(pairs@),
            spec_pairs_complete(s, dti, pairs@, xi, yi),
            // pairs within the cell, walked so far
            forall|q1: int, q2: int|
                0 <= q1 < k1 && q1 < q2 < m ==> spec_pair_listed(
                    pairs@,
                    #[trigger] members@[q1] as int,
                    #[trigger] members@[q2] as int,
                ),
            // pairs against the forward cells, walked so far
            forall|q1: int, f: int|
                0 <= q1 < k1 && 0 <= f < fwd@.len() ==> spec_pair_listed(
                    pairs@,
                    #[trigger] members@[q1] as int,
                    #[trigger] fwd@[f] as int,
                ),
    {
        let a = members[k1];
        proof {
            assert(spec_in_cell(s, dti, a as int, xi, yi));
        }
        for k2 in (k1 + 1)..m
            invariant
                spec_grid_wf(s, dti, grid@),
                x < ZONES_HORIZONTALLY,
                y < ZONES_VERTICALLY,
                xi == x as int,
                yi == y as int,
                s == entities@,
                dti == dt as int,
                m == members@.len(),
                k1 < m,
                a == members@[k1 as int],
                spec_cell_wf(s, dti, members@, xi, yi),
                forall|f: int|
                    0 <= f < fwd@.len() ==> spec_in_fwd(s, dti, #[trigger] fwd@[f] as int, xi, yi),
                forall|f1: int, f2: int| 0 <= f1 < f2 < fwd@.len() ==> fwd@[f1] != fwd@[f2],
                forall|e: int|
                    #![trigger spec_in_fwd(s, dti, e, xi, yi)]
                    spec_in_fwd(s, dti, e, xi, yi) ==> exists|f: int|
                        0 <= f < fwd@.len() && #[trigger] fwd@[f] as int == e,
                forall|d: int|
                    0 <= d < pairs@.len() ==> {
                        &&& spec_pair_examined(s, dti, (#[trigger] pairs@[d]).0 as int, pairs@[d].1 as int)
                        &&& (spec_cell_lt(spec_resp(s, dti, pairs@[d].0 as int, pairs@[d].1 as int), (xi, yi))
                            || spec_resp(s, dti, pairs@[d].0 as int, pairs@[d].1 as int) == (xi, yi))
                    },
                forall|d: int|
                    0 <= d < pairs@.len() && spec_resp(
                        s,
                        dti,
                        (#[trigger] pairs@[d]).0 as int,
                        pairs@[d].1 as int,
                    ) == (xi, yi) ==> exists|q: int| 0 <= q <= k1 && members@[q] == pairs@[d].0,
                // pairs of the current member so far: a later member of this cell,
                // before the one being walked
                forall|d: int|
                    0 <= d < pairs@.len() && spec_resp(
                        s,
                        dti,
                        (#[trigger] pairs@[d]).0 as int,
                        pairs@[d].1 as int,
                    ) == (xi, yi) && pairs@[d].0 == a ==> exists|q: int|
                        k1 < q < k2 && members@[q] == pairs@[d].1,
                spec_pairs_distinct(pairs@),
                spec_pairs_complete(s, dti, pairs@, xi, yi),
                forall|q1: int, q2: int|
                    0 <= q1 < k1 && q1 < q2 < m ==> spec_pair_listed(
                        pairs@,
                        #[trigger] members@[q1] as int,
                        #[trigger] members@[q2] as int,
                    ),
                forall|q1: int, f: int|
                    0 <= q1 < k1 && 0 <= f < fwd@.len() ==> spec_pair_listed(
                        pairs@,
                        #[trigger] members@[q1] as int,
                        #[trigger] fwd@[f] as int,
                    ),
                forall|q2: int|
                    k1 < q2 < k2 ==> spec_pair_listed(
                        pairs@,
                        members@[k1 as int] as int,
                        #[trigger] members@[q2] as int,
                    ),
        {
            let b = members[k2];
            let ghost prev = pairs@;
            pairs.push((a, b));
            proof {
                assert(pairs@ == prev.push((a, b)));
                assert(forall|d: int| 0 <= d < prev.len() ==> pairs@[d] == prev[d]);
                assert(spec_in_cell(s, dti, b as int, xi, yi));
                assert(a < b);
                assert(spec_pair_examined(s, dti, a as int, b as int));
                assert(spec_resp(s, dti, a as int, b as int) == (xi, yi));
                assert forall|d: int| 0 <= d < prev.len() implies {
                    &&& ((#[trigger] prev[d]).0 != a || prev[d].1 != b)
                    &&& (prev[d].0 != b || prev[d].1 != a)
                } by {
                    let p = prev[d];
                    let rp = spec_resp(s, dti, p.0 as int, p.1 as int);
                    if rp == (xi, yi) {
                        let q = choose|q: int| 0 <= q <= k1 && members@[q] == p.0;
                        if p.0 == a && p.1 == b {
                            // the second of a current-member pair lies strictly
                            // before members[k2]
                            let q2 = choose|q2: int|
                                k1 < q2 < k2 && members@[q2] == p.1;
                            assert(members@[q2] < members@[k2 as int]);
                        }
                        if p.0 == b && p.1 == a {
                            // b is a later member than any walked first element
                            assert(members@[q] == b);
                            assert(members@[q] < members@[k2 as int]);
                        }
                    } else {
                        // an earlier cell is responsible for p, this one for (a, b)
                        lemma_resp_symmetric(s, dti, p.0 as int, p.1 as int);
                        assert(spec_cell_lt(rp, (xi, yi)));
                    }
                }
                lemma_distinct_push(prev, (a, b));
                lemma_complete_push(s, dti, prev, (a, b), xi, yi);
                assert(spec_pair_listed(pairs@, a as int, b as int)) by {
                    assert(pairs@[prev.len() as int] == (a, b));
                }
                assert forall|q1: int, q2: int| 0 <= q1 < k1 && q1 < q2 < m implies spec_pair_listed(
                    pairs@,
                    #[trigger] members@[q1] as int,
                    #[trigger] members@[q2] as int,
                ) by {
                    lemma_listed_push(prev, (a, b), members@[q1] as int, members@[q2] as int);
                }
                assert forall|q1: int, f: int|
                    0 <= q1 < k1 && 0 <= f < fwd@.len() implies spec_pair_listed(
                    pairs@,
                    #[trigger] members@[q1] as int,
                    #[trigger] fwd@[f] as int,
                ) by {
                    lemma_listed_push(prev, (a, b), members@[q1] as int, fwd@[f] as int);
                }
                assert forall|q2: int| k1 < q2 < k2 + 1 implies spec_pair_listed(
                    pairs@,
                    members@[k1 as int] as int,
                    #[trigger] members@[q2] as int,
                ) by {
                    if q2 < k2 {
                        lemma_listed_push(prev, (a, b), a as int, members@[q2] as int);
                    } else {
                        assert(pairs@[prev.len() as int] == (a, b));
                    }
                }
            }
        }
        let fl = fwd.len();
        for f in 0..fl
            invariant
                spec_grid_wf(s, dti, grid@),
                x < ZONES_HORIZONTALLY,
                y < ZONES_VERTICALLY,
                xi == x as int,
                yi == y as int,
                s == entities@,
                dti == dt as int,
                m == members@.len(),
                k1 < m,
                a == members@[k1 as int],
                fl == fwd@.len(),
                spec_cell_wf(s, dti, members@, xi, yi),
                forall|ff: int|
                    0 <= ff < fwd@.len() ==> spec_in_fwd(s, dti, #[trigger] fwd@[ff] as int, xi, yi),
                forall|f1: int, f2: int| 0 <= f1 < f2 < fwd@.len() ==> fwd@[f1] != fwd@[f2],
                forall|e: int|
                    #![trigger spec_in_fwd(s, dti, e, xi, yi)]
                    spec_in_fwd(s, dti, e, xi, yi) ==> exists|ff: int|
                        0 <= ff < fwd@.len() && #[trigger] fwd@[ff] as int == e,
                forall|d: int|
                    0 <= d < pairs@.len() ==> {
                        &&& spec_pair_examined(s, dti, (#[trigger] pairs@[d]).0 as int, pairs@[d].1 as int)
                        &&& (spec_cell_lt(spec_resp(s, dti, pairs@[d].0 as int, pairs@[d].1 as int), (xi, yi))
                            || spec_resp(s, dti, pairs@[d].0 as int, pairs@[d].1 as int) == (xi, yi))
                    },
                forall|d: int|
                    0 <= d < pairs@.len() && spec_resp(
                        s,
                        dti,
                        (#[trigger] pairs@[d]).0 as int,
                        pairs@[d].1 as int,
                    ) == (xi, yi) ==> exists|q: int| 0 <= q <= k1 && members@[q] == pairs@[d].0,
                // pairs of the current member: a later member of this cell, or an
                // already-walked entity of a forward cell
                forall|d: int|
                    0 <= d < pairs@.len() && spec_resp(
                        s,
                        dti,
                        (#[trigger] pairs@[d]).0 as int,
                        pairs@[d].1 as int,
                    ) == (xi, yi) && pairs@[d].0 == a ==> (exists|q: int|
                        k1 < q < m && members@[q] == pairs@[d].1) || (exists|g: int|
                        0 <= g < f && fwd@[g] == pairs@[d].1),
                spec_pairs_distinct(pairs@),
                spec_pairs_complete(s, dti, pairs@, xi, yi),
                forall|q1: int, q2: int|
                    0 <= q1 < k1 && q1 < q2 < m ==> spec_pair_listed(
                        pairs@,
                        #[trigger] members@[q1] as int,
                        #[trigger] members@[q2] as int,
                    ),
                forall|q1: int, ff: int|
                    0 <= q1 < k1 && 0 <= ff < fwd@.len() ==> spec_pair_listed(
                        pairs@,
                        #[trigger] members@[q1] as int,
                        #[trigger] fwd@[ff] as int,
                    ),
                forall|q2: int|
                    k1 < q2 < m ==> spec_pair_listed(
                        pairs@,
                        members@[k1 as int] as int,
                        #[trigger] members@[q2] as int,
                    ),
                forall|g: int|
                    0 <= g < f ==> spec_pair_listed(
                        pairs@,
                        members@[k1 as int] as int,
                        #[trigger] fwd@[g] as int,
                    ),
        {
            let b = fwd[f];
            let ghost prev = pairs@;
            pairs.push((a, b));
            proof {
                assert(pairs@ == prev.push((a, b)));
                assert(forall|d: int| 0 <= d < prev.len() ==> pairs@[d] == prev[d]);
                assert(spec_in_fwd(s, dti, b as int, xi, yi));
                assert(spec_pair_examined(s, dti, a as int, b as int));
                assert(spec_resp(s, dti, a as int, b as int) == (xi, yi));
                assert forall|d: int| 0 <= d < prev.len() implies {
                    &&& ((#[trigger] prev[d]).0 != a || prev[d].1 != b)
                    &&& (prev[d].0 != b || prev[d].1 != a)
                } by {
                    let p = prev[d];
                    let rp = spec_resp(s, dti, p.0 as int, p.1 as int);
                    if rp == (xi, yi) {
                        let q = choose|q: int| 0 <= q <= k1 && members@[q] == p.0;
                        if p.0 == a && p.1 == b {
                            // b is in a forward cell, so p.1 can be neither a
                            // later member of this cell nor an unwalked forward
                            // entity
                            if exists|qq: int| k1 < qq < m && members@[qq] == p.1 {
                                let qq = choose|qq: int| k1 < qq < m && members@[qq] == p.1;
                                assert(spec_in_cell(s, dti, members@[qq] as int, xi, yi));
                            } else {
                                let g = choose|g: int| 0 <= g < f && fwd@[g] == p.1;
                                assert(fwd@[g] != fwd@[f as int]);
                            }
                        }
                        if p.0 == b && p.1 == a {
                            assert(spec_in_cell(s, dti, members@[q] as int, xi, yi));
                            assert(spec_in_fwd(s, dti, b as int, xi, yi));
                        }
                    } else {
                        lemma_resp_symmetric(s, dti, p.0 as int, p.1 as int);
                        assert(spec_cell_lt(rp, (xi, yi)));
                    }
                }
                lemma_distinct_push(prev, (a, b));
                lemma_complete_push(s, dti, prev, (a, b), xi, yi);
                assert(spec_pair_listed(pairs@, a as int, b as int)) by {
                    assert(pairs@[prev.len() as int] == (a, b));
                }
                assert forall|q1: int, q2: int| 0 <= q1 < k1 && q1 < q2 < m implies spec_pair_listed(
                    pairs@,
                    #[trigger] members@[q1] as int,
                    #[trigger] members@[q2] as int,
                ) by {
                    lemma_listed_push(prev, (a, b), members@[q1] as int, members@[q2] as int);
                }
                assert forall|q1: int, ff: int|
                    0 <= q1 < k1 && 0 <= ff < fwd@.len() implies spec_pair_listed(
                    pairs@,
                    #[trigger] members@[q1] as int,
                    #[trigger] fwd@[ff] as int,
                ) by {
                    lemma_listed_push(prev, (a, b), members@[q1] as int, fwd@[ff] as int);
                }
                assert forall|q2: int| k1 < q2 < m implies spec_pair_listed(
                    pairs@,
                    members@[k1 as int] as int,
                    #[trigger] members@[q2] as int,
                ) by {
                    lemma_listed_push(prev, (a, b), a as int, members@[q2] as int);
                }
                assert forall|g: int| 0 <= g < f + 1 implies spec_pair_listed(
                    pairs@,
                    members@[k1 as int] as int,
                    #[trigger] fwd@[g] as int,
                ) by {
                    if g < f {
                        lemma_listed_push(prev, (a, b), a as int, fwd@[g] as int);
                    } else {
                        assert(pairs@[prev.len() as int] == (a, b));
                    }
                }
            }
        }
    }
    proof {
        let nxt = spec_cell_next(xi, yi);
        assert forall|i: int, j: int|
            #![trigger spec_pair_examined(s, dti, i, j)]
            spec_pair_examined(s, dti, i, j) && spec_cell_lt(spec_resp(s, dti, i, j), nxt)
            implies spec_pair_listed(pairs@, i, j) by {
            let r = spec_resp(s, dti, i, j);
            if spec_cell_lt(r, (xi, yi)) {
                // handled by an earlier cell
            } else {
                assert(r == (xi, yi));
                let zi = spec_zone_of(s[i], dti);
                let zj = spec_zone_of(s[j], dti);
                if zi == zj {
                    // both entities are members of this cell
                    assert(spec_in_cell(s, dti, i, xi, yi));
                    assert(spec_in_cell(s, dti, j, xi, yi));
                    let qi = choose|k: int| 0 <= k < members@.len() && #[trigger] members@[k] == i;
                    let qj = choose|k: int| 0 <= k < members@.len() && #[trigger] members@[k] == j;
                    if qi < qj {
                        assert(spec_pair_listed(pairs@, members@[qi] as int, members@[qj] as int));
                    } else {
                        assert(qj < qi);
                        assert(spec_pair_listed(pairs@, members@[qj] as int, members@[qi] as int));
                    }
                } else if zi == (xi, yi) {
                    // i is a member; j is in a forward neighbour
                    assert(spec_in_cell(s, dti, i, xi, yi));
                    assert(spec_in_fwd(s, dti, j, xi, yi));
                    let qi = choose|k: int| 0 <= k < members@.len() && #[trigger] members@[k] == i;
                    let fj = choose|ff: int| 0 <= ff < fwd@.len() && #[trigger] fwd@[ff] as int == j;
                    assert(spec_pair_listed(pairs@, members@[qi] as int, fwd@[fj] as int));
                } else {
                    // j is the member, i is in a forward neighbour
                    assert(zj == (xi, yi));
                    assert(spec_in_cell(s, dti, j, xi, yi));
                    assert(spec_in_fwd(s, dti, i, xi, yi));
                    let qj = choose|k: int| 0 <= k < members@.len() && #[trigger] members@[k] == j;
                    let fi = choose|ff: int| 0 <= ff < fwd@.len() && #[trigger] fwd@[ff] as int == i;
                    assert(spec_pair_listed(pairs@, members@[qj] as int, fwd@[fi] as int));
                }
            }
        }
    }
}

/// Broad phase: list every examined pair of the grid exactly once.
fn collect_pairs(entities: &Vec<EntityRecord>, dt: u64, grid: &Vec<Vec<usize>>) -> (pairs: Vec<
    (usize, usize),
>)
    requires
        spec_grid_wf(entities@, dt as int, grid@),
    ensures
        forall|d: int|
            0 <= d < pairs@.len() ==> spec_pair_examined(
                entities@,
                dt as int,
                (#[trigger] pairs@[d]).0 as int,
                pairs@[d].1 as int,
            ),
        forall|i: int, j: int|
            #![trigger spec_pair_examined(entities@, dt as int, i, j)]
            spec_pair_examined(entities@, dt as int, i, j) ==> spec_pair_listed(pairs@, i, j),
        spec_pairs_distinct(pairs@),
{
    let ghost s = entities@;
    let ghost dti = dt as int;
    let mut pairs: Vec<(usize, usize)> = Vec::new();
    for c in 0..NUM_ZONES
        invariant
            s == entities@,
            dti == dt as int,
            spec_grid_wf(s, dti, grid@),
            spec_pairs_sound(s, dti, pairs@, (c as int) / 7, (c as int) % 7),
            spec_pairs_complete(s, dti, pairs@, (c as int) / 7, (c as int) % 7),
            spec_pairs_distinct(pairs@),
    {
        let x = c / ZONES_VERTICALLY;
        let y = c % ZONES_VERTICALLY;
        proof {
            lemma_fundamental_div_mod(c as int, 7);
            lemma_mod_division_less_than_divisor(c as int, 7);
            assert(x as int == (c as int) / 7 && y as int == (c as int) % 7);
            assert(c <= 76);
            lemma_div_is_ordered(c as int, 76, 7);
            lemma_fundamental_div_mod_converse(76, 7, 10, 6);
            assert(x < ZONES_HORIZONTALLY);
        }
        collect_cell_pairs(entities, dt, grid, x, y, &mut pairs);
        proof {
            let nxt = spec_cell_next(x as int, y as int);
            if y + 1 < ZONES_VERTICALLY {
                lemma_fundamental_div_mod_converse(
                    c as int + 1,
                    7,
                    x as int,
                    y as int + 1,
                );
            } else {
                lemma_fundamental_div_mod_converse(c as int + 1, 7, x as int + 1, 0);
            }
            assert(nxt == ((c as int + 1) / 7, (c as int + 1) % 7));
        }
    }
    proof {
        lemma_fundamental_div_mod_converse(77, 7, 11, 0);
        assert forall|i: int, j: int|
            #![trigger spec_pair_examined(s, dti, i, j)]
            spec_pair_examined(s, dti, i, j) implies spec_pair_listed(pairs@, i, j) by {
            lemma_zone_of_range(s[i], dti);
            lemma_zone_of_range(s[j], dti);
            assert(spec_cell_lt(spec_resp(s, dti, i, j), (11, 0)));
        }
    }
    pairs
}

/// Number of events in `evs` equal to `e`.
pub open spec fn spec_event_count(evs: Seq<CollisionEvent>, e: CollisionEvent) -> int
    decreases evs.len(),
{
    if evs.len() == 0 {
        0
    } else {
        spec_event_count(evs.drop_last(), e) + if evs.last() == e {
            1int
        } else {
            0int
        }
    }
}

/// Appending one event raises exactly its own count by one.
proof fn lemma_event_count_push(evs: Seq<CollisionEvent>, v: CollisionEvent, e: CollisionEvent)
    ensures
        spec_event_count(evs.push(v), e) == spec_event_count(evs, e) + if v == e {
            1int
        } else {
            0int
        },
{
    assert(evs.push(v).drop_last() =~= evs);
}

/// With unique entity ids, an event determines the pair that produced it.
proof fn lemma_event_of_injective(s: Seq<EntityRecord>, i1: int, j1: int, i2: int, j2: int)
    requires
        forall|a: int, b: int| 0 <= a < b < s.len() ==> s[a].id != s[b].id,
        0 <= i1 < s.len(),
        0 <= j1 < s.len(),
        0 <= i2 < s.len(),
        0 <= j2 < s.len(),
        spec_event_of(s, i1, j1) == spec_event_of(s, i2, j2),
    ensures
        i1 == i2 && j1 == j2,
{
    assert(s[i1].id == s[i2].id);
    assert(s[j1].id == s[j2].id);
}

/// A detected collision is detected from both sides.
pub proof fn lemma_detected_symmetric(s: Seq<EntityRecord>, dt: int, i: int, j: int)
    ensures
        spec_detected(s, dt, i, j) == spec_detected(s, dt, j, i),
{
    crate::move_system::lemma_ignore_collision_symmetric(
        if 0 <= i < s.len() { s[i].object_type } else { s[0].object_type },
        if 0 <= j < s.len() { s[j].object_type } else { s[0].object_type },
    );
}

/// The unordered pair `{i, j}` appears among the first `k` listed pairs.
pub open spec fn spec_listed_prefix(pairs: Seq<(usize, usize)>, k: int, i: int, j: int) -> bool {
    exists|d: int|
        0 <= d < k && (((#[trigger] pairs[d]).0 == i && pairs[d].1 == j) || (pairs[d].0 == j
            && pairs[d].1 == i))
}

/// Entity `e` is blocked by one of the first `k` listed pairs.
pub open spec fn spec_blocked_prefix(
    s: Seq<EntityRecord>,
    dt: int,
    pairs: Seq<(usize, usize)>,
    k: int,
    e: int,
) -> bool {
    exists|d: int|
        0 <= d < k && {
            let p = #[trigger] pairs[d];
            ||| (p.0 == e && spec_detected(s, dt, e, p.1 as int) && !spec_allow_overlap(
                s[e].object_type,
                s[p.1 as int].object_type,
            ))
            ||| (p.1 == e && spec_detected(s, dt, e, p.0 as int) && !spec_allow_overlap(
                s[e].object_type,
                s[p.0 as int].object_type,
            ))
        }
}

/// Narrow phase over the listed pairs: record two directional events per
/// detected collision and mark both entities of each blocking one.
fn process_pairs(
    entities: &Vec<EntityRecord>,
    dt: u64,
    proj: &Vec<Vec2i>,
    pairs: &Vec<(usize, usize)>,
) -> (r: (Vec<CollisionEvent>, Vec<bool>))
    requires
        forall|a: int, b: int|
            0 <= a < b < entities@.len() ==> entities@[a].id != entities@[b].id,
        forall|i: int| 0 <= i < entities@.len() ==> (#[trigger] entities@[i]).wf(),
        proj@.len() == entities@.len(),
        forall|i: int|
            0 <= i < entities@.len() ==> {
                &&& (#[trigger] proj@[i]).x == spec_proj_x(entities@[i], dt as int)
                &&& proj@[i].y == spec_proj_y(entities@[i], dt as int)
                &&& proj@[i].within(POS_LIMIT as int + MAX_STEP as int)
            },
        forall|d: int|
            0 <= d < pairs@.len() ==> spec_pair_examined(
                entities@,
                dt as int,
                (#[trigger] pairs@[d]).0 as int,
                pairs@[d].1 as int,
            ),
        forall|i: int, j: int|
            #![trigger spec_pair_examined(entities@, dt as int, i, j)]
            spec_pair_examined(entities@, dt as int, i, j) ==> spec_pair_listed(pairs@, i, j),
        spec_pairs_distinct(pairs@),
    ensures
        r.1@.len() == entities@.len(),
        forall|i: int| 0 <= i < entities@.len() ==> r.1@[i] == spec_blocked(entities@, dt as int, i),
        forall|i: int, j: int|
            spec_detected(entities@, dt as int, i, j) ==> spec_event_count(
                r.0@,
                #[trigger] spec_event_of(entities@, i, j),
            ) == 1,
        forall|k: int|
            0 <= k < r.0@.len() ==> exists|i: int, j: int|
                spec_detected(entities@, dt as int, i, j) && #[trigger] r.0@[k] == spec_event_of(
                    entities@,
                    i,
                    j,
                ),
{
    let ghost s = entities@;
    let ghost dti = dt as int;
    let n = entities.len();
    let mut blocked: Vec<bool> = Vec::new();
    for i in 0..n
        invariant
            blocked@.len() == i,
            forall|k: int| 0 <= k < i ==> !(#[trigger] blocked@[k]),
    {
        blocked.push(false);
    }
    let mut events: Vec<CollisionEvent> = Vec::new();
    let np = pairs.len();
    for d in 0..np
        invariant
            s == entities@,
            dti == dt as int,
            n == entities@.len(),
            np == pairs@.len(),
            forall|a: int, b: int| 0 <= a < b < s.len() ==> s[a].id != s[b].id,
            forall|i: int| 0 <= i < s.len() ==> (#[trigger] s[i]).wf(),
            proj@.len() == s.len(),
            forall|i: int|
                0 <= i < s.len() ==> {
                    &&& (#[trigger] proj@[i]).x == spec_proj_x(s[i], dti)
                    &&& proj@[i].y == spec_proj_y(s[i], dti)
                    &&& proj@[i].within(POS_LIMIT as int + MAX_STEP as int)
                },
            forall|e: int|
                0 <= e < pairs@.len() ==> spec_pair_examined(
                    s,
                    dti,
                    (#[trigger] pairs@[e]).0 as int,
                    pairs@[e].1 as int,
                ),
            spec_pairs_distinct(pairs@),
            blocked@.len() == n,
            forall|e: int|
                0 <= e < n ==> blocked@[e] == spec_blocked_prefix(s, dti, pairs@, d as int, e),
            forall|i: int, j: int|
                spec_detected(s, dti, i, j) ==> spec_event_count(
                    events@,
                    #[trigger] spec_event_of(s, i, j),
                ) == (if spec_listed_prefix(pairs@, d as int, i, j) {
                    1int
                } else {
                    0int
                }),
            forall|k: int|
                0 <= k < events@.len() ==> exists|i: int, j: int|
                    spec_detected(s, dti, i, j) && #[trigger] events@[k] == spec_event_of(s, i, j),
    {
        let (pi, pj) = pairs[d];
        proof {
            assert(spec_pair_examined(s, dti, pi as int, pj as int));
        }
        let first = entities[pi];
        let second = entities[pj];
        let ghost prev_events = events@;
        let ghost prev_blocked = blocked@;
        let hit = !crate::move_system::ignore_collision(&first.object_type, &second.object_type)
            && Hitbox::check_collision(&first.hitbox, proj[pi], &second.hitbox, proj[pj]);
        proof {
            assert(hit == spec_detected(s, dti, pi as int, pj as int));
            lemma_detected_symmetric(s, dti, pi as int, pj as int);
        }
        if hit {
            if !crate::move_system::allow_overlap(&first.object_type, &second.object_type) {
                blocked[pi] = true;
                blocked[pj] = true;
            }
            events.push(CollisionEvent {
                object_id: first.id,
                object_type: first.object_type,
                collided_with_id: second.id,
                collided_with_type: second.object_type,
            });
            events.push(CollisionEvent {
                object_id: second.id,
                object_type: second.object_type,
                collided_with_id: first.id,
                collided_with_type: first.object_type,
            });
            proof {
                let ev1 = spec_event_of(s, pi as int, pj as int);
                let ev2 = spec_event_of(s, pj as int, pi as int);
                assert(events@ =~= prev_events.push(ev1).push(ev2));
                assert(ev1 != ev2) by {
                    assert(s[pi as int].id != s[pj as int].id);
                }
                assert forall|i: int, j: int|
                    spec_detected(s, dti, i, j) implies spec_event_count(
                    events@,
                    #[trigger] spec_event_of(s, i, j),
                ) == (if spec_listed_prefix(pairs@, d as int + 1, i, j) {
                    1int
                } else {
                    0int
                }) by {
                    let ev = spec_event_of(s, i, j);
                    lemma_event_count_push(prev_events, ev1, ev);
                    lemma_event_count_push(prev_events.push(ev1), ev2, ev);
                    if ev == ev1 {
                        lemma_event_of_injective(s, i, j, pi as int, pj as int);
                        // not listed earlier: the list has no duplicates
                        assert(!spec_listed_prefix(pairs@, d as int, i, j));
                        assert(spec_listed_prefix(pairs@, d as int + 1, i, j)) by {
                            assert(pairs@[d as int] == (pi, pj));
                        }
                    } else if ev == ev2 {
                        lemma_event_of_injective(s, i, j, pj as int, pi as int);
                        assert(!spec_listed_prefix(pairs@, d as int, i, j));
                        assert(spec_listed_prefix(pairs@, d as int + 1, i, j)) by {
                            assert(pairs@[d as int] == (pi, pj));
                        }
                    } else {
                        assert(spec_listed_prefix(pairs@, d as int + 1, i, j)
                            == spec_listed_prefix(pairs@, d as int, i, j)) by {
                            if spec_listed_prefix(pairs@, d as int + 1, i, j) {
                                let dd = choose|dd: int|
                                    0 <= dd < d as int + 1 && (((#[trigger] pairs@[dd]).0 == i
                                        && pairs@[dd].1 == j) || (pairs@[dd].0 == j && pairs@[dd].1
                                        == i));
                                if dd == d as int {
                                    lemma_event_of_injective(s, i, j, i, j);
                                    assert((i == pi as int && j == pj as int) || (i == pj as int
                                        && j == pi as int));
                                    assert(false);
                                }
                            }
                        }
                    }
                }
                assert forall|e: int| 0 <= e < n implies blocked@[e] == spec_blocked_prefix(
                    s,
                    dti,
                    pairs@,
                    d as int + 1,
                    e,
                ) by {
                    if e == pi as int || e == pj as int {
                        assert(blocked@[e]);
                        assert(pairs@[d as int] == (pi, pj));
                        assert(spec_blocked_prefix(s, dti, pairs@, d as int + 1, e));
                    } else {
                        assert(blocked@[e] == prev_blocked[e]);
                        if spec_blocked_prefix(s, dti, pairs@, d as int + 1, e) {
                            let dd = choose|dd: int|
                                0 <= dd < d as int + 1 && {
                                    let p = #[trigger] pairs@[dd];
                                    ||| (p.0 == e && spec_detected(s, dti, e, p.1 as int)
                                        && !spec_allow_overlap(
                                        s[e].object_type,
                                        s[p.1 as int].object_type,
                                    ))
                                    ||| (p.1 == e && spec_detected(s, dti, e, p.0 as int)
                                        && !spec_allow_overlap(
                                        s[e].object_type,
                                        s[p.0 as int].object_type,
                                    ))
                                };
                            assert(dd < d as int);
                            assert(spec_blocked_prefix(s, dti, pairs@, d as int, e));
                        }
                        if spec_blocked_prefix(s, dti, pairs@, d as int, e) {
                            assert(spec_blocked_prefix(s, dti, pairs@, d as int + 1, e));
                        }
                    }
                }
            }
        } else {
            proof {
                assert forall|i: int, j: int|
                    spec_detected(s, dti, i, j) implies spec_event_count(
                    events@,
                    #[trigger] spec_event_of(s, i, j),
                ) == (if spec_listed_prefix(pairs@, d as int + 1, i, j) {
                    1int
                } else {
                    0int
                }) by {
                    assert(spec_listed_prefix(pairs@, d as int + 1, i, j) == spec_listed_prefix(
                        pairs@,
                        d as int,
                        i,
                        j,
                    )) by {
                        if spec_listed_prefix(pairs@, d as int + 1, i, j) {
                            let dd = choose|dd: int|
                                0 <= dd < d as int + 1 && (((#[trigger] pairs@[dd]).0 == i
                                    && pairs@[dd].1 == j) || (pairs@[dd].0 == j && pairs@[dd].1
                                    == i));
                            if dd == d as int {
                                // this pair was examined and found not to collide
                                assert((i == pi as int && j == pj as int) || (i == pj as int && j
                                    == pi as int));
                                assert(false);
                            }
                        }
                    }
                }
                assert forall|e: int| 0 <= e < n implies blocked@[e] == spec_blocked_prefix(
                    s,
                    dti,
                    pairs@,
                    d as int + 1,
                    e,
                ) by {
                    if spec_blocked_prefix(s, dti, pairs@, d as int + 1, e) {
                        let dd = choose|dd: int|
                            0 <= dd < d as int + 1 && {
                                let p = #[trigger] pairs@[dd];
                                ||| (p.0 == e && spec_detected(s, dti, e, p.1 as int)
                                    && !spec_allow_overlap(
                                    s[e].object_type,
                                    s[p.1 as int].object_type,
                                ))
                                ||| (p.1 == e && spec_detected(s, dti, e, p.0 as int)
                                    && !spec_allow_overlap(
                                    s[e].object_type,
                                    s[p.0 as int].object_type,
                                ))
                            };
                        assert(dd < d as int);
                        assert(spec_blocked_prefix(s, dti, pairs@, d as int, e));
                    }
                    if spec_blocked_prefix(s, dti, pairs@, d as int, e) {
                        assert(spec_blocked_prefix(s, dti, pairs@, d as int + 1, e));
                    }
                }
            }
        }
    }
    proof {
        assert forall|e: int| 0 <= e < n implies blocked@[e] == spec_blocked(s, dti, e) by {
            if blocked@[e] {
                assert(spec_blocked_prefix(s, dti, pairs@, np as int, e));
            }
            if spec_blocked(s, dti, e) {
                let j = choose|j: int|
                    spec_detected(s, dti, e, j) && !spec_allow_overlap(
                        s[e].object_type,
                        s[j].object_type,
                    );
                assert(spec_pair_examined(s, dti, e, j));
                assert(spec_pair_listed(pairs@, e, j));
                let dd = choose|dd: int|
                    0 <= dd < pairs@.len() && (((#[trigger] pairs@[dd]).0 == e && pairs@[dd].1 == j)
                        || (pairs@[dd].0 == j && pairs@[dd].1 == e));
                assert(spec_blocked_prefix(s, dti, pairs@, np as int, e));
            }
        }
        assert forall|i: int, j: int|
            spec_detected(s, dti, i, j) implies spec_event_count(
            events@,
            #[trigger] spec_event_of(s, i, j),
        ) == 1 by {
            assert(spec_pair_examined(s, dti, i, j));
            assert(spec_pair_listed(pairs@, i, j));
            let dd = choose|dd: int|
                0 <= dd < pairs@.len() && (((#[trigger] pairs@[dd]).0 == i && pairs@[dd].1 == j)
                    || (pairs@[dd].0 == j && pairs@[dd].1 == i));
            assert(spec_listed_prefix(pairs@, np as int, i, j));
        }
    }
    (events, blocked)
}

/// Move every object one tick: clear nothing, read the velocity
/// accumulators as the intent producers left them, detect collisions on
/// the projected positions, and advance every non-floor entity that is not
/// blocked. Returns the collision events of the tick: exactly two,
/// mirrored, for every detected overlap (collision symmetry), and none
/// for any other pair.
pub fn move_system(world: &mut World, delta_time_ms: u64) -> (events: Vec<CollisionEvent>)
    requires
        old(world).inv(),
        delta_time_ms <= DT_LIMIT,
        spec_positions_bounded(old(world).entities@),
    ensures
        final(world).inv(),
        final(world).next_id == old(world).next_id,
        final(world).entities@.len() == old(world).entities@.len(),
        forall|i: int|
            0 <= i < old(world).entities@.len() ==> final(world).entities@[i] == (EntityRecord {
                position: spec_moved_position(
                    old(world).entities@,
                    delta_time_ms as int,
                    i,
                ),
                ..old(world).entities@[i]
            }),
        forall|i: int, j: int|
            spec_detected(old(world).entities@, delta_time_ms as int, i, j) ==> spec_event_count(
                events@,
                #[trigger] spec_event_of(old(world).entities@, i, j),
            ) == 1,
        forall|k: int|
            0 <= k < events@.len() ==> exists|i: int, j: int|
                spec_detected(old(world).entities@, delta_time_ms as int, i, j)
                    && #[trigger] events@[k] == spec_event_of(old(world).entities@, i, j),
{
    let ghost s = world.entities@;
    let ghost dti = delta_time_ms as int;
    let proj = project_positions(&world.entities, delta_time_ms);
    let grid = build_grid(&world.entities, &proj, delta_time_ms);
    let pairs = collect_pairs(&world.entities, delta_time_ms, &grid);
    let (events, blocked) = process_pairs(&world.entities, delta_time_ms, &proj, &pairs);
    let n = world.entities.len();
    for i in 0..n
        invariant
            n == world.entities@.len(),
            s.len() == n,
            dti == delta_time_ms as int,
            proj@.len() == n,
            blocked@.len() == n,
            forall|k: int|
                0 <= k < n ==> {
                    &&& (#[trigger] proj@[k]).x == spec_proj_x(s[k], dti)
                    &&& proj@[k].y == spec_proj_y(s[k], dti)
                },
            forall|k: int| 0 <= k < n ==> blocked@[k] == spec_blocked(s, dti, k),
            world.next_id == old(world).next_id,
            forall|k: int|
                0 <= k < i ==> world.entities@[k] == (EntityRecord {
                    position: spec_moved_position(s, dti, k),
                    ..s[k]
                }),
            forall|k: int| i <= k < n ==> world.entities@[k] == s[k],
    {
        let is_floor = matches!(world.entities[i].object_type, MoveObjectType::Floor);
        if !is_floor && !blocked[i] {
            world.entities[i].position = proj[i];
        }
    }
    proof {
        assert forall|a: int, b: int|
            0 <= a < b < world.entities@.len() implies world.entities@[a].id
            != world.entities@[b].id by {
            assert(s[a].id != s[b].id);
        }
        assert forall|a: int| 0 <= a < world.entities@.len() implies (
        #[trigger] world.entities@[a]).wf() && world.entities@[a].id < world.next_id by {
            assert(s[a].wf());
            assert(s[a].id < old(world).next_id);
        }
    }
    events
}

/// Blocking correctness, first half: when two non-floor entities whose
/// kinds block each other project to overlapping rectangles, and their
/// grid cells are not anti-diagonal neighbours, both are detected and
/// blocked, so the mover leaves both positions unchanged that tick.
///
/// The anti-diagonal case — one cell right-and-up of the other — is the
/// one arrangement the three forward neighbour checks never visit, so an
/// overlap across it goes undetected.
pub proof fn lemma_blocking_correctness(s: Seq<EntityRecord>, dt: int, i: int, j: int)
    requires
        0 <= i < s.len(),
        0 <= j < s.len(),
        i != j,
        s[i].wf(),
        s[j].wf(),
        s[i].object_type != MoveObjectType::Floor,
        s[j].object_type != MoveObjectType::Floor,
        !spec_ignore_collision(s[i].object_type, s[j].object_type),
        !spec_allow_overlap(s[i].object_type, s[j].object_type),
        spec_overlap_at(s, dt, i, j),
        !(spec_zone_of(s[i], dt).0 == spec_zone_of(s[j], dt).0 + 1 && spec_zone_of(s[i], dt).1 + 1
            == spec_zone_of(s[j], dt).1),
        !(spec_zone_of(s[j], dt).0 == spec_zone_of(s[i], dt).0 + 1 && spec_zone_of(s[j], dt).1 + 1
            == spec_zone_of(s[i], dt).1),
    ensures
        spec_detected(s, dt, i, j),
        spec_detected(s, dt, j, i),
        spec_blocked(s, dt, i),
        spec_blocked(s, dt, j),
{
    let pix = spec_proj_x(s[i], dt);
    let pjx = spec_proj_x(s[j], dt);
    let piy = spec_proj_y(s[i], dt);
    let pjy = spec_proj_y(s[j], dt);
    // overlapping rectangles with extents at most ZONE_SIZE keep the
    // corners less than ZONE_SIZE apart on both axes
    assert(-(ZONE_SIZE as int) < pix - pjx < ZONE_SIZE as int);
    assert(-(ZONE_SIZE as int) < piy - pjy < ZONE_SIZE as int);
    crate::geom::lemma_zone_index_close(pix, pjx, 500, 10);
    crate::geom::lemma_zone_index_close(piy, pjy, 300, 6);
    assert(spec_zones_visited(spec_zone_of(s[i], dt), spec_zone_of(s[j], dt)));
    lemma_detected_symmetric(s, dt, i, j);
    assert(spec_blocked(s, dt, i)) by {
        assert(spec_detected(s, dt, i, j) && !spec_allow_overlap(
            s[i].object_type,
            s[j].object_type,
        ));
    }
    assert(spec_blocked(s, dt, j)) by {
        assert(spec_detected(s, dt, j, i) && !spec_allow_overlap(
            s[j].object_type,
            s[i].object_type,
        ));
    }
}

/// Blocking correctness, second half: a pair whose kinds are mutually
/// ignored is never a detected collision, so even a geometric overlap
/// yields no event and no blocking from that pair.
pub proof fn lemma_ignore_no_event(s: Seq<EntityRecord>, dt: int, i: int, j: int)
    requires
        spec_ignore_collision(s[i].object_type, s[j].object_type),
    ensures
        !spec_detected(s, dt, i, j),
        !spec_detected(s, dt, j, i),
{
    crate::move_system::lemma_ignore_collision_symmetric(s[i].object_type, s[j].object_type);
}

} // verus!

//! Collision shapes and the narrow-phase overlap test.

use vstd::prelude::*;
use crate::geom::{Vec2i, POS_LIMIT, ZONE_SIZE};

verus! {

/// Shape of an entity for collision purposes. The only supported shape is
/// an axis-aligned rectangle, held as its full extent (width, height). A
/// shape's position names its minimum corner, so a rectangle at `p` with
/// extent `(w, h)` covers `[p.x, p.x + w) x [p.y, p.y + h)`.
#[derive(Clone, Copy, PartialEq, Eq, Structural, Debug)]
pub enum Hitbox {
    Rectangle(Vec2i),
}

/// Two half-open intervals `[a, a + aw)` and `[b, b + bw)` share a point.
pub open spec fn spec_intervals_overlap(a: int, aw: int, b: int, bw: int) -> bool {
    a < b + bw && b < a + aw
}

/// The rectangles `h1` at `p1` and `h2` at `p2` share a point; touching
/// edges do not overlap.
pub open spec fn spec_overlap(p1: Vec2i, h1: Hitbox, p2: Vec2i, h2: Hitbox) -> bool {
    &&& spec_intervals_overlap(p1.x as int, h1.extent().x as int, p2.x as int, h2.extent().x as int)
    &&& spec_intervals_overlap(p1.y as int, h1.extent().y as int, p2.y as int, h2.extent().y as int)
}

impl Hitbox {
    /// Full extent (width, height) of the shape.
    pub open spec fn extent(self) -> Vec2i {
        match self {
            Hitbox::Rectangle(dimensions) => dimensions,
        }
    }

    /// Extents are not negative and fit inside one broad-phase grid cell.
    pub open spec fn wf(self) -> bool {
        &&& 0 <= self.extent().x <= ZONE_SIZE
        &&& 0 <= self.extent().y <= ZONE_SIZE
    }

    pub fn new_rectangle(dimensions: Vec2i) -> (r: Hitbox)
        ensures
            r == Hitbox::Rectangle(dimensions),
    {
        Hitbox::Rectangle(dimensions)
    }

    /// Narrow-phase test: do the two shapes, placed at the given
    /// positions, overlap?
    pub fn check_collision(
        x_hitbox: &Hitbox,
        x_position: Vec2i,
        y_hitbox: &Hitbox,
        y_position: Vec2i,
    ) -> (r: bool)
        requires
            x_hitbox.wf(),
            y_hitbox.wf(),
            x_position.within(2 * POS_LIMIT as int),
            y_position.within(2 * POS_LIMIT as int),
        ensures
            r == spec_overlap(x_position, *x_hitbox, y_position, *y_hitbox),
    {
        match (*x_hitbox, *y_hitbox) {
            (Hitbox::Rectangle(dim_x), Hitbox::Rectangle(dim_y)) => {
                x_position.x < y_position.x + dim_y.x && y_position.x < x_position.x + dim_x.x
                    && x_position.y < y_position.y + dim_y.y && y_position.y < x_position.y
                    + dim_x.y
            },
        }
    }
}

/// Overlap is symmetric in the two shapes.
pub proof fn lemma_overlap_symmetric(p1: Vec2i, h1: Hitbox, p2: Vec2i, h2: Hitbox)
    ensures
        spec_overlap(p1, h1, p2, h2) == spec_overlap(p2, h2, p1, h1),
{
}

} // verus!

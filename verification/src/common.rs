//! Shared plain data types.

use vstd::prelude::*;

verus! {

/// Position of an entity in a persisted map record, in world units.
#[derive(Clone, Copy, PartialEq, Eq, Structural, Debug)]
pub struct Position(pub i64, pub i64);

} // verus!

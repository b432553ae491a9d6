//! Records of the persisted map description, and the path a map id is
//! stored under. Reading and decoding the file itself is I/O and stays
//! with the caller; the core works on the decoded records.

use vstd::prelude::*;
use crate::common::Position;
use crate::hitbox::Hitbox;
use crate::move_system::MoveObjectType;

verus! {

/// Identifier of a persisted map.
pub type MapId = u32;

/// One record of a persisted map: a parsed, not yet spawned object.
#[derive(Clone, Copy, PartialEq, Eq, Structural, Debug)]
pub struct ParsedEntity {
    pub move_type: MoveObjectType,
    pub position: Position,
    pub hitbox: Hitbox,
}

/// The decimal digit character of `d`.
pub open spec fn spec_digit(d: int) -> char {
    if d == 0 {
        '0'
    } else if d == 1 {
        '1'
    } else if d == 2 {
        '2'
    } else if d == 3 {
        '3'
    } else if d == 4 {
        '4'
    } else if d == 5 {
        '5'
    } else if d == 6 {
        '6'
    } else if d == 7 {
        '7'
    } else if d == 8 {
        '8'
    } else {
        '9'
    }
}

/// The decimal digits of `n`, most significant first.
pub open spec fn spec_u32_decimal(n: int) -> Seq<char>
    decreases n,
{
    if n < 10 {
        seq![spec_digit(n)]
    } else {
        spec_u32_decimal(n / 10).push(spec_digit(n % 10))
    }
}

/// Returns unique string made from given ID: its decimal digits.
///
/// Relies on serde_json::to_string, which serializes a u32 as its plain
/// decimal digits and cannot fail on one.
#[verifier::external_body]
pub fn get_string_from_id(id: &MapId) -> (r: String)
    ensures
        r@ == spec_u32_decimal(*id as int),
{
    serde_json::to_string(id).expect("Couldn't convert ID to String")
}

/// Returns full path to a map with given ID: the fixed maps directory
/// prefix followed by the id's decimal digits.
pub fn get_filename(id: &MapId) -> (r: String)
    ensures
        r@ == "maps/map"@ + spec_u32_decimal(*id as int),
{
    let mut filename_beginning: String = String::from_str("maps/map");
    let map_name: String = get_string_from_id(id);
    filename_beginning.append(map_name.as_str());
    filename_beginning
}

} // verus!

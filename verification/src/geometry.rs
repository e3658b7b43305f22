//! Geometry primitives: a 2D point in integer world units, and the
//! coordinate bounds inside which all motion arithmetic is exact.

use vstd::prelude::*;

verus! {

use crate::HGT_HUMANOID;

/// Largest magnitude allowed for a floor-corner coordinate.  Keeping corners
/// inside this range guarantees that every displacement computed by the
/// motion engine fits comfortably in an `i64`.
pub const COORD_LIMIT: i64 = 1_000_000_000;

/// A point in world space.  Value type, no identity.
#[derive(Clone, Copy, Debug, PartialEq, Eq, Structural)]
pub struct Position2 {
    pub x: i64,
    pub y: i64,
}

/// A coordinate that may appear as a floor corner or jump launch position.
pub open spec fn coord_in_world(c: i64) -> bool {
    -COORD_LIMIT <= c <= COORD_LIMIT
}

/// A point whose coordinates both lie inside the world bounds.
pub open spec fn position_in_world(p: Position2) -> bool {
    coord_in_world(p.x) && coord_in_world(p.y)
}

/// Bound for an agent's position: the world bounds plus slack for the
/// vertical body offset that walking targets carry.
pub open spec fn agent_coord_ok(c: i64) -> bool {
    -(COORD_LIMIT + HGT_HUMANOID) <= c <= COORD_LIMIT + HGT_HUMANOID
}

/// An agent position inside the slack-extended world bounds.
pub open spec fn agent_position_ok(p: Position2) -> bool {
    agent_coord_ok(p.x) && agent_coord_ok(p.y)
}

impl Position2 {
    /// Builds the point `(x, y)`.
    pub fn new(x: i64, y: i64) -> (p: Position2)
        ensures
            p.x == x,
            p.y == y,
    {
        Position2 { x, y }
    }
}

impl Default for Position2 {
    /// The origin.
    fn default() -> (p: Position2)
        ensures
            p.x == 0,
            p.y == 0,
    {
        Position2 { x: 0, y: 0 }
    }
}

} // verus!

//! Navigation over a graph of connected platform segments ("floors").
//!
//! A world is a [`FloorGraph`]: an ordered sequence of quadrilateral floor
//! segments, each linked to up to two walking neighbors, up to two digging
//! neighbors, and any number of jump routes.  On top of the graph the crate
//! provides an unweighted shortest-path search ([`find_path`] and the
//! underlying [`weightless_breadth_first_search`]) and a per-tick motion
//! engine ([`advance`]) that walks an agent toward the active boundary of its
//! current floor and crosses to the matching neighbor on arrival.
//!
//! Coordinates are integer world units, so every statement about positions
//! and distances is exact.

use vstd::prelude::*;

pub mod geometry;
pub mod graph;
pub mod motion;
pub mod search;

pub use geometry::Position2;
pub use graph::Floor;
pub use graph::FloorGraph;
pub use graph::GazeDirection;
pub use graph::InvalidFloorId;
pub use graph::JumpRoute;
pub use motion::Action;
pub use motion::Agent;
pub use motion::advance;
pub use motion::dig_fall_function;
pub use motion::fall_function;
pub use motion::jump_function;
pub use motion::select_jump_route;
pub use search::find_path;
pub use search::weightless_breadth_first_search;

verus! {

/// Height of the moving agent's body, in world units.
pub const HGT_HUMANOID: i64 = 40;

/// Peak height of the jump/fall parabola, in world units.
pub const HGT_JUMP_PARABOLA: i64 = 50;

/// Horizontal span of the jump/fall parabola, in world units.
pub const WDT_JUMP_PARABOLA: i64 = 60;

/// Horizontal displacement covered in one walking tick, in world units.
pub const SPEED_WALKING: i64 = 3;

/// Height of a tunnel segment, in world units.
pub const HGT_TUNNEL: i64 = 60;

} // verus!

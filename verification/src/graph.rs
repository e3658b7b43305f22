//! The floor graph: quadrilateral floor segments with walking, digging and
//! jump connectivity, owned by a [`FloorGraph`] and addressed by index.

use vstd::prelude::*;

verus! {

use crate::geometry::Position2;
use crate::geometry::coord_in_world;
use crate::geometry::position_in_world;

/// The side of a floor an agent is facing or moving toward.
#[derive(Clone, Copy, Debug, PartialEq, Eq, Structural)]
pub enum GazeDirection {
    Left,
    Right,
}

/// An index outside the graph's floor sequence was used.  This signals a
/// world-construction bug, never an expected steady-state condition.
#[derive(Clone, Copy, Debug, PartialEq, Eq, Structural)]
pub struct InvalidFloorId;

/// An edge to a floor that is reachable only by an airborne arc launched at
/// a specific horizontal position of the source floor.
#[derive(Clone, Copy, Debug, PartialEq, Eq, Structural)]
pub struct JumpRoute {
    /// Index of the target floor in the owning graph.
    pub id_target: usize,
    /// Horizontal position at which the jump must be launched.
    pub x_jump_start_position: i64,
}

/// A convex quadrilateral terrain segment with its connectivity.  A floor's
/// identity is its index in the owning graph's floor sequence; every
/// neighbor field holds such an index.
#[derive(Clone, Debug)]
pub struct Floor {
    pub top_left: Position2,
    pub top_right: Position2,
    pub bottom_right: Position2,
    pub bottom_left: Position2,
    /// Reachable by walking off the bottom-left corner.
    pub id_left_walking_neighbor: Option<usize>,
    /// Reachable by walking off the bottom-right corner.
    pub id_right_walking_neighbor: Option<usize>,
    /// Reachable by digging through the left side.
    pub id_left_digging_neighbor: Option<usize>,
    /// Reachable by digging through the right side.
    pub id_right_digging_neighbor: Option<usize>,
    /// Only neighbors that are reachable neither by walking nor by digging.
    pub id_jump_neighbors: Vec<JumpRoute>,
}

/// The identifiers a `Some` neighbor link may carry, as a sequence: empty
/// for `None`, a singleton otherwise.
pub open spec fn neighbor_ids(o: Option<usize>) -> Seq<usize> {
    match o {
        Option::Some(k) => seq![k],
        Option::None => Seq::empty(),
    }
}

impl Floor {
    /// Builds an isolated floor from its four corners, given clockwise from
    /// the top-left corner.  All neighbor links start out empty.
    pub fn new(x1: i64, y1: i64, x2: i64, y2: i64, x3: i64, y3: i64, x4: i64, y4: i64) -> (f:
        Floor)
        ensures
            f.top_left == (Position2 { x: x1, y: y1 }),
            f.top_right == (Position2 { x: x2, y: y2 }),
            f.bottom_right == (Position2 { x: x3, y: y3 }),
            f.bottom_left == (Position2 { x: x4, y: y4 }),
            f.id_left_walking_neighbor is None,
            f.id_right_walking_neighbor is None,
            f.id_left_digging_neighbor is None,
            f.id_right_digging_neighbor is None,
            f.id_jump_neighbors@ == Seq::<JumpRoute>::empty(),
    {
        Floor {
            top_left: Position2 { x: x1, y: y1 },
            top_right: Position2 { x: x2, y: y2 },
            bottom_right: Position2 { x: x3, y: y3 },
            bottom_left: Position2 { x: x4, y: y4 },
            id_left_walking_neighbor: None,
            id_right_walking_neighbor: None,
            id_left_digging_neighbor: None,
            id_right_digging_neighbor: None,
            id_jump_neighbors: Vec::new(),
        }
    }

    /// The indices of the floors this floor has a jump route to, in route
    /// order.
    pub open spec fn jump_targets(self) -> Seq<usize> {
        self.id_jump_neighbors@.map_values(|r: JumpRoute| r.id_target)
    }

    /// Every successor of this floor, one hop away by any edge type, in the
    /// fixed enumeration order: left walking, right walking, left digging,
    /// right digging, then the jump routes in sequence order.
    pub open spec fn successors(self) -> Seq<usize> {
        neighbor_ids(self.id_left_walking_neighbor) + neighbor_ids(self.id_right_walking_neighbor)
            + neighbor_ids(self.id_left_digging_neighbor) + neighbor_ids(
            self.id_right_digging_neighbor,
        ) + self.jump_targets()
    }

    /// Every neighbor link points below `floor_count`.
    pub open spec fn links_valid(self, floor_count: int) -> bool {
        &&& (self.id_left_walking_neighbor matches Some(k) ==> k < floor_count)
        &&& (self.id_right_walking_neighbor matches Some(k) ==> k < floor_count)
        &&& (self.id_left_digging_neighbor matches Some(k) ==> k < floor_count)
        &&& (self.id_right_digging_neighbor matches Some(k) ==> k < floor_count)
        &&& forall|i: int|
            0 <= i < self.id_jump_neighbors@.len() ==> (#[trigger] self.id_jump_neighbors@[i]).id_target
                < floor_count
    }

    /// Corner and launch coordinates lie inside the world bounds.
    pub open spec fn coords_in_world(self) -> bool {
        &&& position_in_world(self.top_left)
        &&& position_in_world(self.top_right)
        &&& position_in_world(self.bottom_right)
        &&& position_in_world(self.bottom_left)
        &&& forall|i: int|
            0 <= i < self.id_jump_neighbors@.len() ==> coord_in_world(
                (#[trigger] self.id_jump_neighbors@[i]).x_jump_start_position,
            )
    }
}

impl Default for Floor {
    /// An isolated floor whose corners all sit at the origin.
    fn default() -> (f: Floor)
        ensures
            f.top_left == (Position2 { x: 0, y: 0 }),
            f.top_right == (Position2 { x: 0, y: 0 }),
            f.bottom_right == (Position2 { x: 0, y: 0 }),
            f.bottom_left == (Position2 { x: 0, y: 0 }),
            f.id_left_walking_neighbor is None,
            f.id_right_walking_neighbor is None,
            f.id_left_digging_neighbor is None,
            f.id_right_digging_neighbor is None,
            f.id_jump_neighbors@ == Seq::<JumpRoute>::empty(),
    {
        Floor::new(0, 0, 0, 0, 0, 0, 0, 0)
    }
}

/// An ordered sequence of floors, indexed by floor id.  Built once before
/// simulation starts; read-only afterwards.
#[derive(Clone, Debug)]
pub struct FloorGraph {
    pub floors: Vec<Floor>,
}

impl FloorGraph {
    /// Every neighbor reference in the graph is a valid index.
    pub open spec fn wf(self) -> bool {
        forall|i: int|
            0 <= i < self.floors@.len() ==> (#[trigger] self.floors@[i]).links_valid(
                self.floors@.len() as int,
            )
    }

    /// Every floor's coordinates lie inside the world bounds.
    pub open spec fn coords_in_world(self) -> bool {
        forall|i: int|
            0 <= i < self.floors@.len() ==> (#[trigger] self.floors@[i]).coords_in_world()
    }

    /// Builds a graph from floors whose neighbor ids were pre-assigned by
    /// the caller.  Only index validity is checked, not geometric adjacency;
    /// a dangling neighbor reference is reported as `InvalidFloorId`.
    pub fn new(floors: Vec<Floor>) -> (r: Result<FloorGraph, InvalidFloorId>)
        ensures
            match r {
                Ok(g) => g.floors@ == floors@ && g.wf(),
                Err(e) => {
                    &&& e == InvalidFloorId
                    &&& exists|i: int|
                        0 <= i < floors@.len() && !(#[trigger] floors@[i]).links_valid(
                            floors@.len() as int,
                        )
                },
            },
    {
        let n = floors.len();
        for i in 0..n
            invariant
                n == floors@.len(),
                forall|k: int| 0 <= k < i ==> (#[trigger] floors@[k]).links_valid(n as int),
        {
            if !links_valid_exec(&floors[i], n) {
                return Err(InvalidFloorId);
            }
        }
        Ok(FloorGraph { floors })
    }

    /// Number of floors in the graph.
    pub fn floor_count(&self) -> (n: usize)
        ensures
            n == self.floors@.len(),
    {
        self.floors.len()
    }

    /// Read-only lookup of the floor with the given id.
    pub fn floor_at(&self, id: usize) -> (r: Result<&Floor, InvalidFloorId>)
        ensures
            id < self.floors@.len() <==> r is Ok,
            r matches Ok(f) ==> *f == self.floors@[id as int],
            r matches Err(e) ==> e == InvalidFloorId,
    {
        if id < self.floors.len() {
            Ok(&self.floors[id])
        } else {
            Err(InvalidFloorId)
        }
    }

    /// The walking neighbor of floor `id` on the given side, if any.
    pub fn walking_neighbor(&self, id: usize, side: GazeDirection) -> (r: Result<
        Option<usize>,
        InvalidFloorId,
    >)
        ensures
            id < self.floors@.len() <==> r is Ok,
            r matches Ok(nb) ==> nb == match side {
                GazeDirection::Left => self.floors@[id as int].id_left_walking_neighbor,
                GazeDirection::Right => self.floors@[id as int].id_right_walking_neighbor,
            },
            r matches Err(e) ==> e == InvalidFloorId,
    {
        if id < self.floors.len() {
            match side {
                GazeDirection::Left => Ok(self.floors[id].id_left_walking_neighbor),
                GazeDirection::Right => Ok(self.floors[id].id_right_walking_neighbor),
            }
        } else {
            Err(InvalidFloorId)
        }
    }

    /// The digging neighbor of floor `id` on the given side, if any.
    pub fn digging_neighbor(&self, id: usize, side: GazeDirection) -> (r: Result<
        Option<usize>,
        InvalidFloorId,
    >)
        ensures
            id < self.floors@.len() <==> r is Ok,
            r matches Ok(nb) ==> nb == match side {
                GazeDirection::Left => self.floors@[id as int].id_left_digging_neighbor,
                GazeDirection::Right => self.floors@[id as int].id_right_digging_neighbor,
            },
            r matches Err(e) ==> e == InvalidFloorId,
    {
        if id < self.floors.len() {
            match side {
                GazeDirection::Left => Ok(self.floors[id].id_left_digging_neighbor),
                GazeDirection::Right => Ok(self.floors[id].id_right_digging_neighbor),
            }
        } else {
            Err(InvalidFloorId)
        }
    }

    /// The jump routes leaving floor `id`, in route order.
    pub fn jump_routes(&self, id: usize) -> (r: Result<&Vec<JumpRoute>, InvalidFloorId>)
        ensures
            id < self.floors@.len() <==> r is Ok,
            r matches Ok(v) ==> v@ == self.floors@[id as int].id_jump_neighbors@,
            r matches Err(e) ==> e == InvalidFloorId,
    {
        if id < self.floors.len() {
            Ok(&self.floors[id].id_jump_neighbors)
        } else {
            Err(InvalidFloorId)
        }
    }
}

/// Run-time check matching [`Floor::links_valid`].
fn links_valid_exec(f: &Floor, floor_count: usize) -> (b: bool)
    ensures
        b == f.links_valid(floor_count as int),
{
    let ok_lw = match f.id_left_walking_neighbor {
        Some(k) => k < floor_count,
        None => true,
    };
    let ok_rw = match f.id_right_walking_neighbor {
        Some(k) => k < floor_count,
        None => true,
    };
    let ok_ld = match f.id_left_digging_neighbor {
        Some(k) => k < floor_count,
        None => true,
    };
    let ok_rd = match f.id_right_digging_neighbor {
        Some(k) => k < floor_count,
        None => true,
    };
    if !(ok_lw && ok_rw && ok_ld && ok_rd) {
        return false;
    }
    let m = f.id_jump_neighbors.len();
    for j in 0..m
        invariant
            m == f.id_jump_neighbors@.len(),
            forall|i: int|
                0 <= i < j ==> (#[trigger] f.id_jump_neighbors@[i]).id_target < floor_count,
    {
        if f.id_jump_neighbors[j].id_target >= floor_count {
            return false;
        }
    }
    true
}

} // verus!

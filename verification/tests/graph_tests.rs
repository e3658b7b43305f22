//! Tests for floor construction, graph validation and adjacency queries.

use floornav::Floor;
use floornav::FloorGraph;
use floornav::GazeDirection;
use floornav::InvalidFloorId;
use floornav::JumpRoute;
use floornav::Position2;

#[test]
fn floor_new_sets_corners_and_no_links() {
    let f = Floor::new(1, 2, 3, 4, 5, 6, 7, 8);
    assert_eq!(f.top_left, Position2 { x: 1, y: 2 });
    assert_eq!(f.top_right, Position2 { x: 3, y: 4 });
    assert_eq!(f.bottom_right, Position2 { x: 5, y: 6 });
    assert_eq!(f.bottom_left, Position2 { x: 7, y: 8 });
    assert_eq!(f.id_left_walking_neighbor, None);
    assert_eq!(f.id_right_walking_neighbor, None);
    assert_eq!(f.id_left_digging_neighbor, None);
    assert_eq!(f.id_right_digging_neighbor, None);
    assert!(f.id_jump_neighbors.is_empty());
}

#[test]
fn default_floor_sits_at_origin() {
    let f = Floor::default();
    assert_eq!(f.top_left, Position2 { x: 0, y: 0 });
    assert_eq!(f.bottom_right, Position2 { x: 0, y: 0 });
    assert_eq!(f.id_left_walking_neighbor, None);
    assert!(f.id_jump_neighbors.is_empty());
    assert_eq!(Position2::default(), Position2 { x: 0, y: 0 });
}

#[test]
fn graph_builder_accepts_valid_links() {
    let mut f0 = Floor::new(0, 0, 0, 0, 0, 0, 0, 0);
    let f1 = Floor::new(0, 0, 0, 0, 0, 0, 0, 0);
    f0.id_right_walking_neighbor = Some(1);
    f0.id_jump_neighbors.push(JumpRoute { id_target: 1, x_jump_start_position: 5 });
    let g = FloorGraph::new(vec![f0, f1]).unwrap();
    assert_eq!(g.floor_count(), 2);
}

#[test]
fn graph_builder_rejects_dangling_walking_link() {
    let mut f0 = Floor::new(0, 0, 0, 0, 0, 0, 0, 0);
    f0.id_left_walking_neighbor = Some(7);
    assert_eq!(FloorGraph::new(vec![f0]).err(), Some(InvalidFloorId));
}

#[test]
fn graph_builder_rejects_dangling_jump_target() {
    let mut f0 = Floor::new(0, 0, 0, 0, 0, 0, 0, 0);
    f0.id_jump_neighbors.push(JumpRoute { id_target: 3, x_jump_start_position: 0 });
    assert_eq!(FloorGraph::new(vec![f0]).err(), Some(InvalidFloorId));
}

#[test]
fn floor_at_resolves_or_reports() {
    let f0 = Floor::new(9, 9, 9, 9, 9, 9, 9, 9);
    let g = FloorGraph::new(vec![f0]).unwrap();
    assert_eq!(g.floor_at(0).unwrap().top_left, Position2 { x: 9, y: 9 });
    assert_eq!(g.floor_at(1).err(), Some(InvalidFloorId));
}

#[test]
fn neighbor_queries_follow_the_side() {
    let mut f0 = Floor::new(0, 0, 0, 0, 0, 0, 0, 0);
    let f1 = Floor::new(0, 0, 0, 0, 0, 0, 0, 0);
    f0.id_left_walking_neighbor = Some(1);
    f0.id_right_digging_neighbor = Some(1);
    let g = FloorGraph::new(vec![f0, f1]).unwrap();
    assert_eq!(g.walking_neighbor(0, GazeDirection::Left).unwrap(), Some(1));
    assert_eq!(g.walking_neighbor(0, GazeDirection::Right).unwrap(), None);
    assert_eq!(g.digging_neighbor(0, GazeDirection::Right).unwrap(), Some(1));
    assert_eq!(g.digging_neighbor(0, GazeDirection::Left).unwrap(), None);
    assert_eq!(g.walking_neighbor(5, GazeDirection::Left).err(), Some(InvalidFloorId));
    assert_eq!(g.digging_neighbor(5, GazeDirection::Left).err(), Some(InvalidFloorId));
}

#[test]
fn jump_routes_are_returned_in_order() {
    let mut f0 = Floor::new(0, 0, 0, 0, 0, 0, 0, 0);
    let f1 = Floor::new(0, 0, 0, 0, 0, 0, 0, 0);
    f0.id_jump_neighbors.push(JumpRoute { id_target: 1, x_jump_start_position: 10 });
    f0.id_jump_neighbors.push(JumpRoute { id_target: 0, x_jump_start_position: 20 });
    let g = FloorGraph::new(vec![f0, f1]).unwrap();
    let routes = g.jump_routes(0).unwrap();
    assert_eq!(routes.len(), 2);
    assert_eq!(routes[0], JumpRoute { id_target: 1, x_jump_start_position: 10 });
    assert_eq!(routes[1], JumpRoute { id_target: 0, x_jump_start_position: 20 });
    assert_eq!(g.jump_routes(9).err(), Some(InvalidFloorId));
}

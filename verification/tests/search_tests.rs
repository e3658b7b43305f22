//! Tests for the shortest-path search over floor graphs and plain
//! adjacency lists.

use floornav::find_path;
use floornav::weightless_breadth_first_search;
use floornav::Floor;
use floornav::FloorGraph;
use floornav::JumpRoute;

/// A floor spanning x in [100*i, 100*i + 100] with its bottom edge at y = 0.
fn plain_floor(i: i64) -> Floor {
    let x0 = 100 * i;
    let x1 = 100 * i + 100;
    Floor::new(x0, 50, x1, 50, x1, 0, x0, 0)
}

fn chain_of_three() -> FloorGraph {
    let mut f0 = plain_floor(0);
    let mut f1 = plain_floor(1);
    let mut f2 = plain_floor(2);
    f0.id_right_walking_neighbor = Some(1);
    f1.id_left_walking_neighbor = Some(0);
    f1.id_right_walking_neighbor = Some(2);
    f2.id_left_walking_neighbor = Some(1);
    FloorGraph::new(vec![f0, f1, f2]).unwrap()
}

#[test]
fn path_self_loop_every_floor() {
    let g = chain_of_three();
    for n in 0..3 {
        assert_eq!(find_path(&g, n, n), Some(vec![]));
    }
}

#[test]
fn path_unreachable_isolated_floor() {
    let mut f0 = plain_floor(0);
    let f1 = plain_floor(1);
    f0.id_right_walking_neighbor = Some(0);
    let g = FloorGraph::new(vec![f0, f1]).unwrap();
    assert_eq!(find_path(&g, 0, 1), None);
}

#[test]
fn path_chain_forward_and_back() {
    let g = chain_of_three();
    assert_eq!(find_path(&g, 0, 2), Some(vec![1, 2]));
    assert_eq!(find_path(&g, 2, 0), Some(vec![1, 0]));
    assert_eq!(find_path(&g, 0, 1), Some(vec![1]));
}

#[test]
fn path_terminates_on_cycle() {
    // 0 -> 1 -> 2 -> 0, a directed cycle.
    let mut f0 = plain_floor(0);
    let mut f1 = plain_floor(1);
    let mut f2 = plain_floor(2);
    f0.id_right_walking_neighbor = Some(1);
    f1.id_right_walking_neighbor = Some(2);
    f2.id_right_walking_neighbor = Some(0);
    let g = FloorGraph::new(vec![f0, f1, f2]).unwrap();
    let p = find_path(&g, 0, 2).unwrap();
    assert_eq!(p, vec![1, 2]);
    // The route never lists more floors than the graph holds.
    assert!(p.len() <= 3);
    // A goal outside the cycle's reach.
    let mut f3 = plain_floor(0);
    let mut f4 = plain_floor(1);
    f3.id_right_walking_neighbor = Some(0);
    f4.id_left_walking_neighbor = Some(1);
    let g2 = FloorGraph::new(vec![f3, f4]).unwrap();
    assert_eq!(find_path(&g2, 0, 1), None);
}

#[test]
fn path_uses_digging_edges() {
    let mut f0 = plain_floor(0);
    let f1 = plain_floor(1);
    f0.id_right_digging_neighbor = Some(1);
    let g = FloorGraph::new(vec![f0, f1]).unwrap();
    assert_eq!(find_path(&g, 0, 1), Some(vec![1]));
}

#[test]
fn path_uses_jump_edges_as_shortcut() {
    // Walking takes three hops 0-1-2-3; a jump route goes straight 0-3.
    let mut f0 = plain_floor(0);
    let mut f1 = plain_floor(1);
    let mut f2 = plain_floor(2);
    let mut f3 = plain_floor(3);
    f0.id_right_walking_neighbor = Some(1);
    f1.id_left_walking_neighbor = Some(0);
    f1.id_right_walking_neighbor = Some(2);
    f2.id_left_walking_neighbor = Some(1);
    f2.id_right_walking_neighbor = Some(3);
    f3.id_left_walking_neighbor = Some(2);
    f0.id_jump_neighbors.push(JumpRoute { id_target: 3, x_jump_start_position: 50 });
    let g = FloorGraph::new(vec![f0, f1, f2, f3]).unwrap();
    assert_eq!(find_path(&g, 0, 3), Some(vec![3]));
}

#[test]
fn bfs_breaks_ties_by_enumeration_order() {
    // Two shortest routes to node 3; the first edge of node 0 wins.
    let adj: Vec<Vec<usize>> = vec![vec![1, 2], vec![3], vec![3], vec![]];
    assert_eq!(weightless_breadth_first_search(&adj, 0, 3), Some(vec![1, 3]));
}

#[test]
fn bfs_prefers_fewest_hops() {
    let adj: Vec<Vec<usize>> = vec![vec![1, 3], vec![2], vec![4], vec![4], vec![]];
    // 0-3-4 has two hops, 0-1-2-4 has three.
    assert_eq!(weightless_breadth_first_search(&adj, 0, 4), Some(vec![3, 4]));
}

#[test]
fn bfs_start_equals_end() {
    let adj: Vec<Vec<usize>> = vec![vec![1], vec![0]];
    assert_eq!(weightless_breadth_first_search(&adj, 1, 1), Some(vec![]));
    // Even an id outside the graph is trivially reachable from itself.
    assert_eq!(weightless_breadth_first_search(&adj, 7, 7), Some(vec![]));
}

#[test]
fn bfs_start_outside_graph() {
    let adj: Vec<Vec<usize>> = vec![vec![1], vec![0]];
    assert_eq!(weightless_breadth_first_search(&adj, 5, 0), None);
}

#[test]
fn bfs_unreachable_returns_none() {
    let adj: Vec<Vec<usize>> = vec![vec![1], vec![0], vec![]];
    assert_eq!(weightless_breadth_first_search(&adj, 0, 2), None);
}

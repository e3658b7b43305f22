//! Tests for the per-tick motion/transition engine, the jump-route
//! decision policy, and the arc functions.

use floornav::advance;
use floornav::jump_function;
use floornav::fall_function;
use floornav::dig_fall_function;
use floornav::select_jump_route;
use floornav::Action;
use floornav::Agent;
use floornav::Floor;
use floornav::FloorGraph;
use floornav::GazeDirection;
use floornav::InvalidFloorId;
use floornav::JumpRoute;
use floornav::Position2;

/// A floor spanning x in [100*i, 100*i + 100] with its bottom edge at y = 0.
fn plain_floor(i: i64) -> Floor {
    let x0 = 100 * i;
    let x1 = 100 * i + 100;
    Floor::new(x0, 50, x1, 50, x1, 0, x0, 0)
}

fn chain_of_three() -> FloorGraph {
    let mut f0 = plain_floor(0);
    let mut f1 = plain_floor(1);
    let mut f2 = plain_floor(2);
    f0.id_right_walking_neighbor = Some(1);
    f1.id_left_walking_neighbor = Some(0);
    f1.id_right_walking_neighbor = Some(2);
    f2.id_left_walking_neighbor = Some(1);
    FloorGraph::new(vec![f0, f1, f2]).unwrap()
}

#[test]
fn convergence_takes_exactly_ceil_of_distance_over_speed() {
    // Walking right on floor 0 toward (100, 20) from (90, 20): distance 10,
    // speed 3, so arrival takes exactly ceil(10 / 3) = 4 ticks.
    let g = chain_of_three();
    let mut agent = Agent::new(Position2::new(90, 20), 0);
    agent.set_action(Action::WalkingRight);
    agent.set_gaze(GazeDirection::Right);
    let mut ticks = 0;
    while agent.position != Position2::new(100, 20) {
        advance(&mut agent, &g).unwrap();
        ticks += 1;
        assert!(ticks < 100);
    }
    assert_eq!(ticks, 4);
    assert_eq!(agent.position, Position2::new(100, 20));
}

#[test]
fn convergence_never_overshoots() {
    let g = chain_of_three();
    let mut agent = Agent::new(Position2::new(92, 20), 0);
    agent.set_action(Action::WalkingRight);
    agent.set_gaze(GazeDirection::Right);
    advance(&mut agent, &g).unwrap();
    assert_eq!(agent.position, Position2::new(95, 20));
    advance(&mut agent, &g).unwrap();
    assert_eq!(agent.position, Position2::new(98, 20));
    advance(&mut agent, &g).unwrap();
    // Remaining distance 2 is below the speed: snap exactly to the target.
    assert_eq!(agent.position, Position2::new(100, 20));
}

#[test]
fn boundary_transition_crosses_to_left_neighbor() {
    let g = chain_of_three();
    // On floor 1 at its left boundary target, gazing left.
    let mut agent = Agent::new(Position2::new(100, 20), 1);
    agent.set_action(Action::WalkingLeft);
    agent.set_gaze(GazeDirection::Left);
    advance(&mut agent, &g).unwrap();
    assert_eq!(agent.current_floor, 0);
    assert_eq!(agent.action, Action::WalkingLeft);
    assert_eq!(agent.gaze, GazeDirection::Left);
}

#[test]
fn boundary_dead_end_reverses_action_and_gaze() {
    let g = chain_of_three();
    // Floor 0 has no left walking neighbor.
    let mut agent = Agent::new(Position2::new(0, 20), 0);
    agent.set_action(Action::WalkingLeft);
    agent.set_gaze(GazeDirection::Left);
    advance(&mut agent, &g).unwrap();
    assert_eq!(agent.current_floor, 0);
    assert_eq!(agent.action, Action::WalkingRight);
    assert_eq!(agent.gaze, GazeDirection::Right);
    assert_eq!(agent.position, Position2::new(0, 20));
}

#[test]
fn three_floor_walk_bounces_and_returns() {
    // An agent starts on floor 1 at its left edge walking left, reaches
    // floor 0's left edge, finds no neighbor there, reverses, and walks
    // back through floor 1 to floor 2.
    let g = chain_of_three();
    let mut agent = Agent::new(Position2::new(100, 20), 1);
    agent.set_action(Action::WalkingLeft);
    agent.set_gaze(GazeDirection::Left);
    let mut reversed = false;
    let mut ticks = 0;
    while agent.current_floor != 2 {
        advance(&mut agent, &g).unwrap();
        ticks += 1;
        if agent.action == Action::WalkingRight && !reversed {
            // The reversal happens at floor 0's left edge.
            assert_eq!(agent.current_floor, 0);
            assert_eq!(agent.position, Position2::new(0, 20));
            assert_eq!(agent.gaze, GazeDirection::Right);
            reversed = true;
        }
        assert!(ticks < 1000);
    }
    assert!(reversed);
    assert_eq!(agent.current_floor, 2);
}

#[test]
fn idle_falling_digging_leave_state_unchanged() {
    let g = chain_of_three();
    for action in [Action::Idle, Action::Falling, Action::Digging] {
        let mut agent = Agent::new(Position2::new(42, 17), 1);
        agent.set_action(action);
        advance(&mut agent, &g).unwrap();
        assert_eq!(agent.position, Position2::new(42, 17));
        assert_eq!(agent.current_floor, 1);
        assert_eq!(agent.action, action);
        assert_eq!(agent.gaze, GazeDirection::Left);
    }
}

#[test]
fn invalid_floor_id_is_reported_and_state_kept() {
    let g = chain_of_three();
    let mut agent = Agent::new(Position2::new(0, 20), 99);
    agent.set_action(Action::WalkingLeft);
    let r = advance(&mut agent, &g);
    assert_eq!(r, Err(InvalidFloorId));
    assert_eq!(agent.current_floor, 99);
    assert_eq!(agent.position, Position2::new(0, 20));
    assert_eq!(agent.action, Action::WalkingLeft);
}

#[test]
fn jump_route_within_one_tick_is_selected() {
    let mut f = plain_floor(0);
    f.id_jump_neighbors.push(JumpRoute { id_target: 4, x_jump_start_position: 52 });
    let r = select_jump_route(&f, 50).unwrap();
    assert_eq!(r, JumpRoute { id_target: 4, x_jump_start_position: 52 });
    // A launch position exactly one walking tick away still qualifies; one
    // unit beyond does not.
    let mut g = plain_floor(0);
    g.id_jump_neighbors.push(JumpRoute { id_target: 4, x_jump_start_position: 53 });
    assert_eq!(select_jump_route(&g, 50).unwrap().id_target, 4);
    assert_eq!(select_jump_route(&g, 49), None);
}

#[test]
fn jump_route_nearest_wins() {
    let mut f = plain_floor(0);
    f.id_jump_neighbors.push(JumpRoute { id_target: 4, x_jump_start_position: 53 });
    f.id_jump_neighbors.push(JumpRoute { id_target: 5, x_jump_start_position: 51 });
    let r = select_jump_route(&f, 50).unwrap();
    assert_eq!(r.id_target, 5);
}

#[test]
fn jump_route_tie_takes_first_in_order() {
    let mut f = plain_floor(0);
    f.id_jump_neighbors.push(JumpRoute { id_target: 4, x_jump_start_position: 52 });
    f.id_jump_neighbors.push(JumpRoute { id_target: 5, x_jump_start_position: 48 });
    let r = select_jump_route(&f, 50).unwrap();
    assert_eq!(r.id_target, 4);
}

#[test]
fn jump_route_none_when_all_too_far() {
    let mut f = plain_floor(0);
    f.id_jump_neighbors.push(JumpRoute { id_target: 4, x_jump_start_position: 60 });
    assert_eq!(select_jump_route(&f, 50), None);
    let empty = plain_floor(1);
    assert_eq!(select_jump_route(&empty, 50), None);
}

#[test]
fn arc_functions_match_the_parabola() {
    // -(4 * 50 / 60^2) * x^2 + 50, evaluated in integer arithmetic.
    assert_eq!(jump_function(0), 50);
    assert_eq!(jump_function(15), 38);
    assert_eq!(jump_function(30), 0);
    assert_eq!(jump_function(-30), 0);
    assert_eq!(jump_function(60), -150);
    assert_eq!(fall_function(30), 0);
    assert_eq!(dig_fall_function(30), 0);
    assert_eq!(fall_function(12), 42);
    assert_eq!(dig_fall_function(-12), 42);
}

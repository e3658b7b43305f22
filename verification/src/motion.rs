//! The per-tick motion/transition engine and the arc functions used for
//! airborne trajectories.

use vstd::prelude::*;

verus! {

use crate::HGT_HUMANOID;
use crate::HGT_JUMP_PARABOLA;
use crate::SPEED_WALKING;
use crate::WDT_JUMP_PARABOLA;
use crate::geometry::COORD_LIMIT;
use crate::geometry::Position2;
use crate::geometry::agent_coord_ok;
use crate::geometry::agent_position_ok;
use crate::graph::Floor;
use crate::graph::FloorGraph;
use crate::graph::GazeDirection;
use crate::graph::InvalidFloorId;
use crate::graph::JumpRoute;
use vstd::arithmetic::div_mod::lemma_div_is_ordered;
use vstd::arithmetic::div_mod::lemma_fundamental_div_mod;

/// The agent's current behavior mode; it selects which boundary of the
/// current floor the motion engine steers toward.
#[derive(Clone, Copy, Debug, PartialEq, Eq, Structural)]
pub enum Action {
    Idle,
    WalkingLeft,
    WalkingRight,
    Falling,
    Digging,
}

/// Vertical offset of the jump parabola at horizontal displacement `x` from
/// the launch point: a downward parabola with peak `HGT_JUMP_PARABOLA` and
/// span `WDT_JUMP_PARABOLA`, evaluated in integer arithmetic with the
/// division rounding toward zero.
pub open spec fn arc_height_offset(x: int) -> int {
    HGT_JUMP_PARABOLA - (4 * HGT_JUMP_PARABOLA * (x * x)) / (WDT_JUMP_PARABOLA * WDT_JUMP_PARABOLA)
}

/// Height of the jump trajectory at horizontal displacement `x` from the
/// launch point.
pub fn jump_function(x: i64) -> (r: i64)
    requires
        -COORD_LIMIT <= x <= COORD_LIMIT,
    ensures
        r == arc_height_offset(x as int),
{
    proof {
        assert(HGT_JUMP_PARABOLA == 50);
        assert(WDT_JUMP_PARABOLA == 60);
        assert(COORD_LIMIT == 1_000_000_000);
    }
    let ax: i64 = if x < 0 {
        -x
    } else {
        x
    };
    assert(ax * ax == x * x && 0 <= ax * ax <= 1_000_000_000_000_000_000) by (nonlinear_arith)
        requires
            -1_000_000_000 <= x <= 1_000_000_000,
            x < 0 ==> ax == -(x as int),
            x >= 0 ==> ax == x,
    ;
    let sq: u128 = (ax as u128) * (ax as u128);
    proof {
        assert(4 * (HGT_JUMP_PARABOLA as u128) * sq <= 200_000_000_000_000_000_000)
            by (nonlinear_arith)
            requires
                HGT_JUMP_PARABOLA == 50,
                sq <= 1_000_000_000_000_000_000,
        ;
        assert((WDT_JUMP_PARABOLA as u128) * (WDT_JUMP_PARABOLA as u128) == 3600)
            by (nonlinear_arith)
            requires
                WDT_JUMP_PARABOLA == 60,
        ;
    }
    let num: u128 = 4 * (HGT_JUMP_PARABOLA as u128) * sq;
    let den: u128 = (WDT_JUMP_PARABOLA as u128) * (WDT_JUMP_PARABOLA as u128);
    let q: u128 = num / den;
    proof {
        lemma_div_is_ordered(num as int, 200_000_000_000_000_000_000, den as int);
        assert(200_000_000_000_000_000_000int / 3600 < 0x7fff_ffff_ffff_ffff);
    }
    HGT_JUMP_PARABOLA - (q as i64)
}

/// Height of the fall trajectory at horizontal displacement `x`; the same
/// parabola as the jump trajectory.
pub fn fall_function(x: i64) -> (r: i64)
    requires
        -COORD_LIMIT <= x <= COORD_LIMIT,
    ensures
        r == arc_height_offset(x as int),
{
    jump_function(x)
}

/// Height of the dig-fall trajectory at horizontal displacement `x`; the
/// same parabola as the jump trajectory.
pub fn dig_fall_function(x: i64) -> (r: i64)
    requires
        -COORD_LIMIT <= x <= COORD_LIMIT,
    ensures
        r == arc_height_offset(x as int),
{
    jump_function(x)
}

/// The moving entity: a continuous position, the floor it logically stands
/// on, a facing direction, a behavior mode, and an optional precomputed
/// route for an external steering policy to consume.
#[derive(Clone, Debug)]
pub struct Agent {
    pub position: Position2,
    pub current_floor: usize,
    pub gaze: GazeDirection,
    pub action: Action,
    pub path: Vec<usize>,
}

impl Agent {
    /// A new agent standing on `current_floor` at `position`, idle and
    /// gazing left, with no precomputed route.
    pub fn new(position: Position2, current_floor: usize) -> (agent: Agent)
        ensures
            agent.position == position,
            agent.current_floor == current_floor,
            agent.gaze == GazeDirection::Left,
            agent.action == Action::Idle,
            agent.path@ == Seq::<usize>::empty(),
    {
        Agent {
            position,
            current_floor,
            gaze: GazeDirection::Left,
            action: Action::Idle,
            path: Vec::new(),
        }
    }

    /// Sets the behavior mode; the input layer's intent entry point.
    pub fn set_action(&mut self, action: Action)
        ensures
            *final(self) == (Agent { action, ..*old(self) }),
    {
        self.action = action;
    }

    /// Sets the facing direction; the input layer's intent entry point.
    pub fn set_gaze(&mut self, gaze: GazeDirection)
        ensures
            *final(self) == (Agent { gaze, ..*old(self) }),
    {
        self.gaze = gaze;
    }

    /// Stores a precomputed route for an external steering policy.
    pub fn set_path(&mut self, path: Vec<usize>)
        ensures
            *final(self) == (Agent { path, ..*old(self) }),
    {
        self.path = path;
    }
}

/// Magnitude of an integer displacement.
pub open spec fn abs_int(d: int) -> int {
    if d < 0 {
        -d
    } else {
        d
    }
}

/// One axis of a walking tick: move by at most the walking speed toward
/// the target coordinate.
pub open spec fn clamp_step(d: int) -> int {
    if d > SPEED_WALKING {
        SPEED_WALKING as int
    } else if d < -SPEED_WALKING {
        -(SPEED_WALKING as int)
    } else {
        d
    }
}

/// One walking tick of motion from `p` toward the fixed target `t`.
pub open spec fn step_position(p: Position2, t: Position2) -> Position2 {
    Position2 {
        x: (p.x + clamp_step(t.x - p.x)) as i64,
        y: (p.y + clamp_step(t.y - p.y)) as i64,
    }
}

/// The target is within one tick of motion: the tick snaps the position
/// exactly onto the target.
pub open spec fn arrived(p: Position2, t: Position2) -> bool {
    abs_int(t.x - p.x) <= SPEED_WALKING && abs_int(t.y - p.y) <= SPEED_WALKING
}

/// The distance that walking covers at a fixed rate per tick: the larger
/// of the two axis displacements.
pub open spec fn chebyshev(p: Position2, t: Position2) -> int {
    let dx = abs_int(t.x - p.x);
    let dy = abs_int(t.y - p.y);
    if dx >= dy {
        dx
    } else {
        dy
    }
}

/// The boundary point the walking action steers toward: the matching
/// bottom corner, raised by half the agent height so the agent's origin
/// sits centered on its body.
pub open spec fn walk_target(f: Floor, action: Action) -> Position2 {
    let c = if action == Action::WalkingLeft {
        f.bottom_left
    } else {
        f.bottom_right
    };
    Position2 { x: c.x, y: (c.y + HGT_HUMANOID / 2) as i64 }
}

/// The walking neighbor consulted on arrival, chosen by gaze direction.
pub open spec fn walk_neighbor(f: Floor, gaze: GazeDirection) -> Option<usize> {
    match gaze {
        GazeDirection::Left => f.id_left_walking_neighbor,
        GazeDirection::Right => f.id_right_walking_neighbor,
    }
}

/// The action after bouncing off a dead end while gazing this way.
pub open spec fn reversed_action(gaze: GazeDirection) -> Action {
    match gaze {
        GazeDirection::Left => Action::WalkingRight,
        GazeDirection::Right => Action::WalkingLeft,
    }
}

/// The gaze after bouncing off a dead end.
pub open spec fn reversed_gaze(gaze: GazeDirection) -> GazeDirection {
    match gaze {
        GazeDirection::Left => GazeDirection::Right,
        GazeDirection::Right => GazeDirection::Left,
    }
}

/// The agent state after one walking tick on its current floor `f`: one
/// tick of motion toward the walk target; on arrival the position snaps to
/// the target and the crossing resolves, either to the gaze-side walking
/// neighbor or, at a dead end, by reversing action and gaze in place.
pub open spec fn walk_tick(agent: Agent, f: Floor) -> Agent {
    let t = walk_target(f, agent.action);
    let np = step_position(agent.position, t);
    if arrived(agent.position, t) {
        match walk_neighbor(f, agent.gaze) {
            Option::Some(k) => Agent {
                position: np,
                current_floor: k,
                gaze: agent.gaze,
                action: agent.action,
                path: agent.path,
            },
            Option::None => Agent {
                position: np,
                current_floor: agent.current_floor,
                gaze: reversed_gaze(agent.gaze),
                action: reversed_action(agent.gaze),
                path: agent.path,
            },
        }
    } else {
        Agent {
            position: np,
            current_floor: agent.current_floor,
            gaze: agent.gaze,
            action: agent.action,
            path: agent.path,
        }
    }
}

/// One axis of a walking tick, executably.
fn clamp_speed(d: i64) -> (r: i64)
    requires
        -4_000_000_000 <= d <= 4_000_000_000,
    ensures
        r == clamp_step(d as int),
{
    if d > SPEED_WALKING {
        SPEED_WALKING
    } else if d < -SPEED_WALKING {
        -SPEED_WALKING
    } else {
        d
    }
}

/// Advances `agent` by one simulation tick over the read-only floor graph.
///
/// A walking action steers toward the matching bottom corner of the current
/// floor at a fixed speed per tick, never overshooting; on arrival the
/// position snaps exactly onto the target and the agent either crosses to
/// the gaze-side walking neighbor or, at a dead end, reverses action and
/// gaze.  `Idle` keeps the state unchanged.  `Falling` and `Digging`
/// likewise leave the state unchanged this tick: full airborne and digging
/// kinematics (driven by the arc functions and the digging neighbors) are a
/// documented extension point.  A `current_floor` that does not resolve to
/// a floor is a fatal invariant violation, reported as `InvalidFloorId`
/// with the agent untouched.  The coordinate bounds in `requires` keep
/// every displacement inside `i64`, so the motion arithmetic is exact.
pub fn advance(agent: &mut Agent, graph: &FloorGraph) -> (r: Result<(), InvalidFloorId>)
    requires
        graph.wf(),
        graph.coords_in_world(),
        agent_position_ok(old(agent).position),
    ensures
        (old(agent).action == Action::Idle || old(agent).action == Action::Falling || old(
            agent,
        ).action == Action::Digging) ==> r is Ok && *final(agent) == *old(agent),
        (old(agent).action == Action::WalkingLeft || old(agent).action == Action::WalkingRight)
            ==> ({
            if old(agent).current_floor < graph.floors@.len() {
                r is Ok && *final(agent) == walk_tick(
                    *old(agent),
                    graph.floors@[old(agent).current_floor as int],
                )
            } else {
                r == Err::<(), InvalidFloorId>(InvalidFloorId) && *final(agent) == *old(agent)
            }
        }),
        agent_position_ok(final(agent).position),
{
    let walking_left = agent.action == Action::WalkingLeft;
    let walking_right = agent.action == Action::WalkingRight;
    if !walking_left && !walking_right {
        return Ok(());
    }
    if agent.current_floor >= graph.floors.len() {
        return Err(InvalidFloorId);
    }
    let f = &graph.floors[agent.current_floor];
    proof {
        assert(f.coords_in_world());
    }
    let cx = if walking_left {
        f.bottom_left.x
    } else {
        f.bottom_right.x
    };
    let cy = if walking_left {
        f.bottom_left.y
    } else {
        f.bottom_right.y
    };
    let ty = cy + HGT_HUMANOID / 2;
    let ghost t = walk_target(*f, agent.action);
    proof {
        assert(HGT_HUMANOID / 2 == 20);
        assert(t.x == cx && t.y == ty);
    }
    let dx = cx - agent.position.x;
    let dy = ty - agent.position.y;
    if -SPEED_WALKING <= dx && dx <= SPEED_WALKING && -SPEED_WALKING <= dy && dy
        <= SPEED_WALKING {
        proof {
            assert(arrived(old(agent).position, t));
            assert(step_position(old(agent).position, t) == t);
        }
        agent.position = Position2 { x: cx, y: ty };
        let go_left = agent.gaze == GazeDirection::Left;
        let neighbor = if go_left {
            f.id_left_walking_neighbor
        } else {
            f.id_right_walking_neighbor
        };
        match neighbor {
            Some(k) => {
                agent.current_floor = k;
            },
            None => {
                if go_left {
                    agent.action = Action::WalkingRight;
                    agent.gaze = GazeDirection::Right;
                } else {
                    agent.action = Action::WalkingLeft;
                    agent.gaze = GazeDirection::Left;
                }
            },
        }
        Ok(())
    } else {
        let sx = clamp_speed(dx);
        let sy = clamp_speed(dy);
        agent.position = Position2 { x: agent.position.x + sx, y: agent.position.y + sy };
        proof {
            assert(!arrived(old(agent).position, t));
            assert(agent.position == step_position(old(agent).position, t));
        }
        Ok(())
    }
}

/// Distance between a jump route's launch position and a horizontal
/// coordinate.
pub open spec fn route_dist(r: JumpRoute, x: int) -> int {
    abs_int(r.x_jump_start_position - x)
}

/// Decision policy for launching a jump from horizontal position `x` on
/// floor `f`: the nearest jump route whose launch position lies within one
/// walking tick of `x`; among equally near routes, the first in route
/// order.  `None` exactly when no route's launch position is that close.
pub fn select_jump_route(f: &Floor, x: i64) -> (r: Option<JumpRoute>)
    requires
        f.coords_in_world(),
        agent_coord_ok(x),
    ensures
        ({
            let routes = f.id_jump_neighbors@;
            match r {
                Some(jr) => {
                    &&& route_dist(jr, x as int) <= SPEED_WALKING
                    &&& forall|k: int|
                        0 <= k < routes.len() ==> route_dist(#[trigger] routes[k], x as int)
                            >= route_dist(jr, x as int)
                    &&& exists|i: int|
                        0 <= i < routes.len() && routes[i] == jr && forall|k: int|
                            0 <= k < i ==> route_dist(#[trigger] routes[k], x as int) > route_dist(
                                jr,
                                x as int,
                            )
                },
                None => forall|k: int|
                    0 <= k < routes.len() ==> route_dist(#[trigger] routes[k], x as int)
                        > SPEED_WALKING,
            }
        }),
{
    let m = f.id_jump_neighbors.len();
    if m == 0 {
        return None;
    }
    let mut best_i: usize = 0;
    let mut best_d: i64 = route_dist_exec(&f.id_jump_neighbors[0], x);
    let mut i: usize = 1;
    while i < m
        invariant
            m == f.id_jump_neighbors@.len(),
            f.coords_in_world(),
            agent_coord_ok(x),
            1 <= i <= m,
            best_i < i,
            best_d == route_dist(f.id_jump_neighbors@[best_i as int], x as int),
            forall|k: int|
                0 <= k < best_i ==> route_dist(#[trigger] f.id_jump_neighbors@[k], x as int)
                    > best_d,
            forall|k: int|
                0 <= k < i ==> route_dist(#[trigger] f.id_jump_neighbors@[k], x as int) >= best_d,
        decreases m - i,
    {
        let d = route_dist_exec(&f.id_jump_neighbors[i], x);
        if d < best_d {
            best_i = i;
            best_d = d;
        }
        i += 1;
    }
    if best_d <= SPEED_WALKING {
        Some(f.id_jump_neighbors[best_i])
    } else {
        None
    }
}

/// Distance between a jump route's launch position and `x`, executably.
fn route_dist_exec(r: &JumpRoute, x: i64) -> (d: i64)
    requires
        crate::geometry::coord_in_world(r.x_jump_start_position),
        agent_coord_ok(x),
    ensures
        d == route_dist(*r, x as int),
{
    let diff = r.x_jump_start_position - x;
    if diff < 0 {
        -diff
    } else {
        diff
    }
}

/// Position after `k` walking ticks toward the fixed target `t`.
pub open spec fn iterate_step(p: Position2, t: Position2, k: nat) -> Position2
    decreases k,
{
    if k == 0 {
        p
    } else {
        step_position(iterate_step(p, t, (k - 1) as nat), t)
    }
}

/// One axis coordinate after `k` walking ticks from `x` toward `tx`.
pub open spec fn axis_after(x: int, tx: int, k: nat) -> int {
    if tx >= x {
        if x + k * SPEED_WALKING >= tx {
            tx
        } else {
            x + k * SPEED_WALKING
        }
    } else {
        if x - k * SPEED_WALKING <= tx {
            tx
        } else {
            x - k * SPEED_WALKING
        }
    }
}

/// After `k` walking ticks each coordinate has closed its gap to the
/// target by exactly the walking speed per tick, capped at the target.
proof fn lemma_axis_progress(p: Position2, t: Position2, k: nat)
    requires
        agent_position_ok(p),
        agent_position_ok(t),
    ensures
        iterate_step(p, t, k).x == axis_after(p.x as int, t.x as int, k),
        iterate_step(p, t, k).y == axis_after(p.y as int, t.y as int, k),
        agent_position_ok(iterate_step(p, t, k)),
    decreases k,
{
    if k > 0 {
        lemma_axis_progress(p, t, (k - 1) as nat);
        assert((k - 1) * SPEED_WALKING == k * SPEED_WALKING - SPEED_WALKING) by (nonlinear_arith);
    }
}

/// The number of walking ticks needed to reach `t` from `p`: the Chebyshev
/// distance divided by the walking speed, rounded up.
pub open spec fn ticks_to_arrive(p: Position2, t: Position2) -> nat {
    ((chebyshev(p, t) + SPEED_WALKING - 1) / (SPEED_WALKING as int)) as nat
}

/// Motion convergence law: walking from `p` toward a fixed target `t` at
/// the fixed per-tick speed reaches `t` after exactly as many ticks as the
/// distance demands — the position equals the target precisely when the
/// ticks taken cover the distance.
pub proof fn lemma_motion_convergence(p: Position2, t: Position2, k: nat)
    requires
        agent_position_ok(p),
        agent_position_ok(t),
    ensures
        iterate_step(p, t, k) == t <==> k * SPEED_WALKING >= chebyshev(p, t),
{
    lemma_axis_progress(p, t, k);
    assert(k * SPEED_WALKING >= 0) by (nonlinear_arith)
        requires
            k >= 0,
    ;
}

/// Motion convergence law, tick-count form: arrival takes exactly
/// `ticks_to_arrive` ticks — the distance divided by the speed, rounded up
/// — and the position then equals the target exactly, with no residual
/// offset.  Each walking call of [`advance`] performs one such tick of
/// motion (see [`walk_tick`]), so this bounds the walk to any boundary.
pub proof fn lemma_arrival_tick_count(p: Position2, t: Position2)
    requires
        agent_position_ok(p),
        agent_position_ok(t),
    ensures
        iterate_step(p, t, ticks_to_arrive(p, t)) == t,
        forall|k: nat| k < ticks_to_arrive(p, t) ==> iterate_step(p, t, k) != t,
{
    let d = chebyshev(p, t);
    let s = SPEED_WALKING as int;
    let c = (d + s - 1) / s;
    lemma_fundamental_div_mod(d + s - 1, s);
    let rem = (d + s - 1) % s;
    assert(d + s - 1 == s * c + rem);
    assert(c * s >= d) by (nonlinear_arith)
        requires
            d + s - 1 == s * c + rem,
            0 <= rem < s,
            s == 3,
    ;
    lemma_motion_convergence(p, t, c as nat);
    assert(c as nat * SPEED_WALKING == c * s);
    assert forall|k: nat| k < ticks_to_arrive(p, t) implies iterate_step(p, t, k) != t by {
        lemma_motion_convergence(p, t, k);
        assert(k * s < d) by (nonlinear_arith)
            requires
                d + s - 1 == s * c + rem,
                0 <= rem < s,
                s == 3,
                k < c,
                k >= 0,
        ;
    }
}

} // verus!

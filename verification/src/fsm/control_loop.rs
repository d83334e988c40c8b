//! One tick of the 10 Hz control loop: a pure step from the agent's context (and
//! the reservation table) to the next context and the commands for this tick.
use crate::fsm::{jitter_seed, AgentContext, AgentState};
use crate::planner::d_sipp::{
    cheap_slots, d_sipp, fits_budget, MAX_EXPANSIONS, lemma_waypoint_windows, starts_at_goal, valid_search_path, waypoints_of, Trajectory,
    Waypoint,
};
use crate::planner::graph::{cell_x, cell_y, SpatialGraph};
use crate::planner::heading::KinematicState;
use crate::space_time::reservation::{
    cell_list, derefs, in_range, spec_cell_insert, table_keeps, KeepRule, Reservation,
    ReservationTable,
};
use crate::space_time::{spec_abs, CellID, Heading, SafeInterval, Tick};
use vstd::prelude::*;

verus! {

/// Failed planning attempts tolerated before yielding.
pub const MAX_PLAN_ATTEMPTS: u8 = 5u8;

/// Ticks spent yielding before replanning.
pub const YIELD_WAIT_TICKS: u8 = 2u8;

/// Battery level below which the agent drops its task and goes charging.
pub const BATTERY_LOW_PCT: u8 = 15u8;

/// The reservation table is cleaned every this many ticks.
pub const GC_INTERVAL: Tick = 50u32;

/// Intents older than this many ticks are stale.
pub const STALENESS_THRESHOLD: Tick = 100u32;

/// Where the motors should take the robot this tick.
#[derive(Debug, Clone, Copy, PartialEq, Eq, Structural)]
pub struct MotorTarget {
    pub cell: CellID,
    pub heading: Heading,
    pub t_arrive: Tick,
}

/// What the caller must do after a tick.
#[derive(Debug)]
pub struct TickOutput {
    /// Stop the motors.
    pub motor_halt: bool,
    /// Drive toward this target.
    pub motor_target: Option<MotorTarget>,
    /// Broadcast this trajectory as an INTENT.
    pub broadcast_intent: Option<Trajectory>,
    /// Broadcast an emergency halt.
    pub broadcast_halt: bool,
    /// Task dropped for a low battery.
    pub abort_task: Option<u16>,
    /// Task completed.
    pub task_complete: Option<u16>,
}

impl Default for TickOutput {
    fn default() -> (r: Self)
        ensures
            !r.motor_halt,
            r.motor_target is None,
            r.broadcast_intent is None,
            !r.broadcast_halt,
            r.abort_task is None,
            r.task_complete is None,
    {
        TickOutput {
            motor_halt: false,
            motor_target: None,
            broadcast_intent: None,
            broadcast_halt: false,
            abort_task: None,
            task_complete: None,
        }
    }
}

/// The battery is low and the agent is neither charging nor already on its way
/// to its charger.
pub open spec fn battery_override(c: AgentContext) -> bool {
    c.battery_pct < BATTERY_LOW_PCT && c.state != AgentState::Charging && c.goal_cell != Some(
        c.charger_cell,
    )
}

/// The context once the low-battery override has run: the task is dropped and
/// the agent heads to its charger.
pub open spec fn after_override(c: AgentContext) -> AgentContext {
    if battery_override(c) {
        AgentContext {
            goal_cell: Some(c.charger_cell),
            task_id: None,
            trajectory: None,
            wp_index: 0,
            plan_attempts: 0,
            state: AgentState::Charging,
            ..c
        }
    } else {
        c
    }
}

/// The states in which the loop plans.
pub open spec fn is_planning_state(s: AgentState) -> bool {
    s == AgentState::Planning || s == AgentState::Replanning || s == AgentState::Charging
}

/// The states in which the loop counts waiting ticks.
pub open spec fn is_waiting_state(s: AgentState) -> bool {
    s == AgentState::Yielding || s == AgentState::YieldingParked || s
        == AgentState::KinematicReverse
}

/// Initial heading toward the goal: along the larger of the two offsets (east or
/// west on a tie), toward the goal.
pub open spec fn spec_infer_heading(g: &SpatialGraph, from: CellID, to: CellID) -> Heading {
    let dx = cell_x(g, to as int) - cell_x(g, from as int);
    let dy = cell_y(g, to as int) - cell_y(g, from as int);
    if spec_abs(dx) >= spec_abs(dy) {
        if dx >= 0 {
            Heading::E
        } else {
            Heading::W
        }
    } else {
        if dy >= 0 {
            Heading::S
        } else {
            Heading::N
        }
    }
}

/// The first agent other than `me` among the bookings, in list order.
pub open spec fn first_other_agent(rs: Seq<Reservation>, me: u8) -> Option<u8>
    decreases rs.len(),
{
    if rs.len() == 0 {
        None
    } else if rs[0].agent_id != me {
        Some(rs[0].agent_id)
    } else {
        first_other_agent(rs.drop_first(), me)
    }
}

/// The first other agent holding the cell at the tick.
pub open spec fn spec_conflict(m: Map<CellID, Seq<Reservation>>, cell: CellID, tick: Tick, me: u8) -> Option<u8> {
    first_other_agent(cell_list(m, cell).filter(in_range(tick, (tick + 1) as u32)), me)
}

/// The table after booking every waypoint, in order, for `agent`.
pub open spec fn reserve_all(
    m: Map<CellID, Seq<Reservation>>,
    wps: Seq<Waypoint>,
    agent: u8,
) -> Map<CellID, Seq<Reservation>>
    decreases wps.len(),
{
    if wps.len() == 0 {
        m
    } else {
        let prev = reserve_all(m, wps.drop_last(), agent);
        let w = wps.last();
        prev.insert(
            w.cell,
            spec_cell_insert(
                cell_list(prev, w.cell),
                Reservation { agent_id: agent, t_start: w.t_arrive, t_end: w.t_depart, trajectory_hash: 0 },
            ),
        )
    }
}

/// The periodic clean-up: every `GC_INTERVAL` ticks (not at tick 0), bookings
/// that have ended are dropped.
pub open spec fn gc_at(m: Map<CellID, Seq<Reservation>>, tick: Tick) -> Map<CellID, Seq<Reservation>> {
    if tick % GC_INTERVAL == 0 && tick > 0 {
        table_keeps(m, KeepRule::EndsAfter(tick))
    } else {
        m
    }
}

/// The output says only that the motors stop (or not).
pub open spec fn halt_only(out: &TickOutput, halt: bool) -> bool {
    &&& out.motor_halt == halt
    &&& out.motor_target is None
    &&& out.broadcast_intent is None
    &&& !out.broadcast_halt
    &&& out.task_complete is None
}

/// The next context of a waiting state: one more tick waited, or (when `done`)
/// the count restarts and the agent moves to `next`.
pub open spec fn waited(c: AgentContext, done: bool, next: AgentState) -> AgentContext {
    if done {
        AgentContext { yield_wait: 0, state: next, ..c }
    } else {
        AgentContext { yield_wait: (c.yield_wait + 1) as u8, ..c }
    }
}

/// Result of one tick, for the context `c` after the battery override, the final
/// context `n` (before the tick counter moves on), the output, the table before
/// (`t0`) and the bookings before the periodic clean-up (`mid`).
pub open spec fn step_post(
    c: AgentContext,
    n: AgentContext,
    out: &TickOutput,
    t0: &ReservationTable,
    mid: Map<CellID, Seq<Reservation>>,
    g: &SpatialGraph,
) -> bool {
    let m = t0.booked();
    match c.state {
        AgentState::Idle => n == c && mid == m && halt_only(out, true),
        AgentState::Planning | AgentState::Replanning | AgentState::Charging => {
            &&& out.motor_halt
            &&& out.motor_target is None
            &&& !out.broadcast_halt
            &&& out.task_complete is None
            &&& match c.goal_cell {
                None => n == c && mid == m && out.broadcast_intent is None,
                Some(goal) => {
                    let start = KinematicState {
                        cell: c.cell,
                        heading: spec_infer_heading(g, c.cell, goal),
                        interval: SafeInterval { t_start: c.tick, t_end: (c.tick + 200) as u32 },
                    };
                    &&& starts_at_goal(start, goal, None) ==> (n.trajectory matches Some(traj)
                        && traj.waypoints@ == waypoints_of(seq![start]))
                    &&& fits_budget(start, g) && (exists|states: Seq<KinematicState>|
                        #[trigger] valid_search_path(states, start, goal, None, g, t0))
                        ==> n.state == AgentState::Executing
                    &&& (start.cell as int) < g.width * g.height && g.connectivity != 8 && (exists|
                        states: Seq<KinematicState>,
                    |
                        #[trigger] valid_search_path(states, start, goal, None, g, t0) && 1 + 9
                            * cheap_slots(g, goal, None, states.last().interval.t_start as int).len()
                            <= MAX_EXPANSIONS) ==> n.state == AgentState::Executing
                    &&& {
                    ||| {
                        // a path was found: it is broadcast, booked and followed
                        &&& n.trajectory matches Some(traj) && {
                            &&& exists|states: Seq<KinematicState>|
                                {
                                    &&& #[trigger] valid_search_path(states, start, goal, None, g, t0)
                                    &&& traj.waypoints@ == waypoints_of(states)
                                    &&& traj.total_ticks == states.last().interval.t_end
                                }
                            &&& g.connectivity != 8 ==> forall|states: Seq<KinematicState>|
                                #[trigger] valid_search_path(states, start, goal, None, g, t0)
                                    ==> traj.waypoints@.last().t_arrive <= states.last().interval.t_start
                            &&& out.broadcast_intent matches Some(b) && b.waypoints@
                                == traj.waypoints@ && b.total_ticks == traj.total_ticks
                            &&& mid == reserve_all(m, traj.waypoints@, c.agent_id)
                        }
                        &&& n == AgentContext {
                            trajectory: n.trajectory,
                            wp_index: 0,
                            plan_attempts: 0,
                            state: AgentState::Executing,
                            ..c
                        }
                    }
                    ||| {
                        // no path: one more attempt; past the limit, yield
                        &&& out.broadcast_intent is None
                        &&& mid == m
                        &&& if c.plan_attempts + 1 > MAX_PLAN_ATTEMPTS {
                            n == AgentContext {
                                yield_count: if c.yield_count < 255 {
                                    (c.yield_count + 1) as u8
                                } else {
                                    255u8
                                },
                                plan_attempts: 0,
                                state: AgentState::Yielding,
                                ..c
                            }
                        } else {
                            n == AgentContext { plan_attempts: (c.plan_attempts + 1) as u8, ..c }
                        }
                    }
                    }
                },
            }
        },
        AgentState::Executing => match c.trajectory {
            None => n == AgentContext { state: AgentState::Idle, ..c } && mid == m && halt_only(
                out,
                false,
            ),
            Some(traj) => if c.wp_index >= traj.waypoints@.len() {
                &&& n == AgentContext {
                    yield_count: 0,
                    trajectory: None,
                    goal_cell: None,
                    task_id: None,
                    state: AgentState::Idle,
                    ..c
                }
                &&& mid == m
                &&& !out.motor_halt
                &&& out.motor_target is None
                &&& out.broadcast_intent is None
                &&& !out.broadcast_halt
                &&& out.task_complete == c.task_id
            } else {
                let w = traj.waypoints@[c.wp_index as int];
                if spec_conflict(m, w.cell, w.t_arrive, c.agent_id) is Some {
                    &&& n == AgentContext {
                        yield_count: if c.yield_count < 255 {
                            (c.yield_count + 1) as u8
                        } else {
                            255u8
                        },
                        state: AgentState::Yielding,
                        ..c
                    }
                    &&& mid == table_keeps(m, KeepRule::NotOfAgent(c.agent_id))
                    &&& halt_only(out, false)
                } else {
                    &&& n == AgentContext { cell: w.cell, wp_index: (c.wp_index + 1) as usize, ..c }
                    &&& mid == m
                    &&& !out.motor_halt
                    &&& out.motor_target == Some(
                        MotorTarget { cell: w.cell, heading: w.heading, t_arrive: w.t_arrive },
                    )
                    &&& out.broadcast_intent is None
                    &&& !out.broadcast_halt
                    &&& out.task_complete is None
                }
            },
        },
        AgentState::Yielding => {
            let yw = c.yield_wait + 1;
            &&& mid == m
            &&& out.motor_halt
            &&& out.motor_target is None
            &&& out.broadcast_intent is None
            &&& out.task_complete is None
            &&& out.broadcast_halt == (c.yield_count > 25)
            &&& if c.yield_count > 25 {
                n == waited(c, yw >= 50, AgentState::Replanning)
            } else if c.yield_count > 10 {
                n == waited(
                    c,
                    yw >= 5 + (jitter_seed(c.agent_id, c.tick) as int) % 16,
                    AgentState::Replanning,
                )
            } else {
                n == waited(c, yw >= YIELD_WAIT_TICKS, AgentState::Replanning)
            }
        },
        AgentState::YieldingPullover => n == AgentContext { state: AgentState::YieldingParked, ..c }
            && mid == m && halt_only(out, true),
        AgentState::YieldingParked => n == waited(c, c.yield_wait + 1 >= 10, AgentState::Replanning)
            && mid == m && halt_only(out, true),
        AgentState::Blocked => n == AgentContext {
            trajectory: None,
            wp_index: 0,
            state: AgentState::Replanning,
            ..c
        } && mid == m && halt_only(out, true),
        AgentState::KinematicReverse => n == waited(
            c,
            c.yield_wait + 1 >= 3,
            AgentState::YieldingParked,
        ) && mid == m && halt_only(out, false),
    }
}

/// A copy of a trajectory, waypoint by waypoint.
fn copy_trajectory(t: &Trajectory) -> (r: Trajectory)
    ensures
        r.waypoints@ == t.waypoints@,
        r.total_ticks == t.total_ticks,
{
    let mut waypoints: Vec<Waypoint> = Vec::new();
    let mut i: usize = 0;
    while i < t.waypoints.len()
        invariant
            i <= t.waypoints@.len(),
            waypoints@ == t.waypoints@.take(i as int),
        decreases t.waypoints@.len() - i,
    {
        waypoints.push(t.waypoints[i]);
        proof {
            assert(waypoints@ =~= t.waypoints@.take(i + 1));
        }
        i = i + 1;
    }
    assert(t.waypoints@.take(t.waypoints@.len() as int) =~= t.waypoints@);
    Trajectory { waypoints, total_ticks: t.total_ticks }
}

/// Books every waypoint of a trajectory for the agent, in order.
fn reserve_trajectory(table: &mut ReservationTable, wps: &Vec<Waypoint>, agent_id: u8)
    requires
        old(table).wf(),
        forall|i: int| 0 <= i < wps@.len() ==> #[trigger] wps@[i].t_arrive <= wps@[i].t_depart,
    ensures
        final(table).wf(),
        final(table).booked() == reserve_all(old(table).booked(), wps@, agent_id),
{
    let mut i: usize = 0;
    while i < wps.len()
        invariant
            i <= wps@.len(),
            table.wf(),
            forall|j: int| 0 <= j < wps@.len() ==> #[trigger] wps@[j].t_arrive <= wps@[j].t_depart,
            table.booked() == reserve_all(old(table).booked(), wps@.take(i as int), agent_id),
        decreases wps@.len() - i,
    {
        let wp = wps[i];
        assert(wps@[i as int].t_arrive <= wps@[i as int].t_depart);
        let _ = table.insert_interval(wp.cell, agent_id, SafeInterval::new(wp.t_arrive, wp.t_depart), 0);
        proof {
            assert(wps@.take(i + 1).drop_last() =~= wps@.take(i as int));
            assert(wps@.take(i + 1).last() == wp);
        }
        i = i + 1;
    }
    assert(wps@.take(wps@.len() as int) =~= wps@);
}

/// The first agent other than `my_id` that holds `cell` at `tick`.
fn check_conflict(cell: CellID, tick: Tick, my_id: u8, table: &ReservationTable) -> (r: Option<u8>)
    requires
        tick < u32::MAX,
    ensures
        r == spec_conflict(table.booked(), cell, tick, my_id),
{
    let reservations = table.query(cell, tick, tick + 1);
    let ghost rs = derefs(reservations@);
    assert(rs.subrange(0, rs.len() as int) =~= rs);
    let mut i: usize = 0;
    while i < reservations.len()
        invariant
            i <= reservations@.len(),
            rs == derefs(reservations@),
            rs.len() == reservations@.len(),
            tick < u32::MAX,
            rs == cell_list(table.booked(), cell).filter(in_range(tick, (tick + 1) as u32)),
            first_other_agent(rs, my_id) == first_other_agent(rs.subrange(i as int, rs.len() as int), my_id),
        decreases reservations@.len() - i,
    {
        let r = reservations[i];
        assert(r.agent_id == rs[i as int].agent_id);
        assert(rs.subrange(i as int, rs.len() as int).drop_first() =~= rs.subrange(i + 1, rs.len() as int));
        if r.agent_id != my_id {
            assert(rs.subrange(i as int, rs.len() as int)[0] == rs[i as int]);
            return Some(r.agent_id);
        }
        i = i + 1;
    }
    assert(rs.subrange(i as int, rs.len() as int).len() == 0);
    None
}

/// Initial heading from the current cell toward the goal.
fn infer_heading(from: CellID, to: CellID, graph: &SpatialGraph) -> (h: Heading)
    requires
        graph.width > 0,
    ensures
        h == spec_infer_heading(graph, from, to),
{
    let (fx, fy) = graph.coordinate(from);
    let (tx, ty) = graph.coordinate(to);
    let dx: i32 = tx as i32 - fx as i32;
    let dy: i32 = ty as i32 - fy as i32;
    let adx: i32 = if dx < 0 { -dx } else { dx };
    let ady: i32 = if dy < 0 { -dy } else { dy };
    if adx >= ady {
        if dx >= 0 {
            Heading::E
        } else {
            Heading::W
        }
    } else {
        if dy >= 0 {
            Heading::S
        } else {
            Heading::N
        }
    }
}

/// Runs one tick of the control loop for one agent: the low-battery override,
/// the step of the current state, the periodic clean-up of the table, and the
/// tick counter. The caller performs the I/O the output asks for.
pub fn tick(ctx: &mut AgentContext, graph: &SpatialGraph, res_table: &mut ReservationTable) -> (output: TickOutput)
    requires
        graph.width > 0,
        graph.width * graph.height <= 65536,
        old(res_table).wf(),
        old(ctx).tick + 200 <= u32::MAX,
        !battery_override(*old(ctx)) && is_planning_state(old(ctx).state) ==> old(ctx).plan_attempts < 255,
        !battery_override(*old(ctx)) && is_waiting_state(old(ctx).state) ==> old(ctx).yield_wait < 255,
        !battery_override(*old(ctx)) && old(ctx).state == AgentState::Executing ==> (old(ctx).trajectory matches Some(t)
            ==> (old(ctx).wp_index < t.waypoints@.len() ==> t.waypoints@[old(ctx).wp_index as int].t_arrive < u32::MAX)),
    ensures
        final(res_table).wf(),
        output.abort_task == (if battery_override(*old(ctx)) {
            old(ctx).task_id
        } else {
            None
        }),
        final(ctx).tick == old(ctx).tick + 1,
        exists|n: AgentContext, mid: Map<CellID, Seq<Reservation>>|
            {
                &&& #[trigger] step_post(after_override(*old(ctx)), n, &output, old(res_table), mid, graph)
                &&& *final(ctx) == AgentContext { tick: (old(ctx).tick + 1) as u32, ..n }
                &&& final(res_table).booked() == gc_at(mid, old(ctx).tick)
            },
{
    let mut output = TickOutput::default();
    let ghost t0 = *res_table;
    let to_charger: bool = match ctx.goal_cell {
        Some(g) => g == ctx.charger_cell,
        None => false,
    };
    if ctx.battery_pct < BATTERY_LOW_PCT && ctx.state != AgentState::Charging && !to_charger {
        output.abort_task = ctx.task_id;
        ctx.goal_cell = Some(ctx.charger_cell);
        ctx.task_id = None;
        ctx.trajectory = None;
        ctx.wp_index = 0;
        ctx.plan_attempts = 0;
        ctx.transition(AgentState::Charging);
    }
    let ghost c = *ctx;
    assert(c == after_override(*old(ctx)));
    match ctx.state {
        AgentState::Idle => {
            output.motor_halt = true;
        },
        AgentState::Planning | AgentState::Replanning | AgentState::Charging => {
            output.motor_halt = true;
            match ctx.goal_cell {
                Some(goal) => {
                    let heading = infer_heading(ctx.cell, goal, graph);
                    let start_interval = SafeInterval::new(ctx.tick, ctx.tick + 200);
                    let ks = KinematicState::new(ctx.cell, heading, start_interval);
                    match d_sipp(ks, goal, None, graph, res_table) {
                        Some(traj) => {
                            proof {
                                let states = choose|states: Seq<KinematicState>|
                                    {
                                        &&& #[trigger] valid_search_path(states, ks, goal, None, graph, res_table)
                                        &&& traj.waypoints@ == waypoints_of(states)
                                        &&& traj.total_ticks == states.last().interval.t_end
                                    };
                                lemma_waypoint_windows(states, ks, goal, None, graph, res_table);
                            }
                            output.broadcast_intent = Some(copy_trajectory(&traj));
                            reserve_trajectory(res_table, &traj.waypoints, ctx.agent_id);
                            ctx.trajectory = Some(traj);
                            ctx.wp_index = 0;
                            ctx.plan_attempts = 0;
                            ctx.transition(AgentState::Executing);
                        },
                        None => {
                            ctx.plan_attempts = ctx.plan_attempts + 1;
                            if ctx.plan_attempts > MAX_PLAN_ATTEMPTS {
                                ctx.yield_count = ctx.yield_count.saturating_add(1);
                                ctx.plan_attempts = 0;
                                ctx.transition(AgentState::Yielding);
                            }
                        },
                    }
                },
                None => {},
            }
        },
        AgentState::Executing => {
            let step: Option<Option<Waypoint>> = match &ctx.trajectory {
                None => None,
                Some(t) => if ctx.wp_index >= t.waypoints.len() {
                    Some(None)
                } else {
                    Some(Some(t.waypoints[ctx.wp_index]))
                },
            };
            match step {
                None => {
                    ctx.transition(AgentState::Idle);
                },
                Some(None) => {
                    ctx.yield_count = 0;
                    ctx.trajectory = None;
                    ctx.goal_cell = None;
                    let completed_task = ctx.task_id;
                    ctx.task_id = None;
                    output.task_complete = completed_task;
                    ctx.transition(AgentState::Idle);
                },
                Some(Some(next_wp)) => {
                    let conflict = check_conflict(next_wp.cell, next_wp.t_arrive, ctx.agent_id, res_table);
                    match conflict {
                        Some(_) => {
                            ctx.yield_count = ctx.yield_count.saturating_add(1);
                            res_table.remove_agent_reservations(ctx.agent_id);
                            ctx.transition(AgentState::Yielding);
                        },
                        None => {
                            output.motor_target = Some(
                                MotorTarget {
                                    cell: next_wp.cell,
                                    heading: next_wp.heading,
                                    t_arrive: next_wp.t_arrive,
                                },
                            );
                            ctx.cell = next_wp.cell;
                            ctx.wp_index = ctx.wp_index + 1;
                        },
                    }
                },
            }
        },
        AgentState::Yielding => {
            output.motor_halt = true;
            ctx.yield_wait = ctx.yield_wait + 1;
            if ctx.needs_emergency_halt() {
                output.broadcast_halt = true;
                if ctx.yield_wait >= 50 {
                    ctx.yield_wait = 0;
                    ctx.transition(AgentState::Replanning);
                }
            } else if ctx.needs_random_wait() {
                let wait: u8 = ctx.jitter_ticks(5, 20) as u8;
                if ctx.yield_wait >= wait {
                    ctx.yield_wait = 0;
                    ctx.transition(AgentState::Replanning);
                }
            } else if ctx.yield_wait >= YIELD_WAIT_TICKS {
                ctx.yield_wait = 0;
                ctx.transition(AgentState::Replanning);
            }
        },
        AgentState::YieldingPullover => {
            output.motor_halt = true;
            ctx.transition(AgentState::YieldingParked);
        },
        AgentState::YieldingParked => {
            output.motor_halt = true;
            ctx.yield_wait = ctx.yield_wait + 1;
            if ctx.yield_wait >= 10 {
                ctx.yield_wait = 0;
                ctx.transition(AgentState::Replanning);
            }
        },
        AgentState::Blocked => {
            output.motor_halt = true;
            ctx.trajectory = None;
            ctx.wp_index = 0;
            ctx.transition(AgentState::Replanning);
        },
        AgentState::KinematicReverse => {
            output.motor_halt = false;
            ctx.yield_wait = ctx.yield_wait + 1;
            if ctx.yield_wait >= 3 {
                ctx.yield_wait = 0;
                ctx.transition(AgentState::YieldingParked);
            }
        },
    }
    let ghost n = *ctx;
    let ghost mid = res_table.booked();
    assert(step_post(c, n, &output, &t0, mid, graph));
    if ctx.tick % GC_INTERVAL == 0 && ctx.tick > 0 {
        res_table.gc(ctx.tick);
    }
    ctx.tick = ctx.tick + 1;
    output
}

/// The first other agent of a list is some other agent in it, and there is one
/// whenever the list holds a booking of another agent.
proof fn lemma_first_other_agent(rs: Seq<Reservation>, me: u8)
    ensures
        (exists|i: int| 0 <= i < rs.len() && #[trigger] rs[i].agent_id != me) ==> first_other_agent(
            rs,
            me,
        ) is Some,
        first_other_agent(rs, me) matches Some(a) ==> a != me && exists|i: int|
            0 <= i < rs.len() && #[trigger] rs[i].agent_id == a,
    decreases rs.len(),
{
    if rs.len() > 0 {
        lemma_first_other_agent(rs.drop_first(), me);
        if rs[0].agent_id == me {
            if exists|i: int| 0 <= i < rs.len() && #[trigger] rs[i].agent_id != me {
                let i = choose|i: int| 0 <= i < rs.len() && #[trigger] rs[i].agent_id != me;
                assert(rs.drop_first()[i - 1].agent_id != me);
            }
            if first_other_agent(rs, me) is Some {
                let a = first_other_agent(rs, me)->0;
                let j = choose|j: int| 0 <= j < rs.drop_first().len() && #[trigger] rs.drop_first()[j].agent_id == a;
                assert(rs[j + 1].agent_id == a);
            }
        }
    }
}

/// A conflict at a cell and tick is exactly another agent's booking that covers
/// the tick: any booking of another agent with `t_start <= tick < t_end` is
/// reported (as some other agent), and whatever is reported is another agent
/// holding such a booking.
pub proof fn lemma_conflict_exact(m: Map<CellID, Seq<Reservation>>, cell: CellID, tick: Tick, me: u8)
    requires
        tick < u32::MAX,
    ensures
        forall|r: Reservation|
            #[trigger] cell_list(m, cell).contains(r) && r.agent_id != me && r.t_start <= tick
                < r.t_end ==> spec_conflict(m, cell, tick, me) is Some,
        spec_conflict(m, cell, tick, me) matches Some(a) ==> a != me && exists|r: Reservation|
            #[trigger] cell_list(m, cell).contains(r) && r.agent_id == a && r.t_start <= tick
                < r.t_end,
{
    let rs = cell_list(m, cell);
    let p = in_range(tick, (tick + 1) as u32);
    let f = rs.filter(p);
    lemma_first_other_agent(f, me);
    assert forall|r: Reservation|
        #[trigger] rs.contains(r) && r.agent_id != me && r.t_start <= tick < r.t_end implies spec_conflict(
        m,
        cell,
        tick,
        me,
    ) is Some by {
        let i = choose|i: int| 0 <= i < rs.len() && rs[i] == r;
        rs.lemma_filter_contains(p, i);
        let j = choose|j: int| 0 <= j < f.len() && f[j] == r;
        assert(f[j].agent_id != me);
    }
    if spec_conflict(m, cell, tick, me) is Some {
        let a = spec_conflict(m, cell, tick, me)->0;
        let j = choose|j: int| 0 <= j < f.len() && #[trigger] f[j].agent_id == a;
        rs.lemma_filter_pred(p, j);
        assert(f.contains(f[j]));
        rs.lemma_filter_contains_rev(p, f[j]);
        assert(rs.contains(f[j]));
    }
}

} // verus!

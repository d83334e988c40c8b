use amr_coordination::fsm::control_loop::{tick, MotorTarget, MAX_PLAN_ATTEMPTS, YIELD_WAIT_TICKS};
use amr_coordination::fsm::pullover::{find_pullover_cell, is_intersection, pullover_score};
use amr_coordination::fsm::{AgentContext, AgentState};
use amr_coordination::planner::d_sipp::{Trajectory, Waypoint};
use amr_coordination::planner::graph::SpatialGraph;
use amr_coordination::space_time::reservation::ReservationTable;
use amr_coordination::space_time::{Heading, SafeInterval};

#[test]
fn test_idle_stays_idle() {
    let graph = SpatialGraph::new(10, 10);
    let mut table = ReservationTable::new();
    let mut ctx = AgentContext::new(1, 0, 99);
    let out = tick(&mut ctx, &graph, &mut table);
    assert!(out.motor_halt);
    assert_eq!(ctx.state, AgentState::Idle);
}

#[test]
fn test_planning_finds_path() {
    let graph = SpatialGraph::new(10, 10);
    let mut table = ReservationTable::new();
    let mut ctx = AgentContext::new(1, 0, 99);
    ctx.goal_cell = Some(9);
    ctx.transition(AgentState::Planning);
    let out = tick(&mut ctx, &graph, &mut table);
    assert_eq!(ctx.state, AgentState::Executing);
    assert!(out.broadcast_intent.is_some());
}

#[test]
fn test_planning_no_path_yields() {
    let mut graph = SpatialGraph::new(3, 3);
    for i in 1..8 {
        graph.blocked.insert(i);
    }
    let mut table = ReservationTable::new();
    let mut ctx = AgentContext::new(1, 0, 8);
    ctx.goal_cell = Some(8);
    ctx.transition(AgentState::Planning);
    for _ in 0..=MAX_PLAN_ATTEMPTS {
        tick(&mut ctx, &graph, &mut table);
    }
    assert_eq!(ctx.state, AgentState::Yielding);
    assert!(ctx.yield_count > 0);
}

#[test]
fn test_yielding_to_replanning() {
    let graph = SpatialGraph::new(10, 10);
    let mut table = ReservationTable::new();
    let mut ctx = AgentContext::new(1, 0, 99);
    ctx.goal_cell = Some(9);
    ctx.transition(AgentState::Yielding);
    for _ in 0..YIELD_WAIT_TICKS {
        tick(&mut ctx, &graph, &mut table);
    }
    assert_eq!(ctx.state, AgentState::Replanning);
}

#[test]
fn test_battery_override() {
    let graph = SpatialGraph::new(10, 10);
    let mut table = ReservationTable::new();
    let mut ctx = AgentContext::new(1, 0, 99);
    ctx.goal_cell = Some(9);
    ctx.task_id = Some(42);
    ctx.battery_pct = 10;
    ctx.transition(AgentState::Executing);
    let out = tick(&mut ctx, &graph, &mut table);
    assert_eq!(out.abort_task, Some(42));
}

#[test]
fn test_blocked_replans() {
    let graph = SpatialGraph::new(10, 10);
    let mut table = ReservationTable::new();
    let mut ctx = AgentContext::new(1, 5, 99);
    ctx.goal_cell = Some(9);
    ctx.transition(AgentState::Blocked);
    tick(&mut ctx, &graph, &mut table);
    assert_eq!(ctx.state, AgentState::Replanning);
    assert!(ctx.trajectory.is_none());
}

#[test]
fn executing_follows_then_completes() {
    let graph = SpatialGraph::new(10, 10);
    let mut table = ReservationTable::new();
    let mut ctx = AgentContext::new(1, 0, 99);
    ctx.goal_cell = Some(2);
    ctx.task_id = Some(7);
    ctx.transition(AgentState::Planning);
    let out = tick(&mut ctx, &graph, &mut table);
    let planned = out.broadcast_intent.unwrap();
    assert_eq!(planned.waypoints.len(), 3);
    // the trajectory is booked for the agent
    assert_eq!(table.total_reservations(), 3);
    assert_eq!(ctx.tick, 1);
    let mut targets = Vec::new();
    for _ in 0..3 {
        let out = tick(&mut ctx, &graph, &mut table);
        targets.push(out.motor_target.unwrap());
    }
    assert_eq!(targets[2], MotorTarget { cell: 2, heading: Heading::E, t_arrive: 2 });
    assert_eq!(ctx.cell, 2);
    let out = tick(&mut ctx, &graph, &mut table);
    assert_eq!(out.task_complete, Some(7));
    assert_eq!(ctx.state, AgentState::Idle);
    assert!(ctx.goal_cell.is_none());
}

#[test]
fn executing_yields_on_foreign_booking() {
    let graph = SpatialGraph::new(10, 10);
    let mut table = ReservationTable::new();
    let mut ctx = AgentContext::new(1, 0, 99);
    ctx.trajectory = Some(Trajectory {
        waypoints: vec![Waypoint::new(0, Heading::E, 0, 1), Waypoint::new(1, Heading::E, 1, 2)],
        total_ticks: 2,
    });
    ctx.wp_index = 1;
    ctx.transition(AgentState::Executing);
    table.insert_interval(1, 1, SafeInterval::new(1, 2), 0).unwrap();
    table.insert_interval(1, 2, SafeInterval::new(0, 5), 0).unwrap();
    let out = tick(&mut ctx, &graph, &mut table);
    assert_eq!(ctx.state, AgentState::Yielding);
    assert_eq!(ctx.yield_count, 1);
    assert!(out.motor_target.is_none());
    // the agent's own bookings are dropped, the other agent's stay
    assert_eq!(table.total_reservations(), 1);
}

#[test]
fn waiting_states_count_down() {
    let graph = SpatialGraph::new(10, 10);
    let mut table = ReservationTable::new();
    let mut ctx = AgentContext::new(1, 0, 99);
    ctx.transition(AgentState::YieldingPullover);
    tick(&mut ctx, &graph, &mut table);
    assert_eq!(ctx.state, AgentState::YieldingParked);
    for _ in 0..9 {
        tick(&mut ctx, &graph, &mut table);
    }
    assert_eq!(ctx.state, AgentState::YieldingParked);
    tick(&mut ctx, &graph, &mut table);
    assert_eq!(ctx.state, AgentState::Replanning);
    ctx.transition(AgentState::KinematicReverse);
    let out = tick(&mut ctx, &graph, &mut table);
    assert!(!out.motor_halt);
    tick(&mut ctx, &graph, &mut table);
    tick(&mut ctx, &graph, &mut table);
    assert_eq!(ctx.state, AgentState::YieldingParked);
    // emergency halt after many yields
    ctx.transition(AgentState::Yielding);
    ctx.yield_count = 30;
    ctx.yield_wait = 48;
    let out = tick(&mut ctx, &graph, &mut table);
    assert!(out.broadcast_halt);
    assert_eq!(ctx.state, AgentState::Yielding);
    tick(&mut ctx, &graph, &mut table);
    assert_eq!(ctx.state, AgentState::Replanning);
    assert_eq!(ctx.yield_wait, 0);
}

#[test]
fn test_state_display() {
    assert_eq!(AgentState::Idle.display_name(), "IDLE");
    assert_eq!(AgentState::Charging.display_name(), "CHARGING");
}

#[test]
fn test_context_init() {
    let ctx = AgentContext::new(3, 10, 255);
    assert_eq!(ctx.agent_id, 3);
    assert_eq!(ctx.state, AgentState::Idle);
    assert_eq!(ctx.cell, 10);
    assert_eq!(ctx.battery_pct, 100);
}

#[test]
fn test_yield_thresholds() {
    let mut ctx = AgentContext::new(1, 0, 0);
    ctx.yield_count = 10;
    assert!(!ctx.needs_random_wait());
    ctx.yield_count = 11;
    assert!(ctx.needs_random_wait());
    ctx.yield_count = 26;
    assert!(ctx.needs_emergency_halt());
}

#[test]
fn test_jitter_bounded() {
    let ctx = AgentContext::new(7, 100, 0);
    let j = ctx.jitter_ticks(5, 20);
    assert!(j >= 5 && j <= 20);
}

#[test]
fn state_codes_and_jitter_value() {
    for code in 0..10u8 {
        let s = AgentState::from_u8(code).unwrap();
        assert_eq!(s.to_u8(), code);
    }
    assert_eq!(AgentState::from_u8(10), None);
    assert_eq!(AgentState::KinematicReverse.to_u8(), 9);
    assert_eq!(AgentState::YieldingPullover.display_name(), "YIELDING_PULLOVER");
    let mut ctx = AgentContext::new(7, 0, 0);
    ctx.tick = 3;
    // seed = 7 ^ (3 * 2654435761 mod 2^32) = 7 ^ 3668339987 = 3668339988; 5 + seed % 16 = 9
    assert_eq!(ctx.jitter_ticks(5, 20), 9);
}

#[test]
fn test_pullover_open_grid() {
    let graph = SpatialGraph::new(5, 5);
    let cell = find_pullover_cell(6, Heading::E, &graph);
    assert!(cell.is_some());
    let c = cell.unwrap();
    assert!(c == 1 || c == 11);
}

#[test]
fn test_pullover_narrow_corridor() {
    let graph = SpatialGraph::new(3, 1);
    let cell = find_pullover_cell(1, Heading::E, &graph);
    assert!(cell.is_none());
}

#[test]
fn test_intersection_detection() {
    let graph = SpatialGraph::new(5, 5);
    assert!(is_intersection(6, &graph));
    assert!(!is_intersection(0, &graph));
}

#[test]
fn test_pullover_score() {
    let graph = SpatialGraph::new(5, 5);
    let score_corner = pullover_score(0, &graph);
    let score_center = pullover_score(6, &graph);
    assert!(score_corner < score_center);
}

#[test]
fn pullover_sides_and_scores() {
    let mut graph = SpatialGraph::new(5, 5);
    assert_eq!(find_pullover_cell(6, Heading::N, &graph), Some(5));
    graph.blocked.insert(5);
    assert_eq!(find_pullover_cell(6, Heading::S, &graph), Some(7));
    assert_eq!(find_pullover_cell(6, Heading::E, &graph), Some(1));
    assert_eq!(pullover_score(6, &graph), 100);
    let corridor = SpatialGraph::new(3, 1);
    assert_eq!(pullover_score(0, &corridor), 10);
    assert_eq!(pullover_score(1, &corridor), 0);
}

#[test]
fn low_battery_agent_keeps_driving_to_its_charger() {
    let graph = SpatialGraph::new(10, 10);
    let mut table = ReservationTable::new();
    let mut ctx = AgentContext::new(1, 0, 99);
    ctx.goal_cell = Some(9);
    ctx.task_id = Some(42);
    ctx.battery_pct = 10;
    ctx.transition(AgentState::Executing);
    let out = tick(&mut ctx, &graph, &mut table);
    // the override and the plan to the charger come in the same tick
    assert_eq!(out.abort_task, Some(42));
    assert_eq!(ctx.goal_cell, Some(99));
    assert_eq!(ctx.state, AgentState::Executing);
    assert!(ctx.trajectory.is_some());
    let first = ctx.trajectory.as_ref().unwrap().waypoints[0].cell;
    let out = tick(&mut ctx, &graph, &mut table);
    assert_eq!(out.abort_task, None);
    assert_eq!(ctx.state, AgentState::Executing);
    assert!(ctx.trajectory.is_some());
    assert_eq!(ctx.wp_index, 1);
    assert_eq!(out.motor_target.map(|m| m.cell), Some(first));
}

#[test]
fn planning_on_small_grid_always_executes() {
    // 2 x 3 cells fit the search budget, so a reachable goal is always planned.
    let graph = SpatialGraph::new(2, 3);
    let mut table = ReservationTable::new();
    let mut ctx = AgentContext::new(1, 0, 99);
    ctx.goal_cell = Some(5);
    ctx.transition(AgentState::Planning);
    let out = tick(&mut ctx, &graph, &mut table);
    assert_eq!(ctx.state, AgentState::Executing);
    assert_eq!(ctx.wp_index, 0);
    assert_eq!(ctx.plan_attempts, 0);
    let planned = ctx.trajectory.as_ref().unwrap();
    assert_eq!(planned.waypoints.last().unwrap().cell, 5);
    assert_eq!(out.broadcast_intent.unwrap().waypoints.len(), planned.waypoints.len());
}

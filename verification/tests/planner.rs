use amr_coordination::planner::d_sipp::{d_sipp, validate_trajectory, Trajectory, Waypoint, MAX_HORIZON};
use amr_coordination::planner::graph::SpatialGraph;
use amr_coordination::planner::heading::{
    direction_in_graph, direction_to_heading, expand_successors, transition_cost, HeadingLookup, KinematicState, T_90,
};
use amr_coordination::planner::reservation::ReservationBitset;
use amr_coordination::planner::segments::{
    compress_trajectory_to_segments, compute_duration_ticks, Segment, SegmentTable,
};
use amr_coordination::space_time::{Heading, SafeInterval};

#[test]
fn test_graph_creation() {
    let graph = SpatialGraph::new(10, 10);
    assert_eq!(graph.width, 10);
    assert_eq!(graph.height, 10);
}

#[test]
fn test_neighbors_4_connected() {
    let graph = SpatialGraph::new(5, 5);
    let neighbors = graph.neighbors(6);
    assert_eq!(neighbors.len(), 4);
    assert!(neighbors.contains(&1));
    assert!(neighbors.contains(&11));
    assert!(neighbors.contains(&7));
    assert!(neighbors.contains(&5));
}

#[test]
fn test_blocked_cell() {
    let mut graph = SpatialGraph::new(5, 5);
    graph.blocked.insert(6);
    assert!(!graph.is_traversable(6));
    let neighbors = graph.neighbors(1);
    assert!(!neighbors.contains(&6));
}

#[test]
fn test_heuristic_admissible() {
    let graph = SpatialGraph::new(10, 10);
    let mut state: u32 = 12345;
    for _ in 0..100 {
        state = state.wrapping_mul(1103515245).wrapping_add(12345);
        let a = ((state >> 16) % 100) as u16;
        state = state.wrapping_mul(1103515245).wrapping_add(12345);
        let b = ((state >> 16) % 100) as u16;
        let h = graph.manhattan_distance(a, b);
        // No shortest path on a 10x10 grid is longer than its diameter.
        assert!(h <= 18);
    }
}

#[test]
fn heuristic_never_overestimates_found_paths() {
    let graph = SpatialGraph::new(6, 6);
    let table = ReservationBitset::new();
    for (a, b, goal_heading) in [(0u16, 35u16, None), (7, 3, Some(Heading::W)), (30, 5, Some(Heading::N)), (14, 14, None)] {
        let start = KinematicState::new(a, Heading::N, SafeInterval { t_start: 0, t_end: MAX_HORIZON });
        let traj = d_sipp(start, b, goal_heading, &graph, &table).unwrap();
        let last = traj.waypoints.last().unwrap();
        let turn = match goal_heading {
            Some(h) => HeadingLookup::new().rotation_ticks(Heading::N, h) as u32,
            None => 0,
        };
        assert!(last.t_arrive >= graph.manhattan_distance(a, b) as u32 + turn);
    }
}

#[test]
fn manhattan_distance_values() {
    let graph = SpatialGraph::new(10, 10);
    assert_eq!(graph.manhattan_distance(0, 11), 2);
    assert_eq!(graph.manhattan_distance(3, 47), 8);
    assert_eq!(graph.manhattan_distance(47, 3), 8);
    assert_eq!(graph.manhattan_distance(42, 42), 0);
}

#[test]
fn graph_neighbors_order_and_edges() {
    let graph = SpatialGraph::new(5, 5);
    // clockwise from north
    assert_eq!(graph.neighbors(6), vec![1, 7, 11, 5]);
    assert_eq!(graph.neighbors(0), vec![1, 5]);
    let mut eight = SpatialGraph::new(3, 3);
    eight.connectivity = 8;
    assert_eq!(eight.neighbors(4), vec![1, 2, 5, 8, 7, 6, 3, 0]);
    assert_eq!(graph.coordinate(13), (3, 2));
    assert_eq!(graph.cell_from_coord(3, 2), 13);
    assert!(!graph.is_traversable(25));
    let g = SpatialGraph::from_map(4, 4, &vec![5, 6], None);
    assert!(!g.is_traversable(5) && g.is_traversable(4));
    assert_eq!(g.connectivity, 4);
}

#[test]
fn test_rotation_lookup() {
    let lookup = HeadingLookup::new();
    assert_eq!(lookup.rotation_ticks(Heading::N, Heading::N), 0);
    assert_eq!(lookup.rotation_ticks(Heading::N, Heading::E), T_90);
    assert_eq!(lookup.rotation_ticks(Heading::N, Heading::S), 2 * T_90);
    assert_eq!(lookup.rotation_ticks(Heading::N, Heading::W), T_90);
}

#[test]
fn test_transition_cost() {
    let lookup = HeadingLookup::new();
    assert_eq!(transition_cost(1, 1, Heading::N, Heading::N, &lookup), 1);
    assert_eq!(transition_cost(1, 2, Heading::N, Heading::E, &lookup), T_90 + 1);
}

#[test]
fn rotation_table_values() {
    let lookup = HeadingLookup::default();
    assert_eq!(T_90, 5);
    assert_eq!(lookup.rot_cost, [[0, 5, 10, 5], [5, 0, 5, 10], [10, 5, 0, 5], [5, 10, 5, 0]]);
    assert_eq!(direction_to_heading(300, 44), Heading::N);
    assert_eq!(direction_to_heading(300, 301), Heading::E);
    assert_eq!(direction_to_heading(300, 556), Heading::S);
    assert_eq!(direction_to_heading(300, 299), Heading::W);
    assert_eq!(direction_to_heading(300, 302), Heading::N);
}

#[test]
fn successors_of_a_state() {
    let graph = SpatialGraph::new(5, 5);
    let lookup = HeadingLookup::new();
    let state = KinematicState::new(6, Heading::E, SafeInterval::new(10, 30));
    let succ = expand_successors(&state, &lookup, &graph);
    // neighbours 1 (N), 7 (E), 11 (S), 5 (W), then the wait
    assert_eq!(succ.len(), 5);
    assert_eq!(succ[0], KinematicState::new(1, Heading::N, SafeInterval::new(16, 30)));
    assert_eq!(succ[1], KinematicState::new(7, Heading::E, SafeInterval::new(11, 30)));
    assert_eq!(succ[2], KinematicState::new(11, Heading::S, SafeInterval::new(16, 30)));
    assert_eq!(succ[3], KinematicState::new(5, Heading::W, SafeInterval::new(21, 30)));
    assert_eq!(succ[4], KinematicState::new(6, Heading::E, SafeInterval::new(11, 30)));
    assert_eq!(direction_in_graph(6, 11, &graph), Heading::S);
    assert_eq!(direction_to_heading(6, 11), Heading::N);
    let tight = KinematicState::new(6, Heading::E, SafeInterval::new(10, 10));
    assert!(expand_successors(&tight, &lookup, &graph).is_empty());
}

#[test]
fn test_straight_line() {
    let graph = SpatialGraph::new(10, 10);
    let table = ReservationBitset::new();
    let start = KinematicState::new(0, Heading::E, SafeInterval { t_start: 0, t_end: MAX_HORIZON });
    let traj = d_sipp(start, 9, Some(Heading::E), &graph, &table);
    assert!(traj.is_some());
    let t = traj.unwrap();
    assert_eq!(t.waypoints.len(), 10);
    assert!(validate_trajectory(&t, &graph));
}

#[test]
fn test_static_obstacle() {
    let mut graph = SpatialGraph::new(5, 5);
    graph.blocked.insert(6);
    let table = ReservationBitset::new();
    let start = KinematicState::new(0, Heading::E, SafeInterval { t_start: 0, t_end: MAX_HORIZON });
    let traj = d_sipp(start, 24, Some(Heading::S), &graph, &table);
    assert!(traj.is_some());
}

#[test]
fn test_time_conflict() {
    let graph = SpatialGraph::new(10, 10);
    let mut table = ReservationBitset::new();
    table.insert_interval(5, 1, SafeInterval { t_start: 10, t_end: 15 }, 0).unwrap();
    let start = KinematicState::new(0, Heading::E, SafeInterval { t_start: 0, t_end: MAX_HORIZON });
    let traj = d_sipp(start, 9, Some(Heading::E), &graph, &table);
    assert!(traj.is_some());
    let t = traj.unwrap();
    let at_5 = t.waypoints.iter().find(|w| w.cell == 5);
    if let Some(wp) = at_5 {
        assert!(wp.t_arrive >= 15 || wp.t_depart <= 10);
    }
}

#[test]
fn test_no_path_none() {
    let mut graph = SpatialGraph::new(5, 5);
    for i in 1..24 {
        graph.blocked.insert(i);
    }
    let table = ReservationBitset::new();
    let start = KinematicState::new(0, Heading::E, SafeInterval { t_start: 0, t_end: MAX_HORIZON });
    let traj = d_sipp(start, 24, None, &graph, &table);
    assert!(traj.is_none());
}

#[test]
fn straight_line_waypoint_times() {
    let graph = SpatialGraph::new(10, 10);
    let table = ReservationBitset::new();
    let start = KinematicState::new(0, Heading::E, SafeInterval::new(0, MAX_HORIZON));
    let t = d_sipp(start, 9, Some(Heading::E), &graph, &table).unwrap();
    assert_eq!(t.waypoints[0], Waypoint::new(0, Heading::E, 0, 1));
    assert_eq!(t.waypoints[9], Waypoint::new(9, Heading::E, 9, MAX_HORIZON));
    assert_eq!(t.total_ticks, MAX_HORIZON);
    // a goal heading that needs a final turn waits in place
    let turned = d_sipp(start, 0, Some(Heading::N), &graph, &table);
    assert!(turned.is_none() || turned.unwrap().waypoints.last().unwrap().heading == Heading::N);
}

#[test]
fn search_respects_reserved_cell_and_horizon() {
    let graph = SpatialGraph::new(10, 1);
    let mut table = ReservationBitset::new();
    // cell 3 is taken for the whole horizon: the corridor is cut
    table.insert_interval(3, 2, SafeInterval::new(0, 64), 0).unwrap();
    let start = KinematicState::new(0, Heading::E, SafeInterval::new(0, MAX_HORIZON));
    let t = d_sipp(start, 5, None, &graph, &table);
    if let Some(t) = t {
        assert!(t.waypoints.iter().all(|w| w.cell != 3 || w.t_arrive >= 64));
    }
    // a start beyond the horizon never plans
    let late = KinematicState::new(0, Heading::E, SafeInterval::new(201, 400));
    assert!(d_sipp(late, 1, None, &graph, &ReservationBitset::new()).is_none());
    // the start itself is the goal
    let here = d_sipp(start, 0, None, &graph, &ReservationBitset::new()).unwrap();
    assert_eq!(here.waypoints, vec![Waypoint::new(0, Heading::E, 0, MAX_HORIZON)]);
}

#[test]
fn validate_rejects_bad_hops() {
    let graph = SpatialGraph::new(5, 5);
    let ok = Trajectory {
        waypoints: vec![Waypoint::new(0, Heading::E, 0, 1), Waypoint::new(1, Heading::E, 1, 2)],
        total_ticks: 2,
    };
    assert!(validate_trajectory(&ok, &graph));
    let jump = Trajectory {
        waypoints: vec![Waypoint::new(0, Heading::E, 0, 1), Waypoint::new(2, Heading::E, 1, 2)],
        total_ticks: 2,
    };
    assert!(!validate_trajectory(&jump, &graph));
    let early = Trajectory {
        waypoints: vec![Waypoint::new(0, Heading::E, 0, 5), Waypoint::new(1, Heading::E, 3, 6)],
        total_ticks: 6,
    };
    assert!(!validate_trajectory(&early, &graph));
}

#[test]
fn bitset_reserve_free_and_advance() {
    let mut table = ReservationBitset::new();
    let w = SafeInterval::new(10, 15);
    assert!(table.is_free(7, &w));
    assert!(table.insert_interval(7, 1, w, 0).is_ok());
    assert!(!table.is_free(7, &SafeInterval::new(14, 20)));
    assert!(table.is_free(7, &SafeInterval::new(15, 20)));
    assert_eq!(table.insert_interval(7, 2, SafeInterval::new(12, 13), 0), Err("Collision detected"));
    // beyond the horizon: accepted, not recorded
    assert!(table.insert_interval(7, 2, SafeInterval::new(70, 80), 0).is_ok());
    assert!(table.is_free(7, &SafeInterval::new(70, 80)));
    table.advance_to_tick(12);
    assert!(!table.is_free(7, &SafeInterval::new(12, 13)));
    assert!(table.is_free(7, &SafeInterval::new(10, 12)));
    table.gc(100);
    assert!(table.is_free(7, &SafeInterval::new(100, 110)));
    table.remove_agent_reservations(1);
    assert!(table.query(7, 0, 10).is_empty());
}

#[test]
fn test_segment_compression() {
    let mut traj = Trajectory { waypoints: Vec::new(), total_ticks: 0 };
    traj.waypoints.push(Waypoint::new(0, Heading::N, 0, 10));
    traj.waypoints.push(Waypoint::new(10, Heading::N, 10, 20));
    traj.waypoints.push(Waypoint::new(19, Heading::N, 20, 30));
    let segments = compress_trajectory_to_segments(&traj, 1);
    assert_eq!(segments.len(), 1);
    assert_eq!(segments[0].start, 0);
    assert_eq!(segments[0].end, 19);
}

#[test]
fn test_expand_segments() {
    let mut table = SegmentTable::new();
    table.insert_agent_segments(
        1,
        vec![Segment { start: 1, end: 5, t_enter: 0, t_exit: 10, heading: Heading::E, agent_id: 1 }],
    );
    let res = table.expand_to_reservations(1);
    assert!(!res.is_empty());
}

#[test]
fn segment_table_bookkeeping() {
    let seg = |s: u16, a: u8| Segment { start: s, end: s + 1, t_enter: 3, t_exit: 9, heading: Heading::W, agent_id: a };
    let mut table = SegmentTable::default();
    table.insert_agent_segments(1, vec![seg(1, 1), seg(2, 1)]);
    table.insert_agent_segments(2, vec![seg(7, 2)]);
    assert_eq!(table.total_segments(), 3);
    assert_eq!(table.all_segments().len(), 3);
    assert_eq!(table.get_agent_segments(2), vec![seg(7, 2)]);
    let res = table.expand_to_reservations(1);
    assert_eq!(res[1].0, 2);
    assert_eq!((res[1].1.agent_id, res[1].1.t_start, res[1].1.t_end, res[1].1.trajectory_hash), (1, 3, 9, 0));
    table.remove_agent(1);
    assert!(table.get_agent_segments(1).is_empty());
    table.clear_all();
    assert_eq!(table.total_segments(), 0);
    assert_eq!(compute_duration_ticks(42), 42);
    let empty = Trajectory { waypoints: Vec::new(), total_ticks: 0 };
    assert!(compress_trajectory_to_segments(&empty, 1).is_empty());
}

#[test]
fn bitset_removes_one_agents_reservations() {
    let mut table = ReservationBitset::new();
    assert!(table.insert_interval(7, 1, SafeInterval::new(10, 15), 0).is_ok());
    assert!(table.insert_interval(7, 2, SafeInterval::new(20, 25), 0).is_ok());
    assert!(table.insert_interval(8, 1, SafeInterval::new(3, 4), 0).is_ok());
    table.advance_to_tick(2);
    table.remove_agent_reservations(1);
    assert!(table.is_free(7, &SafeInterval::new(10, 15)));
    assert!(table.is_free(8, &SafeInterval::new(3, 4)));
    assert!(!table.is_free(7, &SafeInterval::new(20, 25)));
    // an agent that holds nothing: nothing changes
    table.remove_agent_reservations(9);
    assert!(!table.is_free(7, &SafeInterval::new(22, 23)));
    assert!(table.insert_interval(7, 3, SafeInterval::new(10, 15), 0).is_ok());
}

#[test]
fn test_manhattan_distance() {
    let graph = SpatialGraph::new(10, 10);
    assert_eq!(graph.manhattan_distance(0, 11), 2); // (0,0) to (1,1)
    // (5,0) to (5,2) are two rows apart, so the distance is 2 (the value 3 that
    // is sometimes quoted for this pair does not match the cells it names).
    assert_eq!(graph.manhattan_distance(5, 25), 2);
}

#[test]
fn search_finds_path_on_grid_within_budget() {
    // 3 x 2 cells: 1 + 9 * 804 * 6 expansions fit the budget, so a path is owed.
    let graph = SpatialGraph::new(3, 2);
    let table = ReservationBitset::new();
    let start = KinematicState::new(0, Heading::E, SafeInterval { t_start: 0, t_end: MAX_HORIZON });
    let traj = d_sipp(start, 5, None, &graph, &table).unwrap();
    assert_eq!(traj.waypoints.first().unwrap().cell, 0);
    assert_eq!(traj.waypoints.last().unwrap().cell, 5);
    assert!(validate_trajectory(&traj, &graph));
}

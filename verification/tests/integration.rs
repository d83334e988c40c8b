use amr_coordination::{AgentContext, AgentState, ReservationTable, SpatialGraph};

#[test]
fn test_chaos_15pct_loss_1000_trials() {
    let _graph = SpatialGraph::new(10, 10);
    let _table = ReservationTable::new();
    assert!(true);
}

#[test]
fn test_scenario_a_two_agent_choke() {
    let _graph = SpatialGraph::new(10, 10);
    let _table = ReservationTable::new();
    let mut a = AgentContext::new(1, 0, 99);
    let mut b = AgentContext::new(2, 9, 99);
    a.goal_cell = Some(9);
    b.goal_cell = Some(0);
    a.transition(AgentState::Executing);
    b.transition(AgentState::Executing);
    assert!(a.state == AgentState::Executing || a.state == AgentState::Idle);
}

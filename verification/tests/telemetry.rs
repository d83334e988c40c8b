use amr_coordination::fsm::AgentState;
use amr_coordination::space_time::{Heading, Tick};
use amr_coordination::telemetry::{FleetTelemetry, TelemetryBroadcaster, TelemetrySnapshot};

fn make_snapshot(agent_id: u8, tick: Tick, state: AgentState) -> TelemetrySnapshot {
    TelemetrySnapshot {
        agent_id,
        tick,
        state,
        cell: 42,
        heading: Heading::N,
        x_m_bits: 1.25f32.to_bits(),
        y_m_bits: 2.75f32.to_bits(),
        theta_rad_bits: std::f32::consts::FRAC_PI_2.to_bits(),
        linear_vel_bits: 0.5f32.to_bits(),
        angular_vel_bits: 0.1f32.to_bits(),
        battery_pct: 85,
        yield_count: 2,
        task_id: Some(7),
        plan_attempts: 1,
    }
}

#[test]
fn test_snapshot_roundtrip() {
    let snap = make_snapshot(3, 1000, AgentState::Executing);
    let bytes = snap.serialize();
    assert_eq!(bytes.len(), 32);
    let recover = TelemetrySnapshot::deserialize(&bytes).unwrap();
    assert_eq!(recover.agent_id, 3);
    assert_eq!(recover.tick, 1000);
    assert_eq!(recover.cell, 42);
    assert_eq!(recover.battery_pct, 85);
    assert_eq!(recover.task_id, Some(7));
}

#[test]
fn test_snapshot_no_task() {
    let mut snap = make_snapshot(1, 500, AgentState::Idle);
    snap.task_id = None;
    let bytes = snap.serialize();
    let recover = TelemetrySnapshot::deserialize(&bytes).unwrap();
    assert_eq!(recover.task_id, None);
}

#[test]
fn snapshot_wire_layout_and_rejections() {
    let snap = make_snapshot(3, 0x0102_0304, AgentState::Yielding);
    let bytes = snap.serialize();
    assert_eq!(&bytes[0..10], &[0x10, 3, 0x04, 0x03, 0x02, 0x01, 3, 42, 0, 0]);
    assert_eq!(&bytes[10..14], &1.25f32.to_le_bytes());
    assert_eq!(&bytes[22..27], &[85, 2, 7, 0, 1]);
    assert_eq!(&bytes[27..], &[0, 0, 0, 0, 0]);
    let back = TelemetrySnapshot::deserialize(&bytes).unwrap();
    assert_eq!(f32::from_bits(back.theta_rad_bits), std::f32::consts::FRAC_PI_2);
    assert_eq!(back.linear_vel_bits, 0);
    assert_eq!(back.angular_vel_bits, 0);
    assert_eq!(back, TelemetrySnapshot { linear_vel_bits: 0, angular_vel_bits: 0, ..snap });
    // short, wrong tag, unknown state, unknown heading
    assert!(TelemetrySnapshot::deserialize(&bytes[..31]).is_none());
    let mut bad = bytes.clone();
    bad[0] = 0x11;
    assert!(TelemetrySnapshot::deserialize(&bad).is_none());
    let mut bad = bytes.clone();
    bad[6] = 200;
    assert!(TelemetrySnapshot::deserialize(&bad).is_none());
    let mut bad = bytes;
    bad[9] = 4;
    assert!(TelemetrySnapshot::deserialize(&bad).is_none());
}

#[test]
fn test_broadcaster_interval() {
    let broadcaster = TelemetryBroadcaster::with_logging(10);
    assert!(broadcaster.should_broadcast(0));
    assert!(broadcaster.should_broadcast(10));
}

#[test]
fn test_broadcaster_log() {
    let mut broadcaster = TelemetryBroadcaster::with_logging(10);
    let snap = make_snapshot(1, 10, AgentState::Idle);
    broadcaster.broadcast(snap);
    assert_eq!(broadcaster.get_log().unwrap().len(), 1);
}

#[test]
fn broadcaster_paces_and_stops() {
    let mut b = TelemetryBroadcaster::new(10);
    assert!(!b.should_broadcast(100));
    assert!(b.broadcast(make_snapshot(1, 5, AgentState::Idle)).is_none());
    assert!(b.get_log().is_none());
    b.start();
    let bytes = b.broadcast(make_snapshot(1, 20, AgentState::Idle)).unwrap();
    assert_eq!(bytes, make_snapshot(1, 20, AgentState::Idle).serialize());
    assert!(!b.should_broadcast(29));
    assert!(b.should_broadcast(30));
    assert!(b.broadcast_state_change(make_snapshot(1, 22, AgentState::Planning)).is_some());
    assert!(!b.should_broadcast(31));
    b.stop();
    assert!(!b.should_broadcast(1000));
    let mut logged = TelemetryBroadcaster::with_logging(u32::MAX);
    logged.broadcast(make_snapshot(2, u32::MAX, AgentState::Idle));
    assert!(!logged.should_broadcast(u32::MAX));
    logged.clear_log();
    assert_eq!(logged.get_log().unwrap().len(), 0);
}

#[test]
fn test_fleet_telemetry() {
    let mut fleet = FleetTelemetry::new();
    fleet.update(make_snapshot(1, 100, AgentState::Executing));
    fleet.update(make_snapshot(2, 100, AgentState::Yielding));
    fleet.update(make_snapshot(3, 100, AgentState::Idle));
    assert_eq!(fleet.all().len(), 3);
    assert_eq!(fleet.yielding_count(), 1);
}

#[test]
fn test_fleet_prune() {
    let mut fleet = FleetTelemetry::new();
    fleet.update(make_snapshot(1, 10, AgentState::Idle));
    fleet.update(make_snapshot(2, 90, AgentState::Executing));
    fleet.prune_stale(100, 50);
    assert!(fleet.get(1).is_none()); // stale
    assert!(fleet.get(2).is_some()); // recent
}

#[test]
fn fleet_counts_and_battery() {
    let mut fleet = FleetTelemetry::new();
    assert_eq!(fleet.battery_totals(), (0, 0));
    fleet.update(make_snapshot(1, 100, AgentState::YieldingParked));
    fleet.update(make_snapshot(2, 100, AgentState::Yielding));
    let mut low = make_snapshot(3, 100, AgentState::Idle);
    low.battery_pct = 15;
    fleet.update(low);
    fleet.update(make_snapshot(4, 200, AgentState::Idle));
    // a newer snapshot replaces the older one
    fleet.update(make_snapshot(2, 150, AgentState::YieldingPullover));
    assert_eq!(fleet.get(2).unwrap().tick, 150);
    assert_eq!(fleet.yielding_count(), 2);
    let counts = fleet.state_counts();
    assert_eq!(counts.len(), 3);
    assert_eq!(counts[&AgentState::Idle.to_u8()], 2);
    assert_eq!(counts[&AgentState::YieldingParked.to_u8()], 1);
    assert_eq!(counts[&AgentState::YieldingPullover.to_u8()], 1);
    assert_eq!(fleet.battery_totals(), (85 + 85 + 15 + 85, 4));
    let mut ids: Vec<u8> = fleet.all().iter().map(|s| s.agent_id).collect();
    ids.sort();
    assert_eq!(ids, vec![1, 2, 3, 4]);
    // ages 100, 50, 100, 0 against a bound of 100: only agents 2 and 4 stay
    fleet.prune_stale(200, 100);
    assert!(fleet.get(1).is_none());
    assert!(fleet.get(3).is_none());
    assert_eq!(fleet.all().len(), 2);
    // a snapshot from the future is kept
    fleet.prune_stale(10, 1);
    assert_eq!(fleet.all().len(), 2);
}

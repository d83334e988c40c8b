use amr_coordination::hal::pid::{CascadedController, PidController};
use amr_coordination::sensor::{
    LocalizationMode, LocalizationTracker, Pose, MAX_DEAD_RECKONING_TICKS,
};
use amr_coordination::space_time::{Heading, Q16_16};
use amr_coordination::tasks::cfp::{BurstAction, BurstOutcome, PiggybackTelemetry, TaskCfpManager};

fn q(v: f32) -> Q16_16 {
    Q16_16((v * 65536.0) as i32)
}

#[test]
fn test_cascaded_straight() {
    let mut ctrl = CascadedController::default_amr();
    let (v, w) = ctrl.update(q(0.0), q(1.0), q(0.1));
    assert!(v.0 > 0);
    assert!(w.0.abs() < q(0.1).0);
}

#[test]
fn test_cascaded_turn() {
    let mut ctrl = CascadedController::default_amr();
    let (v, w) = ctrl.update(q(1.0), q(1.0), q(0.1));
    assert!(w.0.abs() > q(0.5).0);
    let (v_straight, _) = CascadedController::default_amr().update(q(0.0), q(1.0), q(0.1));
    assert!(v.0 < v_straight.0);
}

#[test]
fn pid_proportional_and_clamped() {
    let mut pid = PidController::from_gains(q(1.0), q(0.0), q(0.0), q(10.0), q(10.0));
    assert_eq!(pid.update(q(5.0), q(0.1)), q(5.0));
    let mut hot = PidController::from_gains(q(10.0), q(0.0), q(0.0), q(3.0), q(10.0));
    assert_eq!(hot.update(q(5.0), q(0.1)), q(3.0));
    assert_eq!(hot.update(q(-5.0), q(0.1)), Q16_16(-q(3.0).0));
}

#[test]
fn pid_integral_windup_and_reset() {
    let mut pid = PidController::from_gains(q(0.0), q(1.0), q(0.0), q(100.0), q(2.0));
    for _ in 0..100 {
        pid.update(q(100.0), q(0.1));
    }
    assert_eq!(pid.integral(), q(2.0));
    assert_eq!(pid.prev_error(), q(100.0));
    pid.reset();
    assert_eq!(pid.integral(), Q16_16(0));
    assert_eq!(pid.prev_error(), Q16_16(0));
}

#[test]
fn pid_derivative_exact() {
    // kd = 1: error 1.0 over 0.5 s from 0 gives a rate of 2.0
    let mut pid = PidController::from_gains(q(0.0), q(0.0), q(1.0), q(10.0), q(0.0));
    assert_eq!(pid.update(q(1.0), q(0.5)), q(2.0));
    // a tiny step skips the derivative
    let mut tiny = PidController::from_gains(q(0.0), q(0.0), q(1.0), q(10.0), q(0.0));
    assert_eq!(tiny.update(q(1.0), Q16_16(6)), Q16_16(0));
}

#[test]
fn cascaded_reset_clears_both() {
    let mut ctrl = CascadedController::default_amr();
    ctrl.update(q(0.5), q(1.0), q(0.1));
    ctrl.reset();
    assert_eq!(ctrl.heading_controller.integral(), Q16_16(0));
    assert_eq!(ctrl.distance_controller.prev_error(), Q16_16(0));
}

fn f(v: Q16_16) -> f32 {
    v.0 as f32 / 65536.0
}

#[test]
fn test_pid_proportional() {
    let mut pid = PidController::from_gains(q(1.0), q(0.0), q(0.0), q(10.0), q(10.0));
    let dt = q(0.1);
    let error = q(5.0);
    let output = pid.update(error, dt);
    // P-only: output = kp * error = 1.0 * 5.0 = 5.0
    assert!((f(output) - 5.0).abs() < 0.1);
}

#[test]
fn test_pid_clamping() {
    let mut pid = PidController::from_gains(q(10.0), q(0.0), q(0.0), q(3.0), q(10.0));
    let dt = q(0.1);
    let error = q(5.0);
    let output = pid.update(error, dt);
    // Would be 50.0 but clamped to 3.0
    assert!((f(output) - 3.0).abs() < 0.1);
}

#[test]
fn test_pid_integral_windup() {
    let mut pid = PidController::from_gains(q(0.0), q(1.0), q(0.0), q(100.0), q(2.0));
    let dt = q(0.1);
    let error = q(100.0);
    for _ in 0..100 {
        pid.update(error, dt);
    }
    // Integral is clamped to the integral bound (2.0)
    assert!(f(pid.integral()) <= 2.0 + 0.1);
}

#[test]
fn test_pid_reset() {
    let mut pid = PidController::from_gains(q(1.0), q(1.0), q(1.0), q(10.0), q(10.0));
    let dt = q(0.1);
    pid.update(q(5.0), dt);
    pid.reset();
    assert!(f(pid.integral()).abs() < 0.01);
    assert!(f(pid.prev_error()).abs() < 0.01);
}

#[test]
fn test_heading_quantization() {
    // North = pi/2
    let pose = Pose { x: q(0.0), y: q(0.0), theta: q(std::f32::consts::FRAC_PI_2) };
    assert_eq!(pose.to_heading(), Heading::N);
    // East = 0
    let pose_e = Pose { x: q(0.0), y: q(0.0), theta: q(0.0) };
    assert_eq!(pose_e.to_heading(), Heading::E);
}

#[test]
fn pose_heading_quantization() {
    let pose = |theta: f32| Pose { x: Q16_16(0), y: Q16_16(0), theta: q(theta) };
    assert_eq!(pose(0.0).to_heading(), Heading::E);
    assert_eq!(pose(std::f32::consts::FRAC_PI_2).to_heading(), Heading::N);
    assert_eq!(pose(std::f32::consts::PI).to_heading(), Heading::W);
    assert_eq!(pose(-std::f32::consts::FRAC_PI_2).to_heading(), Heading::S);
    assert_eq!(pose(6.2).to_heading(), Heading::E);
    assert_ne!(LocalizationMode::Fused, LocalizationMode::Lost);
}

#[test]
fn cfp_burst_decisions() {
    let mgr = TaskCfpManager::new();
    assert_eq!(mgr.burst_interval_ms(), 100);
    assert!(mgr.window_open(999));
    assert!(!mgr.window_open(1000));
    assert_eq!(mgr.after_broadcast(BurstOutcome::QuorumReached), BurstAction::Finish);
    assert_eq!(mgr.after_broadcast(BurstOutcome::Failed), BurstAction::SleepThenRetry);
    assert_eq!(mgr.after_broadcast(BurstOutcome::NoQuorum), BurstAction::SleepThenRetry);
}

#[test]
fn piggyback_blocked_cells() {
    let mut tel = PiggybackTelemetry::new();
    assert_eq!(tel.get_piggyback_payload(), None);
    tel.report_edge_blocked(3, 4);
    tel.report_edge_blocked(3, 4);
    tel.report_edge_blocked(5, 6);
    assert_eq!(tel.get_piggyback_payload(), Some(vec![(3, 4), (5, 6)]));
    assert_eq!(tel.payload_for_age(5_000_000_000), Some(vec![(3, 4), (5, 6)]));
    assert_eq!(tel.payload_for_age(5_000_000_001), None);
    assert_eq!(tel.get_piggyback_payload(), None);
}

#[test]
fn localization_mode_degrades_without_lidar() {
    let mut tracker = LocalizationTracker::new();
    assert_eq!(tracker.mode(), LocalizationMode::Fused);
    for _ in 0..MAX_DEAD_RECKONING_TICKS {
        tracker.on_odometry();
    }
    assert_eq!(tracker.mode(), LocalizationMode::Fused);
    tracker.on_odometry();
    assert_eq!(tracker.mode(), LocalizationMode::DeadReckoning);
    assert_eq!(tracker.dead_reckoning_ticks(), 4);
    tracker.on_fix();
    assert_eq!(tracker.mode(), LocalizationMode::Fused);
    assert_eq!(tracker.dead_reckoning_ticks(), 0);
}

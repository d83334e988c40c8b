//! Continuous pose in Q16.16 and its snapping to the grid's discrete headings.
use crate::space_time::{Heading, Q16_16};
use vstd::prelude::*;

verus! {

/// 2 pi in Q16.16.
pub const TAU_Q16: i32 = 411775i32;

/// pi / 4, 3 pi / 4, 5 pi / 4 and 7 pi / 4 in Q16.16.
pub const EIGHTH_TURN_Q16: i32 = 51472i32;
pub const THREE_EIGHTHS_Q16: i32 = 154416i32;
pub const FIVE_EIGHTHS_Q16: i32 = 257359i32;
pub const SEVEN_EIGHTHS_Q16: i32 = 360303i32;

/// 2D pose in Q16.16: metres from the grid origin, and radians.
#[derive(Debug, Clone, Copy, PartialEq, Eq, Structural)]
pub struct Pose {
    pub x: Q16_16,
    pub y: Q16_16,
    pub theta: Q16_16,
}

/// How the pose is being estimated.
#[derive(Debug, Clone, Copy, PartialEq, Eq, Structural)]
pub enum LocalizationMode {
    /// Lidar-corrected: high confidence.
    Fused,
    /// Odometry only: degrading confidence.
    DeadReckoning,
    /// No sensor data.
    Lost,
}

/// Angle normalised into `[0, 2 pi)` (raw Q16.16).
pub open spec fn normalized_angle(theta: i32) -> int {
    (theta as int) % (TAU_Q16 as int)
}

/// The heading nearest to an angle: east around 0, north around pi / 2, west
/// around pi, south around 3 pi / 2.
pub open spec fn spec_quantize(theta: i32) -> Heading {
    let t = normalized_angle(theta);
    if t < EIGHTH_TURN_Q16 || t >= SEVEN_EIGHTHS_Q16 {
        Heading::E
    } else if t < THREE_EIGHTHS_Q16 {
        Heading::N
    } else if t < FIVE_EIGHTHS_Q16 {
        Heading::W
    } else {
        Heading::S
    }
}

impl Pose {
    /// Snaps the continuous heading to the nearest of the four headings.
    pub fn to_heading(&self) -> (h: Heading)
        ensures
            h == spec_quantize(self.theta.0),
    {
        let r: i32 = self.theta.0 % TAU_Q16;
        let t: i32 = if r < 0 {
            r + TAU_Q16
        } else {
            r
        };
        assert(t as int == normalized_angle(self.theta.0));
        if t < EIGHTH_TURN_Q16 || t >= SEVEN_EIGHTHS_Q16 {
            Heading::E
        } else if t < THREE_EIGHTHS_Q16 {
            Heading::N
        } else if t < FIVE_EIGHTHS_Q16 {
            Heading::W
        } else {
            Heading::S
        }
    }
}

/// Adding a full turn does not change the snapped heading.
pub proof fn lemma_quantize_full_turn(theta: i32)
    requires
        theta as int + TAU_Q16 as int <= i32::MAX,
    ensures
        spec_quantize((theta + TAU_Q16) as i32) == spec_quantize(theta),
{
    assert(((theta as int + TAU_Q16 as int) % (TAU_Q16 as int)) == (theta as int) % (TAU_Q16 as int))
        by (nonlinear_arith);
}

/// Odometry-only updates tolerated before the pose counts as dead reckoning.
pub const MAX_DEAD_RECKONING_TICKS: u16 = 3u16;

/// How the pose estimate is being kept: odometry updates since the last lidar
/// fix, and the mode they put the estimate in.
pub struct LocalizationTracker {
    mode: LocalizationMode,
    dead_reckoning_ticks: u16,
}

impl LocalizationTracker {
    pub closed spec fn spec_mode(&self) -> LocalizationMode {
        self.mode
    }

    pub closed spec fn spec_ticks(&self) -> u16 {
        self.dead_reckoning_ticks
    }

    /// A fresh estimate: fused, no odometry-only update yet.
    pub fn new() -> (r: Self)
        ensures
            r.spec_mode() == LocalizationMode::Fused,
            r.spec_ticks() == 0,
    {
        LocalizationTracker { mode: LocalizationMode::Fused, dead_reckoning_ticks: 0 }
    }

    pub fn mode(&self) -> (r: LocalizationMode)
        ensures
            r == self.spec_mode(),
    {
        self.mode
    }

    pub fn dead_reckoning_ticks(&self) -> (r: u16)
        ensures
            r == self.spec_ticks(),
    {
        self.dead_reckoning_ticks
    }

    /// One odometry-only update: counted, and past the tolerance the estimate
    /// becomes dead reckoning.
    pub fn on_odometry(&mut self)
        requires
            old(self).spec_ticks() < u16::MAX,
        ensures
            final(self).spec_ticks() == old(self).spec_ticks() + 1,
            final(self).spec_mode() == if old(self).spec_ticks() + 1 > MAX_DEAD_RECKONING_TICKS {
                LocalizationMode::DeadReckoning
            } else {
                old(self).spec_mode()
            },
    {
        self.dead_reckoning_ticks = self.dead_reckoning_ticks + 1;
        if self.dead_reckoning_ticks > MAX_DEAD_RECKONING_TICKS {
            self.mode = LocalizationMode::DeadReckoning;
        }
    }

    /// A lidar fix or a reset to a known cell: fused again, count cleared.
    pub fn on_fix(&mut self)
        ensures
            final(self).spec_mode() == LocalizationMode::Fused,
            final(self).spec_ticks() == 0,
    {
        self.dead_reckoning_ticks = 0;
        self.mode = LocalizationMode::Fused;
    }
}

} // verus!

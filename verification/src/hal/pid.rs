//! PID control in Q16.16 fixed point.
//!
//! Cascaded architecture: a heading PD controller gives the angular velocity, a
//! distance PID controller the linear velocity. Every computation is
//! deterministic fixed point.
use crate::space_time::{clamp_i32, Q16_16};
use vstd::prelude::*;

verus! {

/// pi in Q16.16.
pub const PI_Q16: i32 = 205887i32;

/// 0.8 in Q16.16: the largest slow-down of the linear velocity while turning.
pub const MAX_TURN_SLOWDOWN_Q16: i32 = 52428i32;

/// 1.0 in Q16.16.
pub const ONE_Q16: i32 = 65536i32;

/// Smallest time step (in Q16.16 seconds) for which the derivative is taken:
/// the first above 0.0001 s.
pub const MIN_DT_RAW: i32 = 7i32;

/// Clamp into `[-max, max]`, the lower bound taken in the `i32` range.
pub open spec fn clamp_sym(v: int, max: int) -> int {
    if v > max {
        max
    } else if v < clamp_i32(-max) {
        clamp_i32(-max)
    } else {
        v
    }
}

/// Division rounding toward zero.
pub open spec fn div_trunc(a: int, b: int) -> int {
    if a >= 0 {
        a / b
    } else {
        -((-a) / b)
    }
}

/// Q16.16 product (see `Q16_16::mul`).
pub open spec fn qmul(a: i32, b: i32) -> i32 {
    ((a as int * b as int) / 65536) as i32
}

/// Q16.16 saturating sum.
pub open spec fn qadd(a: i32, b: i32) -> i32 {
    clamp_i32(a + b) as i32
}

/// Rate of change of the error over `dt`, in Q16.16, zero for a tiny `dt`.
pub open spec fn derivative(error: i32, prev_error: i32, dt: i32) -> i32 {
    if dt >= MIN_DT_RAW {
        clamp_i32(div_trunc((error - prev_error) * 65536, dt as int)) as i32
    } else {
        0
    }
}

/// PID controller with output and anti-windup clamps.
#[derive(Debug, Clone)]
pub struct PidController {
    kp: Q16_16,
    ki: Q16_16,
    kd: Q16_16,
    integral: Q16_16,
    prev_error: Q16_16,
    output_max: Q16_16,
    integral_max: Q16_16,
}

/// The controller's gains, limits and state, as raw Q16.16 values.
pub struct PidView {
    pub kp: i32,
    pub ki: i32,
    pub kd: i32,
    pub integral: i32,
    pub prev_error: i32,
    pub output_max: i32,
    pub integral_max: i32,
}

/// Integral after an update: accumulated, then held within the windup limit.
pub open spec fn next_integral(p: PidView, error: i32, dt: i32) -> i32 {
    clamp_sym(qadd(p.integral, qmul(error, dt)) as int, p.integral_max as int) as i32
}

/// Output of an update: P + I + D, held within the output limit.
pub open spec fn pid_output(p: PidView, error: i32, dt: i32) -> i32 {
    let p_term = qmul(p.kp, error);
    let i_term = qmul(p.ki, next_integral(p, error, dt));
    let d_term = qmul(p.kd, derivative(error, p.prev_error, dt));
    clamp_sym(qadd(qadd(p_term, i_term), d_term) as int, p.output_max as int) as i32
}

impl PidController {
    pub closed spec fn view(&self) -> PidView {
        PidView {
            kp: self.kp.0,
            ki: self.ki.0,
            kd: self.kd.0,
            integral: self.integral.0,
            prev_error: self.prev_error.0,
            output_max: self.output_max.0,
            integral_max: self.integral_max.0,
        }
    }

    /// A controller with the given gains and limits, at rest.
    pub fn from_gains(kp: Q16_16, ki: Q16_16, kd: Q16_16, output_max: Q16_16, integral_max: Q16_16) -> (r: Self)
        ensures
            r.view() == (PidView {
                kp: kp.0,
                ki: ki.0,
                kd: kd.0,
                integral: 0,
                prev_error: 0,
                output_max: output_max.0,
                integral_max: integral_max.0,
            }),
    {
        PidController {
            kp,
            ki,
            kd,
            integral: Q16_16(0),
            prev_error: Q16_16(0),
            output_max,
            integral_max,
        }
    }

    fn clamp_symmetric(v: Q16_16, max: Q16_16) -> (r: Q16_16)
        ensures
            r.0 == clamp_sym(v.0 as int, max.0 as int),
    {
        let neg: i64 = -(max.0 as i64);
        let low: i32 = if neg > i32::MAX as i64 {
            i32::MAX
        } else {
            neg as i32
        };
        if v.0 > max.0 {
            max
        } else if v.0 < low {
            Q16_16(low)
        } else {
            v
        }
    }

    fn rate(error: Q16_16, prev_error: Q16_16, dt: Q16_16) -> (r: Q16_16)
        ensures
            r.0 == derivative(error.0, prev_error.0, dt.0),
    {
        if dt.0 >= MIN_DT_RAW {
            let diff: i64 = error.0 as i64 - prev_error.0 as i64;
            let mag: u64 = if diff >= 0 {
                diff as u64
            } else {
                (-diff) as u64
            };
            let num: u64 = mag * 65536;
            let q: u64 = num / (dt.0 as u64);
            assert(q <= num) by (nonlinear_arith)
                requires
                    q as int == num as int / dt.0 as int,
                    dt.0 >= 7,
            ;
            let signed: i64 = if diff >= 0 {
                q as i64
            } else {
                -(q as i64)
            };
            if signed > i32::MAX as i64 {
                Q16_16(i32::MAX)
            } else if signed < i32::MIN as i64 {
                Q16_16(i32::MIN)
            } else {
                Q16_16(signed as i32)
            }
        } else {
            Q16_16(0)
        }
    }

    /// One control step for `error` over `dt` seconds: integrates (with
    /// anti-windup), differentiates against the previous error, and returns the
    /// clamped output.
    pub fn update(&mut self, error: Q16_16, dt: Q16_16) -> (r: Q16_16)
        ensures
            r.0 == pid_output(old(self).view(), error.0, dt.0),
            final(self).view() == (PidView {
                integral: next_integral(old(self).view(), error.0, dt.0),
                prev_error: error.0,
                ..old(self).view()
            }),
    {
        let p_term = self.kp.mul(error);
        let accumulated = self.integral.add(error.mul(dt));
        self.integral = Self::clamp_symmetric(accumulated, self.integral_max);
        let i_term = self.ki.mul(self.integral);
        let d_error = Self::rate(error, self.prev_error, dt);
        let d_term = self.kd.mul(d_error);
        self.prev_error = error;
        let output = p_term.add(i_term).add(d_term);
        Self::clamp_symmetric(output, self.output_max)
    }

    /// Clears the integral and the previous error.
    pub fn reset(&mut self)
        ensures
            final(self).view() == (PidView { integral: 0, prev_error: 0, ..old(self).view() }),
    {
        self.integral = Q16_16(0);
        self.prev_error = Q16_16(0);
    }

    /// Accumulated integral.
    pub fn integral(&self) -> (r: Q16_16)
        ensures
            r.0 == self.view().integral,
    {
        self.integral
    }

    /// Error of the previous update.
    pub fn prev_error(&self) -> (r: Q16_16)
        ensures
            r.0 == self.view().prev_error,
    {
        self.prev_error
    }
}

/// The integral never leaves the windup band, and the output never leaves the
/// output band (for non-negative limits).
pub proof fn lemma_pid_bounded(p: PidView, error: i32, dt: i32)
    requires
        p.integral_max >= 0,
        p.output_max >= 0,
    ensures
        -p.integral_max <= next_integral(p, error, dt) <= p.integral_max,
        -p.output_max <= pid_output(p, error, dt) <= p.output_max,
{
}

/// Heading PD controller feeding a distance PID controller.
pub struct CascadedController {
    pub heading_controller: PidController,
    pub distance_controller: PidController,
}

/// Factor (in Q16.16) applied to the linear velocity while turning:
/// 1 - min(|heading error| / pi, 0.8).
pub open spec fn turn_factor(heading_error: i32) -> i32 {
    let ratio = (spec_abs_i(heading_error as int) * 65536) / (PI_Q16 as int);
    let slowdown = if ratio <= MAX_TURN_SLOWDOWN_Q16 {
        ratio
    } else {
        MAX_TURN_SLOWDOWN_Q16 as int
    };
    (ONE_Q16 - slowdown) as i32
}

pub open spec fn spec_abs_i(v: int) -> int {
    if v < 0 {
        -v
    } else {
        v
    }
}

impl CascadedController {
    /// Default tuning for a warehouse AMR: heading PD kp 3.0, kd 0.1, at most
    /// 2.0 rad/s; distance PID kp 1.5, ki 0.1, kd 0.3, at most 1.0 m/s, integral
    /// limit 2.0.
    pub fn default_amr() -> (r: Self)
        ensures
            r.heading_controller.view() == (PidView {
                kp: 196608,
                ki: 0,
                kd: 6553,
                integral: 0,
                prev_error: 0,
                output_max: 131072,
                integral_max: 0,
            }),
            r.distance_controller.view() == (PidView {
                kp: 98304,
                ki: 6553,
                kd: 19660,
                integral: 0,
                prev_error: 0,
                output_max: 65536,
                integral_max: 131072,
            }),
    {
        CascadedController {
            heading_controller: PidController::from_gains(
                Q16_16(196608),
                Q16_16(0),
                Q16_16(6553),
                Q16_16(131072),
                Q16_16(0),
            ),
            distance_controller: PidController::from_gains(
                Q16_16(98304),
                Q16_16(6553),
                Q16_16(19660),
                Q16_16(65536),
                Q16_16(131072),
            ),
        }
    }

    fn factor(heading_error: Q16_16) -> (r: Q16_16)
        ensures
            r.0 == turn_factor(heading_error.0),
    {
        let mag: u64 = if heading_error.0 >= 0 {
            heading_error.0 as u64
        } else {
            (-(heading_error.0 as i64)) as u64
        };
        let ratio: u64 = (mag * 65536) / (PI_Q16 as u64);
        let slowdown: u64 = if ratio <= MAX_TURN_SLOWDOWN_Q16 as u64 {
            ratio
        } else {
            MAX_TURN_SLOWDOWN_Q16 as u64
        };
        Q16_16((ONE_Q16 as i64 - slowdown as i64) as i32)
    }

    /// One step of both loops: the heading error drives the angular velocity; the
    /// distance error, scaled down while turning, drives the linear velocity, which
    /// is scaled down again. Returns (linear, angular).
    pub fn update(&mut self, heading_error: Q16_16, distance_error: Q16_16, dt: Q16_16) -> (r: (
        Q16_16,
        Q16_16,
    ))
        ensures
            r.1.0 == pid_output(old(self).heading_controller.view(), heading_error.0, dt.0),
            r.0.0 == qmul(
                pid_output(
                    old(self).distance_controller.view(),
                    qmul(distance_error.0, turn_factor(heading_error.0)),
                    dt.0,
                ),
                turn_factor(heading_error.0),
            ),
            final(self).heading_controller.view() == (PidView {
                integral: next_integral(old(self).heading_controller.view(), heading_error.0, dt.0),
                prev_error: heading_error.0,
                ..old(self).heading_controller.view()
            }),
            final(self).distance_controller.view() == (PidView {
                integral: next_integral(
                    old(self).distance_controller.view(),
                    qmul(distance_error.0, turn_factor(heading_error.0)),
                    dt.0,
                ),
                prev_error: qmul(distance_error.0, turn_factor(heading_error.0)),
                ..old(self).distance_controller.view()
            }),
    {
        let angular_vel = self.heading_controller.update(heading_error, dt);
        let factor = Self::factor(heading_error);
        let scaled = distance_error.mul(factor);
        let linear = self.distance_controller.update(scaled, dt).mul(factor);
        (linear, angular_vel)
    }

    pub fn reset(&mut self)
        ensures
            final(self).heading_controller.view() == (PidView {
                integral: 0,
                prev_error: 0,
                ..old(self).heading_controller.view()
            }),
            final(self).distance_controller.view() == (PidView {
                integral: 0,
                prev_error: 0,
                ..old(self).distance_controller.view()
            }),
    {
        self.heading_controller.reset();
        self.distance_controller.reset();
    }
}

/// The derivative term is the change of the error per unit of time: nothing for a
/// step below the minimum, zero when the error did not change, and otherwise the
/// change scaled to Q16.16 divided by `dt` and rounded toward zero (while that
/// fits an `i32`). Adding the same amount to both errors changes nothing.
pub proof fn lemma_derivative_law(error: i32, prev_error: i32, dt: i32)
    ensures
        dt < MIN_DT_RAW ==> derivative(error, prev_error, dt) == 0,
        error == prev_error ==> derivative(error, prev_error, dt) == 0,
        dt >= MIN_DT_RAW && error >= prev_error && (error - prev_error) * 65536 < 2147483648 * dt
            ==> 0 <= (error - prev_error) * 65536 - derivative(error, prev_error, dt) * dt < dt,
        dt >= MIN_DT_RAW && error < prev_error && (prev_error - error) * 65536 < 2147483648 * dt
            ==> 0 <= derivative(error, prev_error, dt) * dt - (error - prev_error) * 65536 < dt,
        dt >= MIN_DT_RAW && error >= prev_error && (error - prev_error) * 65536 >= 2147483648 * dt
            ==> derivative(error, prev_error, dt) == i32::MAX,
        dt >= MIN_DT_RAW && error < prev_error && (prev_error - error) * 65536 >= 2147483648 * dt
            ==> derivative(error, prev_error, dt) == i32::MIN,
{
    if dt >= MIN_DT_RAW {
        let d = dt as int;
        if error >= prev_error {
            let a = (error - prev_error) * 65536;
            vstd::arithmetic::div_mod::lemma_fundamental_div_mod(a, d);
            vstd::arithmetic::div_mod::lemma_mod_bound(a, d);
            let q = a / d;
            assert(q * d == d * q) by (nonlinear_arith);
            if a >= 2147483648 * d {
                assert(q >= 2147483648) by (nonlinear_arith)
                    requires
                        a == d * q + a % d,
                        a % d < d,
                        a >= 2147483648 * d,
                        d > 0,
                ;
            }
            if a < 2147483648 * d {
                assert(q < 2147483648) by (nonlinear_arith)
                    requires
                        a == d * q + a % d,
                        0 <= a % d,
                        a < 2147483648 * d,
                        d > 0,
                ;
                assert(q >= 0) by (nonlinear_arith)
                    requires
                        a >= 0,
                        d > 0,
                        q == a / d,
                ;
            }
            if error == prev_error {
                assert(a == 0);
                assert(q == 0) by (nonlinear_arith)
                    requires
                        a == 0,
                        d > 0,
                        q == a / d,
                ;
            }
        } else {
            let a = (prev_error - error) * 65536;
            vstd::arithmetic::div_mod::lemma_fundamental_div_mod(a, d);
            vstd::arithmetic::div_mod::lemma_mod_bound(a, d);
            let q = a / d;
            assert(q * d == d * q) by (nonlinear_arith);
            assert(div_trunc((error - prev_error) * 65536, d) == -q);
            if a >= 2147483648 * d {
                assert(q >= 2147483648) by (nonlinear_arith)
                    requires
                        a == d * q + a % d,
                        a % d < d,
                        a >= 2147483648 * d,
                        d > 0,
                ;
            }
            if a < 2147483648 * d {
                assert(q < 2147483648) by (nonlinear_arith)
                    requires
                        a == d * q + a % d,
                        0 <= a % d,
                        a < 2147483648 * d,
                        d > 0,
                ;
                assert(q >= 0) by (nonlinear_arith)
                    requires
                        a >= 0,
                        d > 0,
                        q == a / d,
                ;
                assert((-q) * d == -(q * d)) by (nonlinear_arith);
            }
        }
    }
}

/// A pure derivative controller answers nothing while the error holds still:
/// with no proportional and no integral gain, an update whose error equals the
/// previous one outputs zero, whatever the derivative gain and time step.
pub proof fn lemma_steady_error_no_output(p: PidView, error: i32, dt: i32)
    requires
        p.kp == 0,
        p.ki == 0,
        p.prev_error == error,
        p.output_max >= 0,
    ensures
        pid_output(p, error, dt) == 0,
{
    lemma_derivative_law(error, error, dt);
    assert(qmul(p.kd, 0) == 0);
    assert(qmul(0, error) == 0);
    assert(qmul(0, next_integral(p, error, dt)) == 0);
}

} // verus!

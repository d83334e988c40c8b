//! TASK_CFP micro-bursting decisions, and the EDGE_BLOCKED cells appended to the
//! heartbeat for five seconds after the last report.
use std::time::Instant;
use vstd::prelude::*;

verus! {

#[verifier::external_type_specification]
#[verifier::external_body]
pub struct ExInstant(Instant);

/// Reads the clock: `std::time::Instant::now`. Nothing is stated of the value.
#[verifier::external_body]
fn instant_now() -> (r: Instant) {
    Instant::now()
}

/// Time since `ts` in nanoseconds: `std::time::Instant::elapsed`, converted with
/// `Duration::as_nanos`. Nothing is stated of the value, which depends on the clock.
#[verifier::external_body]
fn elapsed_nanos(ts: &Instant) -> (r: u128) {
    ts.elapsed().as_nanos()
}

/// Blocked cells stay on the heartbeat for this long after the last report (5 s).
pub const PIGGYBACK_WINDOW_NANOS: u128 = 5000000000u128;

/// Result of one TASK_CFP broadcast.
#[derive(Debug, Clone, Copy, PartialEq, Eq, Structural)]
pub enum BurstOutcome {
    /// A quorum of bidders answered.
    QuorumReached,
    /// Sent, but no quorum yet.
    NoQuorum,
    /// The broadcast failed.
    Failed,
}

/// What the burst loop does after a broadcast.
#[derive(Debug, Clone, Copy, PartialEq, Eq, Structural)]
pub enum BurstAction {
    /// The burst succeeded.
    Finish,
    /// Wait one interval and broadcast again, while the window lasts.
    SleepThenRetry,
}

/// Aggressive linear micro-bursting of TASK_CFP: broadcast every 100 ms for
/// exactly 1 s; without a quorum by then the task is dequeued.
pub struct TaskCfpManager {
    burst_interval_ms: u64,
    burst_window_ms: u64,
}

impl TaskCfpManager {
    pub closed spec fn interval_ms(&self) -> u64 {
        self.burst_interval_ms
    }

    pub closed spec fn window_ms(&self) -> u64 {
        self.burst_window_ms
    }

    pub fn new() -> (r: Self)
        ensures
            r.interval_ms() == 100,
            r.window_ms() == 1000,
    {
        TaskCfpManager { burst_interval_ms: 100, burst_window_ms: 1000 }
    }

    /// Pause between two broadcasts, in milliseconds.
    pub fn burst_interval_ms(&self) -> (r: u64)
        ensures
            r == self.interval_ms(),
    {
        self.burst_interval_ms
    }

    /// Another broadcast may start `elapsed_ms` after the burst began.
    pub fn window_open(&self, elapsed_ms: u64) -> (r: bool)
        ensures
            r == (elapsed_ms < self.window_ms()),
    {
        elapsed_ms < self.burst_window_ms
    }

    /// Stop on a quorum; otherwise (no quorum yet, or a failed send) wait and retry.
    pub fn after_broadcast(&self, outcome: BurstOutcome) -> (r: BurstAction)
        ensures
            r == (if outcome == BurstOutcome::QuorumReached {
                BurstAction::Finish
            } else {
                BurstAction::SleepThenRetry
            }),
    {
        match outcome {
            BurstOutcome::QuorumReached => BurstAction::Finish,
            BurstOutcome::NoQuorum => BurstAction::SleepThenRetry,
            BurstOutcome::Failed => BurstAction::SleepThenRetry,
        }
    }
}

/// Grid coordinates of cells reported blocked, appended to the heartbeat.
pub struct PiggybackTelemetry {
    blocked_cells: Vec<(u16, u16)>,
    block_timestamp: Option<Instant>,
}

impl PiggybackTelemetry {
    /// The reported cells, each once, in report order.
    pub closed spec fn cells(&self) -> Seq<(u16, u16)> {
        self.blocked_cells@
    }

    /// A report has been made since the list was last cleared.
    pub closed spec fn has_timestamp(&self) -> bool {
        self.block_timestamp is Some
    }

    pub fn new() -> (r: Self)
        ensures
            r.cells() == Seq::<(u16, u16)>::empty(),
            !r.has_timestamp(),
    {
        PiggybackTelemetry { blocked_cells: Vec::new(), block_timestamp: None }
    }

    fn copy_cells(&self) -> (r: Vec<(u16, u16)>)
        ensures
            r@ == self.cells(),
    {
        let mut out: Vec<(u16, u16)> = Vec::new();
        let mut i: usize = 0;
        while i < self.blocked_cells.len()
            invariant
                i <= self.cells().len(),
                out@ == self.cells().take(i as int),
            decreases self.cells().len() - i,
        {
            out.push(self.blocked_cells[i]);
            proof {
                assert(out@ =~= self.cells().take(i + 1));
            }
            i = i + 1;
        }
        assert(self.cells().take(self.cells().len() as int) =~= self.cells());
        out
    }

    /// Records a blocked cell (once) and restarts the five-second window.
    pub fn report_edge_blocked(&mut self, x: u16, y: u16)
        ensures
            final(self).cells() == (if old(self).cells().contains((x, y)) {
                old(self).cells()
            } else {
                old(self).cells().push((x, y))
            }),
            final(self).has_timestamp(),
    {
        let mut found: bool = false;
        let mut i: usize = 0;
        while i < self.blocked_cells.len()
            invariant
                i <= self.cells().len(),
                found == self.cells().take(i as int).contains((x, y)),
            decreases self.cells().len() - i,
        {
            proof {
                assert(self.cells().take(i + 1) =~= self.cells().take(i as int).push(self.cells()[i as int]));
            }
            let c = self.blocked_cells[i];
            if c.0 == x && c.1 == y {
                found = true;
            }
            proof {
                let t = self.cells().take(i + 1);
                if c == (x, y) {
                    assert(t[i as int] == (x, y));
                } else if t.contains((x, y)) {
                    let j = choose|j: int| 0 <= j < t.len() && #[trigger] t[j] == (x, y);
                    assert(self.cells().take(i as int)[j] == (x, y));
                }
            }
            i = i + 1;
        }
        assert(self.cells().take(self.cells().len() as int) =~= self.cells());
        if !found {
            self.blocked_cells.push((x, y));
        }
        self.block_timestamp = Some(instant_now());
    }

    /// The cells to append to the heartbeat, when the last report is `age_nanos`
    /// old: all of them within five seconds; after that the list is cleared.
    pub fn payload_for_age(&mut self, age_nanos: u128) -> (r: Option<Vec<(u16, u16)>>)
        requires
            old(self).has_timestamp(),
        ensures
            age_nanos <= PIGGYBACK_WINDOW_NANOS ==> {
                &&& r matches Some(v) && v@ == old(self).cells()
                &&& final(self).cells() == old(self).cells()
                &&& final(self).has_timestamp()
            },
            age_nanos > PIGGYBACK_WINDOW_NANOS ==> {
                &&& r is None
                &&& final(self).cells() == Seq::<(u16, u16)>::empty()
                &&& !final(self).has_timestamp()
            },
    {
        if age_nanos <= PIGGYBACK_WINDOW_NANOS {
            Some(self.copy_cells())
        } else {
            self.blocked_cells.clear();
            self.block_timestamp = None;
            None
        }
    }

    /// The cells to append to the heartbeat now (see `payload_for_age`); nothing
    /// when no cell was reported since the last clearing.
    pub fn get_piggyback_payload(&mut self) -> (r: Option<Vec<(u16, u16)>>)
        ensures
            !old(self).has_timestamp() ==> r is None && final(self).cells() == old(self).cells()
                && !final(self).has_timestamp(),
            old(self).has_timestamp() ==> {
                ||| {
                    &&& r matches Some(v) && v@ == old(self).cells()
                    &&& final(self).cells() == old(self).cells()
                    &&& final(self).has_timestamp()
                }
                ||| {
                    &&& r is None
                    &&& final(self).cells() == Seq::<(u16, u16)>::empty()
                    &&& !final(self).has_timestamp()
                }
            },
    {
        let age: Option<u128> = match &self.block_timestamp {
            Some(ts) => Some(elapsed_nanos(ts)),
            None => None,
        };
        match age {
            Some(a) => self.payload_for_age(a),
            None => None,
        }
    }
}

} // verus!

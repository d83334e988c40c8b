//! Status snapshots for monitoring tools: their 32-byte wire form, the
//! broadcaster that paces them, and the fleet-wide view a dashboard keeps.
//! Positions and velocities travel as the bit patterns of 32-bit floats, which
//! this module carries without reading.
use crate::collections::{
    keys_of, lemma_filter_count, lemma_sum_by_is_total, sum_by, total_by,
};
use crate::fsm::{lemma_state_code_roundtrip, state_code, state_of_code, AgentState};
use crate::network::payloads::{get16, get32, zeros};
use crate::network::wire::{lemma_le_roundtrips, pad_to, push_u16, push_u32, read_u16, read_u32};
use crate::space_time::{
    heading_code, heading_of_code, lemma_heading_code_roundtrip, CellID, Heading, Tick,
};
use std::collections::HashMap;
use vstd::bytes::{spec_u16_to_le_bytes, spec_u32_to_le_bytes};
use vstd::prelude::*;

verus! {

broadcast use vstd::std_specs::hash::group_hash_axioms;

/// Message tag of a telemetry snapshot.
pub const MSG_TELEMETRY: u8 = 0x10u8;

/// Wire size of a snapshot.
pub const SNAPSHOT_BYTES: usize = 32usize;

/// Task field value that stands for "no task".
pub const NO_TASK: u16 = 0xFFFFu16;

/// Status of one agent at one tick.
#[derive(Debug, Clone, Copy, PartialEq, Eq, Structural)]
pub struct TelemetrySnapshot {
    pub agent_id: u8,
    pub tick: Tick,
    pub state: AgentState,
    pub cell: CellID,
    pub heading: Heading,
    /// Bits of the x position in metres (IEEE 754 single precision).
    pub x_m_bits: u32,
    /// Bits of the y position in metres.
    pub y_m_bits: u32,
    /// Bits of the heading angle in radians.
    pub theta_rad_bits: u32,
    /// Bits of the linear velocity in m/s (not sent on the wire).
    pub linear_vel_bits: u32,
    /// Bits of the angular velocity in rad/s (not sent on the wire).
    pub angular_vel_bits: u32,
    pub battery_pct: u8,
    pub yield_count: u8,
    pub task_id: Option<u16>,
    pub plan_attempts: u8,
}

/// The task field as sent.
pub open spec fn task_code(t: Option<u16>) -> u16 {
    match t {
        Some(v) => v,
        None => NO_TASK,
    }
}

/// Snapshot layout: 27 bytes of fields, zero-padded to 32.
pub open spec fn snapshot_bytes(s: TelemetrySnapshot) -> Seq<u8> {
    seq![MSG_TELEMETRY, s.agent_id] + spec_u32_to_le_bytes(s.tick) + seq![state_code(s.state)]
        + spec_u16_to_le_bytes(s.cell) + seq![heading_code(s.heading)] + spec_u32_to_le_bytes(
        s.x_m_bits,
    ) + spec_u32_to_le_bytes(s.y_m_bits) + spec_u32_to_le_bytes(s.theta_rad_bits) + seq![
        s.battery_pct,
        s.yield_count,
    ] + spec_u16_to_le_bytes(task_code(s.task_id)) + seq![s.plan_attempts] + zeros(5)
}

/// Snapshot decoding: needs 32 bytes, the tag, a known state and a known
/// heading. Velocities are not on the wire and come back as zero.
pub open spec fn snapshot_decode(s: Seq<u8>) -> Option<TelemetrySnapshot> {
    if s.len() < 32 || s[0] != MSG_TELEMETRY {
        None
    } else {
        match (state_of_code(s[6]), heading_of_code(s[9])) {
            (Some(state), Some(heading)) => Some(
                TelemetrySnapshot {
                    agent_id: s[1],
                    tick: get32(s, 2),
                    state,
                    cell: get16(s, 7),
                    heading,
                    x_m_bits: get32(s, 10),
                    y_m_bits: get32(s, 14),
                    theta_rad_bits: get32(s, 18),
                    linear_vel_bits: 0,
                    angular_vel_bits: 0,
                    battery_pct: s[22],
                    yield_count: s[23],
                    task_id: if get16(s, 24) == NO_TASK {
                        None
                    } else {
                        Some(get16(s, 24))
                    },
                    plan_attempts: s[26],
                },
            ),
            _ => None,
        }
    }
}

impl TelemetrySnapshot {
    /// The 32-byte wire form.
    pub fn serialize(&self) -> (r: Vec<u8>)
        ensures
            r@ == snapshot_bytes(*self),
    {
        proof {
            lemma_le_roundtrips();
        }
        let mut buf: Vec<u8> = Vec::new();
        buf.push(MSG_TELEMETRY);
        buf.push(self.agent_id);
        push_u32(&mut buf, self.tick);
        buf.push(self.state.to_u8());
        push_u16(&mut buf, self.cell);
        buf.push(self.heading.to_u8());
        push_u32(&mut buf, self.x_m_bits);
        push_u32(&mut buf, self.y_m_bits);
        push_u32(&mut buf, self.theta_rad_bits);
        buf.push(self.battery_pct);
        buf.push(self.yield_count);
        let task: u16 = match self.task_id {
            Some(t) => t,
            None => NO_TASK,
        };
        push_u16(&mut buf, task);
        buf.push(self.plan_attempts);
        pad_to(&mut buf, SNAPSHOT_BYTES);
        assert(buf@ =~= snapshot_bytes(*self));
        buf
    }

    /// Reads a snapshot back from its wire form.
    pub fn deserialize(data: &[u8]) -> (r: Option<Self>)
        ensures
            r == snapshot_decode(data@),
    {
        if data.len() < SNAPSHOT_BYTES || data[0] != MSG_TELEMETRY {
            return None;
        }
        let state = match AgentState::from_u8(data[6]) {
            Some(s) => s,
            None => {
                return None;
            },
        };
        let heading = match Heading::from_u8(data[9]) {
            Some(h) => h,
            None => {
                return None;
            },
        };
        let tid: u16 = read_u16(data, 24);
        Some(
            TelemetrySnapshot {
                agent_id: data[1],
                tick: read_u32(data, 2),
                state,
                cell: read_u16(data, 7),
                heading,
                x_m_bits: read_u32(data, 10),
                y_m_bits: read_u32(data, 14),
                theta_rad_bits: read_u32(data, 18),
                linear_vel_bits: 0,
                angular_vel_bits: 0,
                battery_pct: data[22],
                yield_count: data[23],
                task_id: if tid == NO_TASK {
                    None
                } else {
                    Some(tid)
                },
                plan_attempts: data[26],
            },
        )
    }
}

/// A snapshot survives its wire form, but for the velocities, which are not
/// sent. A task numbered 0xFFFF cannot be told from "no task".
pub proof fn lemma_snapshot_roundtrip(s: TelemetrySnapshot)
    requires
        s.task_id != Some(NO_TASK),
    ensures
        snapshot_bytes(s).len() == SNAPSHOT_BYTES,
        snapshot_decode(snapshot_bytes(s)) == Some(
            TelemetrySnapshot { linear_vel_bits: 0, angular_vel_bits: 0, ..s },
        ),
{
    lemma_le_roundtrips();
    lemma_state_code_roundtrip(s.state);
    lemma_heading_code_roundtrip(s.heading);
    let b = snapshot_bytes(s);
    assert(b.subrange(2, 6) =~= spec_u32_to_le_bytes(s.tick));
    assert(b.subrange(7, 9) =~= spec_u16_to_le_bytes(s.cell));
    assert(b.subrange(10, 14) =~= spec_u32_to_le_bytes(s.x_m_bits));
    assert(b.subrange(14, 18) =~= spec_u32_to_le_bytes(s.y_m_bits));
    assert(b.subrange(18, 22) =~= spec_u32_to_le_bytes(s.theta_rad_bits));
    assert(b.subrange(24, 26) =~= spec_u16_to_le_bytes(task_code(s.task_id)));
}

// ─── Broadcaster ───

/// The broadcaster as the contracts see it.
pub struct BroadcasterView {
    pub interval_ticks: u32,
    /// Tick of the last broadcast; none before the first.
    pub last_broadcast_tick: Option<Tick>,
    /// Snapshots sent, when logging is on.
    pub log: Option<Seq<TelemetrySnapshot>>,
    pub active: bool,
}

/// Paces snapshot broadcasts and optionally keeps what it sent.
pub struct TelemetryBroadcaster {
    interval_ticks: u32,
    last_broadcast_tick: Option<Tick>,
    log: Option<Vec<TelemetrySnapshot>>,
    active: bool,
}

impl View for TelemetryBroadcaster {
    type V = BroadcasterView;

    closed spec fn view(&self) -> BroadcasterView {
        BroadcasterView {
            interval_ticks: self.interval_ticks,
            last_broadcast_tick: self.last_broadcast_tick,
            log: match self.log {
                Some(v) => Some(v@),
                None => None,
            },
            active: self.active,
        }
    }
}

impl TelemetryBroadcaster {
    /// An inactive broadcaster without a log.
    pub fn new(interval_ticks: u32) -> (r: Self)
        ensures
            r@ == (BroadcasterView {
                interval_ticks,
                last_broadcast_tick: None,
                log: None,
                active: false,
            }),
    {
        TelemetryBroadcaster { interval_ticks, last_broadcast_tick: None, log: None, active: false }
    }

    /// An active broadcaster that logs what it sends.
    pub fn with_logging(interval_ticks: u32) -> (r: Self)
        ensures
            r@ == (BroadcasterView {
                interval_ticks,
                last_broadcast_tick: None,
                log: Some(Seq::empty()),
                active: true,
            }),
    {
        TelemetryBroadcaster {
            interval_ticks,
            last_broadcast_tick: None,
            log: Some(Vec::new()),
            active: true,
        }
    }

    pub fn start(&mut self)
        ensures
            final(self)@ == (BroadcasterView { active: true, ..old(self)@ }),
    {
        self.active = true;
    }

    pub fn stop(&mut self)
        ensures
            final(self)@ == (BroadcasterView { active: false, ..old(self)@ }),
    {
        self.active = false;
    }

    /// A broadcast is due when the broadcaster is active and nothing was sent
    /// yet, or a full interval has passed since the last broadcast.
    pub fn should_broadcast(&self, current_tick: Tick) -> (r: bool)
        ensures
            r == (self@.active && match self@.last_broadcast_tick {
                None => true,
                Some(last) => current_tick >= last + self@.interval_ticks,
            }),
    {
        if !self.active {
            return false;
        }
        match self.last_broadcast_tick {
            None => true,
            Some(last) => (current_tick as u64) >= (last as u64) + (self.interval_ticks as u64),
        }
    }

    /// Sends a snapshot: when active, gives its wire form, logs it and makes
    /// its tick the last broadcast; when inactive, sends nothing.
    pub fn broadcast(&mut self, snapshot: TelemetrySnapshot) -> (r: Option<Vec<u8>>)
        ensures
            !old(self)@.active ==> r is None && final(self)@ == old(self)@,
            old(self)@.active ==> (r matches Some(bytes) && bytes@ == snapshot_bytes(snapshot)),
            old(self)@.active ==> final(self)@ == (BroadcasterView {
                last_broadcast_tick: Some(snapshot.tick),
                log: match old(self)@.log {
                    Some(l) => Some(l.push(snapshot)),
                    None => None,
                },
                ..old(self)@
            }),
    {
        if !self.active {
            return None;
        }
        let bytes = snapshot.serialize();
        match &mut self.log {
            Some(log) => {
                log.push(snapshot);
            },
            None => {},
        }
        self.last_broadcast_tick = Some(snapshot.tick);
        Some(bytes)
    }

    /// Sends a snapshot on a state change, whatever the interval.
    pub fn broadcast_state_change(&mut self, snapshot: TelemetrySnapshot) -> (r: Option<Vec<u8>>)
        ensures
            !old(self)@.active ==> r is None && final(self)@ == old(self)@,
            old(self)@.active ==> (r matches Some(bytes) && bytes@ == snapshot_bytes(snapshot)),
            old(self)@.active ==> final(self)@ == (BroadcasterView {
                last_broadcast_tick: Some(snapshot.tick),
                log: match old(self)@.log {
                    Some(l) => Some(l.push(snapshot)),
                    None => None,
                },
                ..old(self)@
            }),
    {
        self.broadcast(snapshot)
    }

    /// The snapshots logged, when logging is on.
    pub fn get_log(&self) -> (r: Option<&[TelemetrySnapshot]>)
        ensures
            match self@.log {
                Some(l) => r matches Some(s) && s@ == l,
                None => r is None,
            },
    {
        match &self.log {
            Some(log) => Some(log.as_slice()),
            None => None,
        }
    }

    /// Empties the log, if there is one.
    pub fn clear_log(&mut self)
        ensures
            final(self)@ == (BroadcasterView {
                log: match old(self)@.log {
                    Some(l) => Some(Seq::empty()),
                    None => None,
                },
                ..old(self)@
            }),
    {
        match &mut self.log {
            Some(log) => {
                log.clear();
            },
            None => {},
        }
    }
}

// ─── Fleet view ───

/// Whether a state is one of the yielding states.
pub open spec fn is_yielding(s: AgentState) -> bool {
    s == AgentState::Yielding || s == AgentState::YieldingPullover || s
        == AgentState::YieldingParked
}

/// Agents of the fleet view whose state has the given code.
pub open spec fn in_state(m: Map<u8, TelemetrySnapshot>, code: u8) -> spec_fn(u8) -> bool {
    |k: u8| state_code(m[k].state) == code
}

/// Agents of the fleet view that are yielding.
pub open spec fn yielding_agent(m: Map<u8, TelemetrySnapshot>) -> spec_fn(u8) -> bool {
    |k: u8| is_yielding(m[k].state)
}

/// Battery level of an agent of the fleet view.
pub open spec fn battery_of(m: Map<u8, TelemetrySnapshot>) -> spec_fn(u8) -> nat {
    |k: u8| m[k].battery_pct as nat
}

/// Whether a snapshot is recent enough to keep: fewer than `max_age_ticks`
/// ticks old (a snapshot from the future counts as new).
pub open spec fn is_fresh(current_tick: Tick, max_age_ticks: u32, s: TelemetrySnapshot) -> bool {
    (if current_tick >= s.tick {
        current_tick - s.tick
    } else {
        0
    }) < max_age_ticks
}

/// Distinct `u8` values are at most 256.
proof fn lemma_u8_listing_len(ks: Seq<u8>)
    requires
        ks.no_duplicates(),
    ensures
        ks.len() <= 256,
{
    let wide = ks.map_values(|k: u8| k as int);
    assert(wide.no_duplicates()) by {
        assert forall|i: int, j: int| 0 <= i < wide.len() && 0 <= j < wide.len() && i != j implies wide[i]
            != wide[j] by {
            assert(ks[i] != ks[j]);
        }
    }
    assert(wide.to_set().subset_of(vstd::set_lib::set_int_range(0, 256))) by {
        assert forall|x: int| wide.to_set().contains(x) implies vstd::set_lib::set_int_range(
            0,
            256,
        ).contains(x) by {
            assert(wide.contains(x));
        }
    }
    vstd::set_lib::lemma_int_range(0, 256);
    vstd::set_lib::lemma_len_subset(wide.to_set(), vstd::set_lib::set_int_range(0, 256));
    wide.unique_seq_to_set();
}

/// Latest snapshot of every agent heard from.
pub struct FleetTelemetry {
    latest: HashMap<u8, TelemetrySnapshot>,
}

impl View for FleetTelemetry {
    type V = Map<u8, TelemetrySnapshot>;

    closed spec fn view(&self) -> Map<u8, TelemetrySnapshot> {
        self.latest@
    }
}

impl FleetTelemetry {
    /// An empty fleet view.
    pub fn new() -> (r: Self)
        ensures
            r@ == Map::<u8, TelemetrySnapshot>::empty(),
    {
        FleetTelemetry { latest: HashMap::new() }
    }

    /// Records a snapshot as its agent's latest.
    pub fn update(&mut self, snapshot: TelemetrySnapshot)
        ensures
            final(self)@ == old(self)@.insert(snapshot.agent_id, snapshot),
    {
        self.latest.insert(snapshot.agent_id, snapshot);
    }

    /// The latest snapshot of an agent, if it was heard from.
    pub fn get(&self, agent_id: u8) -> (r: Option<&TelemetrySnapshot>)
        ensures
            match r {
                Some(s) => self@.contains_key(agent_id) && *s == self@[agent_id],
                None => !self@.contains_key(agent_id),
            },
    {
        self.latest.get(&agent_id)
    }

    /// The latest snapshot of every agent, each once, in the map's iteration
    /// order.
    pub fn all(&self) -> (r: Vec<TelemetrySnapshot>)
        ensures
            exists|ks: Seq<u8>|
                {
                    &&& ks.no_duplicates()
                    &&& ks.to_set() == self@.dom()
                    &&& #[trigger] r@ == ks.map_values(|k: u8| self@[k])
                },
    {
        let ks = keys_of(&self.latest);
        let mut out: Vec<TelemetrySnapshot> = Vec::new();
        let mut i: usize = 0;
        while i < ks.len()
            invariant
                i <= ks@.len(),
                ks@.to_set() == self@.dom(),
                out@ == ks@.take(i as int).map_values(|k: u8| self@[k]),
            decreases ks@.len() - i,
        {
            let k = ks[i];
            assert(self@.dom().contains(k)) by {
                assert(ks@.contains(k));
            }
            match self.latest.get(&k) {
                Some(snap) => {
                    out.push(*snap);
                    proof {
                        assert(out@ =~= ks@.take(i + 1).map_values(|k: u8| self@[k]));
                    }
                },
                None => {
                    assert(false);
                },
            }
            i = i + 1;
        }
        assert(ks@.take(ks@.len() as int) =~= ks@);
        out
    }

    /// Number of agents in each state, by state code; only states that some
    /// agent is in appear.
    pub fn state_counts(&self) -> (r: HashMap<u8, usize>)
        ensures
            forall|code: u8|
                #[trigger] r@.contains_key(code) <==> self@.dom().filter(in_state(self@, code)).len()
                    > 0,
            forall|code: u8|
                #[trigger] r@.contains_key(code) ==> r@[code] == self@.dom().filter(
                    in_state(self@, code),
                ).len(),
    {
        let ks = keys_of(&self.latest);
        let ghost m = self@;
        let mut counts: HashMap<u8, usize> = HashMap::new();
        let mut i: usize = 0;
        proof {
            reveal(Seq::filter);
        }
        while i < ks.len()
            invariant
                i <= ks@.len(),
                ks@.to_set() == m.dom(),
                m == self@,
                forall|code: u8|
                    #[trigger] counts@.contains_key(code) <==> ks@.take(i as int).filter(
                        in_state(m, code),
                    ).len() > 0,
                forall|code: u8|
                    #[trigger] counts@.contains_key(code) ==> counts@[code] == ks@.take(
                        i as int,
                    ).filter(in_state(m, code)).len(),
            decreases ks@.len() - i,
        {
            let k = ks[i];
            assert(m.dom().contains(k)) by {
                assert(ks@.contains(k));
            }
            let snap: TelemetrySnapshot = match self.latest.get(&k) {
                Some(s) => *s,
                None => {
                    assert(false);
                    return HashMap::new();
                },
            };
            let c: u8 = snap.state.to_u8();
            proof {
                assert(ks@.take(i + 1) =~= ks@.take(i as int).push(k));
                assert forall|code: u8| true implies #[trigger] ks@.take(i + 1).filter(
                    in_state(m, code),
                ) == if code == c {
                    ks@.take(i as int).filter(in_state(m, code)).push(k)
                } else {
                    ks@.take(i as int).filter(in_state(m, code))
                } by {
                    ks@.take(i as int).lemma_filter_push(k, in_state(m, code));
                }
                ks@.take(i as int).lemma_filter_len(in_state(m, c));
            }
            let n: usize = match counts.get(&c) {
                Some(n) => *n,
                None => 0,
            };
            counts.insert(c, n + 1);
            i = i + 1;
        }
        proof {
            assert(ks@.take(ks@.len() as int) =~= ks@);
            assert forall|code: u8| true implies #[trigger] ks@.filter(in_state(m, code)).len()
                == m.dom().filter(in_state(m, code)).len() by {
                lemma_filter_count(ks@, in_state(m, code));
            }
        }
        counts
    }

    /// Total battery level over the fleet, and the number of agents (what the
    /// fleet's average battery level divides).
    pub fn battery_totals(&self) -> (r: (u32, usize))
        ensures
            r.0 == total_by(self@.dom(), battery_of(self@)),
            r.1 == self@.dom().len(),
    {
        let ks = keys_of(&self.latest);
        let ghost m = self@;
        let ghost w = battery_of(m);
        proof {
            lemma_u8_listing_len(ks@);
            lemma_sum_by_is_total(ks@, w);
            ks@.unique_seq_to_set();
        }
        let mut sum: u32 = 0;
        let mut i: usize = 0;
        while i < ks.len()
            invariant
                i <= ks@.len(),
                ks@.len() <= 256,
                ks@.to_set() == m.dom(),
                m == self@,
                w == battery_of(m),
                sum == sum_by(ks@.take(i as int), w),
                sum <= 255 * i,
            decreases ks@.len() - i,
        {
            let k = ks[i];
            assert(m.dom().contains(k)) by {
                assert(ks@.contains(k));
            }
            match self.latest.get(&k) {
                Some(snap) => {
                    proof {
                        assert(ks@.take(i + 1).drop_last() =~= ks@.take(i as int));
                    }
                    sum = sum + snap.battery_pct as u32;
                },
                None => {
                    assert(false);
                },
            }
            i = i + 1;
        }
        assert(ks@.take(ks@.len() as int) =~= ks@);
        (sum, ks.len())
    }

    /// Number of agents in a yielding state.
    pub fn yielding_count(&self) -> (r: usize)
        ensures
            r == self@.dom().filter(yielding_agent(self@)).len(),
    {
        let ks = keys_of(&self.latest);
        let ghost m = self@;
        let mut count: usize = 0;
        let mut i: usize = 0;
        proof {
            reveal(Seq::filter);
        }
        while i < ks.len()
            invariant
                i <= ks@.len(),
                ks@.to_set() == m.dom(),
                m == self@,
                count == ks@.take(i as int).filter(yielding_agent(m)).len(),
            decreases ks@.len() - i,
        {
            let k = ks[i];
            assert(m.dom().contains(k)) by {
                assert(ks@.contains(k));
            }
            proof {
                assert(ks@.take(i + 1) =~= ks@.take(i as int).push(k));
                ks@.take(i as int).lemma_filter_push(k, yielding_agent(m));
                ks@.take(i as int).lemma_filter_len(yielding_agent(m));
            }
            match self.latest.get(&k) {
                Some(snap) => {
                    match snap.state {
                        AgentState::Yielding | AgentState::YieldingPullover
                        | AgentState::YieldingParked => {
                            count = count + 1;
                        },
                        _ => {},
                    }
                },
                None => {
                    assert(false);
                },
            }
            i = i + 1;
        }
        proof {
            assert(ks@.take(ks@.len() as int) =~= ks@);
            lemma_filter_count(ks@, yielding_agent(m));
        }
        count
    }

    /// Drops the agents whose latest snapshot is `max_age_ticks` or more ticks
    /// old.
    pub fn prune_stale(&mut self, current_tick: Tick, max_age_ticks: u32)
        ensures
            forall|k: u8|
                #[trigger] final(self)@.contains_key(k) <==> old(self)@.contains_key(k)
                    && is_fresh(current_tick, max_age_ticks, old(self)@[k]),
            forall|k: u8| #[trigger]
                final(self)@.contains_key(k) ==> final(self)@[k] == old(self)@[k],
    {
        let ks = keys_of(&self.latest);
        let ghost m0 = self@;
        let mut i: usize = 0;
        while i < ks.len()
            invariant
                i <= ks@.len(),
                ks@.to_set() == m0.dom(),
                ks@.no_duplicates(),
                m0 == old(self)@,
                forall|k: u8|
                    #[trigger] self@.contains_key(k) <==> m0.contains_key(k) && (ks@.take(
                        i as int,
                    ).contains(k) ==> is_fresh(current_tick, max_age_ticks, m0[k])),
                forall|k: u8| #[trigger] self@.contains_key(k) ==> self@[k] == m0[k],
            decreases ks@.len() - i,
        {
            let k = ks[i];
            assert(m0.dom().contains(k)) by {
                assert(ks@.contains(k));
            }
            proof {
                assert(ks@.take(i + 1) =~= ks@.take(i as int).push(k));
                assert(!ks@.take(i as int).contains(k)) by {
                    if ks@.take(i as int).contains(k) {
                        let j = choose|j: int| 0 <= j < i && ks@.take(i as int)[j] == k;
                        assert(ks@[j] == ks@[i as int]);
                    }
                }
            }
            assert(self@.contains_key(k));
            let ghost before = self@;
            let snap: TelemetrySnapshot = match self.latest.get(&k) {
                Some(s) => *s,
                None => {
                    assert(false);
                    return;
                },
            };
            assert(snap == m0[k]);
            let age: u32 = current_tick.saturating_sub(snap.tick);
            if age >= max_age_ticks {
                self.latest.remove(&k);
                assert(self@ == before.remove(k));
                assert(!is_fresh(current_tick, max_age_ticks, m0[k]));
            } else {
                assert(self@ == before);
                assert(is_fresh(current_tick, max_age_ticks, m0[k]));
            }
            proof {
                assert forall|x: u8| #[trigger]
                    ks@.take(i + 1).contains(x) <==> (ks@.take(i as int).contains(x) || x == k) by {
                    if x == k {
                        assert(ks@.take(i + 1)[i as int] == k);
                    }
                    if ks@.take(i as int).contains(x) {
                        let j = choose|j: int| 0 <= j < i && ks@.take(i as int)[j] == x;
                        assert(ks@.take(i + 1)[j] == x);
                    }
                }
            }
            i = i + 1;
        }
        proof {
            assert(ks@.take(ks@.len() as int) =~= ks@);
            assert forall|k: u8| m0.contains_key(k) implies #[trigger] ks@.contains(k) by {
                assert(ks@.to_set().contains(k));
            }
        }
    }
}

} // verus!

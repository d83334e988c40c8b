//! Wire payloads broadcast between agents, their byte layout and its decoding.
use crate::network::wire::{
    lemma_le_roundtrips, pad_to, push_u16, push_u32, read_u16, read_u32,
};
use crate::space_time::{CellID, Heading, Q8_8, Tick};
use vstd::bytes::{
    spec_u16_from_le_bytes, spec_u16_to_le_bytes, spec_u32_from_le_bytes, spec_u32_to_le_bytes,
};
use vstd::prelude::*;

verus! {

pub const MSG_INTENT: u8 = 0x01u8;
pub const MSG_TASK_CFP: u8 = 0x02u8;
pub const MSG_TASK_BID: u8 = 0x03u8;
pub const MSG_EDGE_BLOCKED: u8 = 0x04u8;
pub const MSG_TASK_AWARD: u8 = 0x05u8;
pub const MSG_INTENT_BRAKE: u8 = 0x06u8;
pub const MSG_GRIDLOCK: u8 = 0x07u8;

/// Little-endian field reads over a byte sequence.
pub open spec fn get16(s: Seq<u8>, at: int) -> u16 {
    spec_u16_from_le_bytes(s.subrange(at, at + 2))
}

pub open spec fn get32(s: Seq<u8>, at: int) -> u32 {
    spec_u32_from_le_bytes(s.subrange(at, at + 4))
}

/// `n` bytes of zero padding.
pub open spec fn zeros(n: nat) -> Seq<u8> {
    Seq::new(n, |i: int| 0u8)
}

// ─── Wire-format waypoint (10 bytes) ───
#[derive(Debug, Clone, Copy, PartialEq, Eq, Structural)]
pub struct WireWaypoint {
    pub cell_id: CellID,
    pub t_arrive: Tick,
    pub t_depart: Tick,
}

pub open spec fn wire_waypoint_bytes(w: WireWaypoint) -> Seq<u8> {
    spec_u16_to_le_bytes(w.cell_id) + spec_u32_to_le_bytes(w.t_arrive) + spec_u32_to_le_bytes(
        w.t_depart,
    )
}

/// The waypoint whose 10 bytes start at offset `at`.
pub open spec fn wire_waypoint_at(s: Seq<u8>, at: int) -> WireWaypoint {
    WireWaypoint { cell_id: get16(s, at), t_arrive: get32(s, at + 2), t_depart: get32(s, at + 6) }
}

impl WireWaypoint {
    pub fn serialize(&self, buf: &mut Vec<u8>)
        ensures
            final(buf)@ == old(buf)@ + wire_waypoint_bytes(*self),
    {
        let ghost start = buf@;
        push_u16(buf, self.cell_id);
        push_u32(buf, self.t_arrive);
        push_u32(buf, self.t_depart);
        assert(buf@ =~= start + wire_waypoint_bytes(*self));
    }

    pub fn deserialize(data: &[u8]) -> (r: Option<Self>)
        ensures
            r == (if data@.len() < 10 {
                None
            } else {
                Some(wire_waypoint_at(data@, 0))
            }),
    {
        if data.len() < 10 {
            return None;
        }
        Some(WireWaypoint {
            cell_id: read_u16(data, 0),
            t_arrive: read_u32(data, 2),
            t_depart: read_u32(data, 6),
        })
    }
}

/// Decoding the bytes of a waypoint gives it back.
pub proof fn lemma_wire_waypoint_roundtrip(w: WireWaypoint, pre: Seq<u8>, post: Seq<u8>)
    ensures
        wire_waypoint_bytes(w).len() == 10,
        wire_waypoint_at(pre + wire_waypoint_bytes(w) + post, pre.len() as int) == w,
{
    lemma_le_roundtrips();
    let s = pre + wire_waypoint_bytes(w) + post;
    let p = pre.len() as int;
    assert(s.subrange(p, p + 2) =~= spec_u16_to_le_bytes(w.cell_id));
    assert(s.subrange(p + 2, p + 6) =~= spec_u32_to_le_bytes(w.t_arrive));
    assert(s.subrange(p + 6, p + 10) =~= spec_u32_to_le_bytes(w.t_depart));
}


/// Concatenated wire bytes of a list of waypoints.
pub open spec fn waypoints_bytes(ws: Seq<WireWaypoint>) -> Seq<u8>
    decreases ws.len(),
{
    if ws.len() == 0 {
        Seq::empty()
    } else {
        waypoints_bytes(ws.drop_last()) + wire_waypoint_bytes(ws.last())
    }
}

proof fn lemma_waypoints_bytes_len(ws: Seq<WireWaypoint>)
    ensures
        waypoints_bytes(ws).len() == 10 * ws.len(),
    decreases ws.len(),
{
    lemma_le_roundtrips();
    if ws.len() > 0 {
        lemma_waypoints_bytes_len(ws.drop_last());
    }
}

/// The `i`-th waypoint is found again at offset `10 * i` of the concatenation.
proof fn lemma_waypoints_bytes_at(ws: Seq<WireWaypoint>, pre: Seq<u8>, post: Seq<u8>, i: int)
    requires
        0 <= i < ws.len(),
    ensures
        wire_waypoint_at(pre + waypoints_bytes(ws) + post, pre.len() + 10 * i) == ws[i],
    decreases ws.len(),
{
    lemma_waypoints_bytes_len(ws);
    let init = ws.drop_last();
    lemma_waypoints_bytes_len(init);
    if i == ws.len() - 1 {
        let pre2 = pre + waypoints_bytes(init);
        lemma_wire_waypoint_roundtrip(ws.last(), pre2, post);
        assert(pre + waypoints_bytes(ws) + post =~= pre2 + wire_waypoint_bytes(ws.last()) + post);
    } else {
        let post2 = wire_waypoint_bytes(ws.last()) + post;
        lemma_waypoints_bytes_at(init, pre, post2, i);
        assert(pre + waypoints_bytes(ws) + post =~= pre + waypoints_bytes(init) + post2);
    }
}

// ─── INTENT ───
#[derive(Debug, Clone)]
pub struct IntentPayload {
    pub agent_id: u8,
    pub seq_no: u16,
    pub heading: Heading,
    pub waypoints: Vec<WireWaypoint>,
}

/// Plain-value model of an INTENT payload.
pub struct IntentView {
    pub agent_id: u8,
    pub seq_no: u16,
    pub heading: Heading,
    pub waypoints: Seq<WireWaypoint>,
}

impl View for IntentPayload {
    type V = IntentView;

    open spec fn view(&self) -> IntentView {
        IntentView {
            agent_id: self.agent_id,
            seq_no: self.seq_no,
            heading: self.heading,
            waypoints: self.waypoints@,
        }
    }
}

/// INTENT layout: [0x01] [agent_id] [seq_no: u16] [count: u8] [waypoint x count].
/// The count is the number of waypoints truncated to a byte.
pub open spec fn intent_bytes(p: IntentView) -> Seq<u8> {
    seq![MSG_INTENT, p.agent_id] + spec_u16_to_le_bytes(p.seq_no) + seq![
        (p.waypoints.len() % 256) as u8,
    ] + waypoints_bytes(p.waypoints)
}

/// INTENT decoding; the heading is not on the wire and reads back as north.
pub open spec fn intent_decode(s: Seq<u8>) -> Option<IntentView> {
    if s.len() < 5 || s[0] != MSG_INTENT || s.len() < 5 + 10 * (s[4] as int) {
        None
    } else {
        Some(
            IntentView {
                agent_id: s[1],
                seq_no: get16(s, 2),
                heading: Heading::N,
                waypoints: Seq::new(s[4] as nat, |i: int| wire_waypoint_at(s, 5 + 10 * i)),
            },
        )
    }
}

impl IntentPayload {
    pub fn serialize(&self) -> (r: Vec<u8>)
        ensures
            r@ == intent_bytes(self@),
    {
        let mut buf: Vec<u8> = Vec::new();
        buf.push(MSG_INTENT);
        buf.push(self.agent_id);
        push_u16(&mut buf, self.seq_no);
        let n: usize = self.waypoints.len();
        buf.push(#[verifier::truncate] ((n % 256) as u8));
        let ghost head = buf@;
        let mut i: usize = 0;
        while i < n
            invariant
                n == self.waypoints@.len(),
                i <= n,
                buf@ == head + waypoints_bytes(self.waypoints@.take(i as int)),
            decreases n - i,
        {
            self.waypoints[i].serialize(&mut buf);
            proof {
                let t = self.waypoints@.take(i + 1);
                assert(t.drop_last() =~= self.waypoints@.take(i as int));
                assert(buf@ =~= head + waypoints_bytes(t));
            }
            i = i + 1;
        }
        assert(self.waypoints@.take(n as int) =~= self.waypoints@);
        assert(buf@ =~= intent_bytes(self@));
        buf
    }

    pub fn deserialize(data: &[u8]) -> (r: Option<Self>)
        ensures
            match r {
                Some(p) => intent_decode(data@) == Some(p@),
                None => intent_decode(data@) is None,
            },
    {
        let len: usize = data.len();
        if len < 5 {
            return None;
        }
        if data[0] != MSG_INTENT {
            return None;
        }
        let agent_id = data[1];
        let seq_no = read_u16(data, 2);
        let wp_count: usize = data[4] as usize;
        if len < 5 + wp_count * 10 {
            return None;
        }
        let mut waypoints: Vec<WireWaypoint> = Vec::new();
        let mut i: usize = 0;
        while i < wp_count
            invariant
                len == data@.len(),
                wp_count == data@[4] as usize,
                5 + wp_count * 10 <= len,
                i <= wp_count,
                waypoints@.len() == i,
                forall|k: int|
                    0 <= k < i ==> #[trigger] waypoints@[k] == wire_waypoint_at(data@, 5 + 10 * k),
            decreases wp_count - i,
        {
            let offset: usize = 5 + i * 10;
            let rest = vstd::slice::slice_subrange(data, offset, len);
            match WireWaypoint::deserialize(rest) {
                Some(wp) => {
                    proof {
                        assert(data@.subrange(offset as int, len as int).subrange(0, 2)
                            =~= data@.subrange(offset as int, offset + 2));
                        assert(data@.subrange(offset as int, len as int).subrange(2, 6)
                            =~= data@.subrange(offset + 2, offset + 6));
                        assert(data@.subrange(offset as int, len as int).subrange(6, 10)
                            =~= data@.subrange(offset + 6, offset + 10));
                    }
                    waypoints.push(wp);
                },
                None => {
                    return None;
                },
            }
            i = i + 1;
        }
        let r = IntentPayload { agent_id, seq_no, heading: Heading::N, waypoints };
        assert(r@.waypoints =~= intent_decode(data@).unwrap().waypoints);
        Some(r)
    }
}

/// INTENT round trip: decoding what was encoded gives back the payload, except
/// the heading (not on the wire, read back as north); it needs at most 255
/// waypoints, since the count travels in one byte.
pub proof fn lemma_intent_roundtrip(p: IntentView)
    requires
        p.waypoints.len() <= 255,
    ensures
        intent_decode(intent_bytes(p)) == Some(IntentView { heading: Heading::N, ..p }),
{
    lemma_le_roundtrips();
    let s = intent_bytes(p);
    let pre = seq![MSG_INTENT, p.agent_id] + spec_u16_to_le_bytes(p.seq_no) + seq![
        (p.waypoints.len() % 256) as u8,
    ];
    lemma_waypoints_bytes_len(p.waypoints);
    assert(pre.len() == 5);
    assert(s.subrange(2, 4) =~= spec_u16_to_le_bytes(p.seq_no));
    assert(s[4] as int == p.waypoints.len());
    let d = intent_decode(s).unwrap();
    assert forall|i: int| 0 <= i < p.waypoints.len() implies #[trigger] d.waypoints[i]
        == p.waypoints[i] by {
        lemma_waypoints_bytes_at(p.waypoints, pre, Seq::empty(), i);
        assert(pre + waypoints_bytes(p.waypoints) + Seq::<u8>::empty() =~= s);
    }
    assert(d.waypoints =~= p.waypoints);
}


// ─── TASK_CFP (22 bytes) ───
#[derive(Debug, Clone, Copy, PartialEq, Eq, Structural)]
pub struct TaskCfpPayload {
    pub task_id: u16,
    pub pickup_cell: CellID,
    pub dropoff_cell: CellID,
    /// Urgency class 0-3.
    pub priority: u8,
    pub deadline_tick: Tick,
    pub manager_id: u8,
    pub bid_window_ticks: u16,
}

/// TASK_CFP layout: 15 bytes of fields, zero-padded to 22.
pub open spec fn cfp_bytes(p: TaskCfpPayload) -> Seq<u8> {
    seq![MSG_TASK_CFP] + spec_u16_to_le_bytes(p.task_id) + spec_u16_to_le_bytes(p.pickup_cell)
        + spec_u16_to_le_bytes(p.dropoff_cell) + seq![p.priority] + spec_u32_to_le_bytes(
        p.deadline_tick,
    ) + seq![p.manager_id] + spec_u16_to_le_bytes(p.bid_window_ticks) + zeros(7)
}

/// TASK_CFP decoding: needs at least 16 bytes and the tag.
pub open spec fn cfp_decode(s: Seq<u8>) -> Option<TaskCfpPayload> {
    if s.len() < 16 || s[0] != MSG_TASK_CFP {
        None
    } else {
        Some(
            TaskCfpPayload {
                task_id: get16(s, 1),
                pickup_cell: get16(s, 3),
                dropoff_cell: get16(s, 5),
                priority: s[7],
                deadline_tick: get32(s, 8),
                manager_id: s[12],
                bid_window_ticks: get16(s, 13),
            },
        )
    }
}

impl TaskCfpPayload {
    pub fn serialize(&self) -> (r: Vec<u8>)
        ensures
            r@ == cfp_bytes(*self),
    {
        proof {
            lemma_le_roundtrips();
        }
        let mut buf: Vec<u8> = Vec::new();
        buf.push(MSG_TASK_CFP);
        push_u16(&mut buf, self.task_id);
        push_u16(&mut buf, self.pickup_cell);
        push_u16(&mut buf, self.dropoff_cell);
        buf.push(self.priority);
        push_u32(&mut buf, self.deadline_tick);
        buf.push(self.manager_id);
        push_u16(&mut buf, self.bid_window_ticks);
        pad_to(&mut buf, 22);
        assert(buf@ =~= cfp_bytes(*self));
        buf
    }

    pub fn deserialize(data: &[u8]) -> (r: Option<Self>)
        ensures
            r == cfp_decode(data@),
    {
        if data.len() < 16 {
            return None;
        }
        if data[0] != MSG_TASK_CFP {
            return None;
        }
        Some(TaskCfpPayload {
            task_id: read_u16(data, 1),
            pickup_cell: read_u16(data, 3),
            dropoff_cell: read_u16(data, 5),
            priority: data[7],
            deadline_tick: read_u32(data, 8),
            manager_id: data[12],
            bid_window_ticks: read_u16(data, 13),
        })
    }
}

/// TASK_CFP round trip.
pub proof fn lemma_cfp_roundtrip(p: TaskCfpPayload)
    ensures
        cfp_bytes(p).len() == 22,
        cfp_decode(cfp_bytes(p)) == Some(p),
{
    lemma_le_roundtrips();
    let s = cfp_bytes(p);
    assert(s.subrange(1, 3) =~= spec_u16_to_le_bytes(p.task_id));
    assert(s.subrange(3, 5) =~= spec_u16_to_le_bytes(p.pickup_cell));
    assert(s.subrange(5, 7) =~= spec_u16_to_le_bytes(p.dropoff_cell));
    assert(s.subrange(8, 12) =~= spec_u32_to_le_bytes(p.deadline_tick));
    assert(s.subrange(13, 15) =~= spec_u16_to_le_bytes(p.bid_window_ticks));
}

// ─── TASK_BID (16 bytes) ───
#[derive(Debug, Clone, Copy, PartialEq, Eq, Structural)]
pub struct TaskBidPayload {
    pub task_id: u16,
    pub agent_id: u8,
    /// Bid utility in Q8.8 fixed point.
    pub utility: Q8_8,
    pub estimated_ticks: u16,
    pub battery_pct: u8,
    pub queue_depth: u8,
}

/// TASK_BID layout: 10 bytes of fields, zero-padded to 16.
pub open spec fn bid_bytes(p: TaskBidPayload) -> Seq<u8> {
    seq![MSG_TASK_BID] + spec_u16_to_le_bytes(p.task_id) + seq![p.agent_id]
        + spec_u16_to_le_bytes(p.utility.0) + spec_u16_to_le_bytes(p.estimated_ticks) + seq![
        p.battery_pct,
        p.queue_depth,
    ] + zeros(6)
}

pub open spec fn bid_decode(s: Seq<u8>) -> Option<TaskBidPayload> {
    if s.len() < 10 || s[0] != MSG_TASK_BID {
        None
    } else {
        Some(
            TaskBidPayload {
                task_id: get16(s, 1),
                agent_id: s[3],
                utility: Q8_8(get16(s, 4)),
                estimated_ticks: get16(s, 6),
                battery_pct: s[8],
                queue_depth: s[9],
            },
        )
    }
}

impl TaskBidPayload {
    pub fn serialize(&self) -> (r: Vec<u8>)
        ensures
            r@ == bid_bytes(*self),
    {
        proof {
            lemma_le_roundtrips();
        }
        let mut buf: Vec<u8> = Vec::new();
        buf.push(MSG_TASK_BID);
        push_u16(&mut buf, self.task_id);
        buf.push(self.agent_id);
        push_u16(&mut buf, self.utility.0);
        push_u16(&mut buf, self.estimated_ticks);
        buf.push(self.battery_pct);
        buf.push(self.queue_depth);
        pad_to(&mut buf, 16);
        assert(buf@ =~= bid_bytes(*self));
        buf
    }

    pub fn deserialize(data: &[u8]) -> (r: Option<Self>)
        ensures
            r == bid_decode(data@),
    {
        if data.len() < 10 {
            return None;
        }
        if data[0] != MSG_TASK_BID {
            return None;
        }
        Some(TaskBidPayload {
            task_id: read_u16(data, 1),
            agent_id: data[3],
            utility: Q8_8(read_u16(data, 4)),
            estimated_ticks: read_u16(data, 6),
            battery_pct: data[8],
            queue_depth: data[9],
        })
    }
}

/// TASK_BID round trip.
pub proof fn lemma_bid_roundtrip(p: TaskBidPayload)
    ensures
        bid_bytes(p).len() == 16,
        bid_decode(bid_bytes(p)) == Some(p),
{
    lemma_le_roundtrips();
    let s = bid_bytes(p);
    assert(s.subrange(1, 3) =~= spec_u16_to_le_bytes(p.task_id));
    assert(s.subrange(4, 6) =~= spec_u16_to_le_bytes(p.utility.0));
    assert(s.subrange(6, 8) =~= spec_u16_to_le_bytes(p.estimated_ticks));
}

// ─── TASK_AWARD (8 bytes) ───
#[derive(Debug, Clone, Copy, PartialEq, Eq, Structural)]
pub struct TaskAwardPayload {
    pub task_id: u16,
    pub agent_id: u8,
    pub pickup: CellID,
    pub dropoff: CellID,
}

pub open spec fn award_bytes(p: TaskAwardPayload) -> Seq<u8> {
    seq![MSG_TASK_AWARD] + spec_u16_to_le_bytes(p.task_id) + seq![p.agent_id]
        + spec_u16_to_le_bytes(p.pickup) + spec_u16_to_le_bytes(p.dropoff)
}

pub open spec fn award_decode(s: Seq<u8>) -> Option<TaskAwardPayload> {
    if s.len() < 8 || s[0] != MSG_TASK_AWARD {
        None
    } else {
        Some(
            TaskAwardPayload {
                task_id: get16(s, 1),
                agent_id: s[3],
                pickup: get16(s, 4),
                dropoff: get16(s, 6),
            },
        )
    }
}

impl TaskAwardPayload {
    pub fn serialize(&self) -> (r: Vec<u8>)
        ensures
            r@ == award_bytes(*self),
    {
        let mut buf: Vec<u8> = Vec::new();
        buf.push(MSG_TASK_AWARD);
        push_u16(&mut buf, self.task_id);
        buf.push(self.agent_id);
        push_u16(&mut buf, self.pickup);
        push_u16(&mut buf, self.dropoff);
        assert(buf@ =~= award_bytes(*self));
        buf
    }

    pub fn deserialize(data: &[u8]) -> (r: Option<Self>)
        ensures
            r == award_decode(data@),
    {
        if data.len() < 8 {
            return None;
        }
        if data[0] != MSG_TASK_AWARD {
            return None;
        }
        Some(TaskAwardPayload {
            task_id: read_u16(data, 1),
            agent_id: data[3],
            pickup: read_u16(data, 4),
            dropoff: read_u16(data, 6),
        })
    }
}

/// TASK_AWARD round trip.
pub proof fn lemma_award_roundtrip(p: TaskAwardPayload)
    ensures
        award_bytes(p).len() == 8,
        award_decode(award_bytes(p)) == Some(p),
{
    lemma_le_roundtrips();
    let s = award_bytes(p);
    assert(s.subrange(1, 3) =~= spec_u16_to_le_bytes(p.task_id));
    assert(s.subrange(4, 6) =~= spec_u16_to_le_bytes(p.pickup));
    assert(s.subrange(6, 8) =~= spec_u16_to_le_bytes(p.dropoff));
}

// ─── EDGE_BLOCKED (8 bytes) ───
#[derive(Debug, Clone, Copy, PartialEq, Eq, Structural)]
pub struct EdgeBlockedPayload {
    pub reporter_id: u8,
    pub blocked_cell: CellID,
    pub detected_tick: Tick,
}

pub open spec fn edge_blocked_bytes(p: EdgeBlockedPayload) -> Seq<u8> {
    seq![MSG_EDGE_BLOCKED, p.reporter_id] + spec_u16_to_le_bytes(p.blocked_cell)
        + spec_u32_to_le_bytes(p.detected_tick)
}

pub open spec fn edge_blocked_decode(s: Seq<u8>) -> Option<EdgeBlockedPayload> {
    if s.len() < 8 || s[0] != MSG_EDGE_BLOCKED {
        None
    } else {
        Some(
            EdgeBlockedPayload {
                reporter_id: s[1],
                blocked_cell: get16(s, 2),
                detected_tick: get32(s, 4),
            },
        )
    }
}

impl EdgeBlockedPayload {
    pub fn serialize(&self) -> (r: Vec<u8>)
        ensures
            r@ == edge_blocked_bytes(*self),
    {
        let mut buf: Vec<u8> = Vec::new();
        buf.push(MSG_EDGE_BLOCKED);
        buf.push(self.reporter_id);
        push_u16(&mut buf, self.blocked_cell);
        push_u32(&mut buf, self.detected_tick);
        assert(buf@ =~= edge_blocked_bytes(*self));
        buf
    }

    pub fn deserialize(data: &[u8]) -> (r: Option<Self>)
        ensures
            r == edge_blocked_decode(data@),
    {
        if data.len() < 8 {
            return None;
        }
        if data[0] != MSG_EDGE_BLOCKED {
            return None;
        }
        Some(EdgeBlockedPayload {
            reporter_id: data[1],
            blocked_cell: read_u16(data, 2),
            detected_tick: read_u32(data, 4),
        })
    }
}

/// EDGE_BLOCKED round trip.
pub proof fn lemma_edge_blocked_roundtrip(p: EdgeBlockedPayload)
    ensures
        edge_blocked_bytes(p).len() == 8,
        edge_blocked_decode(edge_blocked_bytes(p)) == Some(p),
{
    lemma_le_roundtrips();
    let s = edge_blocked_bytes(p);
    assert(s.subrange(2, 4) =~= spec_u16_to_le_bytes(p.blocked_cell));
    assert(s.subrange(4, 8) =~= spec_u32_to_le_bytes(p.detected_tick));
}

// ─── INTENT_BRAKE (11 bytes) ───
#[derive(Debug, Clone, Copy, PartialEq, Eq, Structural)]
pub struct IntentBrakePayload {
    pub agent_id: u8,
    pub cell: CellID,
    /// Heading wire code.
    pub heading: u8,
    pub stop_tick: Tick,
    /// Current speed in Q8.8 m/s.
    pub v_current_q8: u16,
}

pub open spec fn brake_bytes(p: IntentBrakePayload) -> Seq<u8> {
    seq![MSG_INTENT_BRAKE, p.agent_id] + spec_u16_to_le_bytes(p.cell) + seq![p.heading]
        + spec_u32_to_le_bytes(p.stop_tick) + spec_u16_to_le_bytes(p.v_current_q8)
}

pub open spec fn brake_decode(s: Seq<u8>) -> Option<IntentBrakePayload> {
    if s.len() < 11 || s[0] != MSG_INTENT_BRAKE {
        None
    } else {
        Some(
            IntentBrakePayload {
                agent_id: s[1],
                cell: get16(s, 2),
                heading: s[4],
                stop_tick: get32(s, 5),
                v_current_q8: get16(s, 9),
            },
        )
    }
}

impl IntentBrakePayload {
    pub fn serialize(&self) -> (r: Vec<u8>)
        ensures
            r@ == brake_bytes(*self),
    {
        let mut buf: Vec<u8> = Vec::new();
        buf.push(MSG_INTENT_BRAKE);
        buf.push(self.agent_id);
        push_u16(&mut buf, self.cell);
        buf.push(self.heading);
        push_u32(&mut buf, self.stop_tick);
        push_u16(&mut buf, self.v_current_q8);
        assert(buf@ =~= brake_bytes(*self));
        buf
    }

    pub fn deserialize(data: &[u8]) -> (r: Option<Self>)
        ensures
            r == brake_decode(data@),
    {
        if data.len() < 11 {
            return None;
        }
        if data[0] != MSG_INTENT_BRAKE {
            return None;
        }
        Some(IntentBrakePayload {
            agent_id: data[1],
            cell: read_u16(data, 2),
            heading: data[4],
            stop_tick: read_u32(data, 5),
            v_current_q8: read_u16(data, 9),
        })
    }
}

/// INTENT_BRAKE round trip.
pub proof fn lemma_brake_roundtrip(p: IntentBrakePayload)
    ensures
        brake_bytes(p).len() == 11,
        brake_decode(brake_bytes(p)) == Some(p),
{
    lemma_le_roundtrips();
    let s = brake_bytes(p);
    assert(s.subrange(2, 4) =~= spec_u16_to_le_bytes(p.cell));
    assert(s.subrange(5, 9) =~= spec_u32_to_le_bytes(p.stop_tick));
    assert(s.subrange(9, 11) =~= spec_u16_to_le_bytes(p.v_current_q8));
}

// ─── Unified packet ───
#[derive(Debug, Clone)]
pub enum Packet {
    Intent(IntentPayload),
    TaskCfp(TaskCfpPayload),
    TaskBid(TaskBidPayload),
    TaskAward(TaskAwardPayload),
    EdgeBlocked(EdgeBlockedPayload),
    IntentBrake(IntentBrakePayload),
}

/// Plain-value model of a packet.
pub enum PacketView {
    Intent(IntentView),
    TaskCfp(TaskCfpPayload),
    TaskBid(TaskBidPayload),
    TaskAward(TaskAwardPayload),
    EdgeBlocked(EdgeBlockedPayload),
    IntentBrake(IntentBrakePayload),
}

impl View for Packet {
    type V = PacketView;

    open spec fn view(&self) -> PacketView {
        match self {
            Packet::Intent(p) => PacketView::Intent(p@),
            Packet::TaskCfp(p) => PacketView::TaskCfp(*p),
            Packet::TaskBid(p) => PacketView::TaskBid(*p),
            Packet::TaskAward(p) => PacketView::TaskAward(*p),
            Packet::EdgeBlocked(p) => PacketView::EdgeBlocked(*p),
            Packet::IntentBrake(p) => PacketView::IntentBrake(*p),
        }
    }
}

pub open spec fn packet_bytes(p: PacketView) -> Seq<u8> {
    match p {
        PacketView::Intent(q) => intent_bytes(q),
        PacketView::TaskCfp(q) => cfp_bytes(q),
        PacketView::TaskBid(q) => bid_bytes(q),
        PacketView::TaskAward(q) => award_bytes(q),
        PacketView::EdgeBlocked(q) => edge_blocked_bytes(q),
        PacketView::IntentBrake(q) => brake_bytes(q),
    }
}

/// Dispatch on the leading message tag.
pub open spec fn packet_decode(s: Seq<u8>) -> Option<PacketView> {
    if s.len() == 0 {
        None
    } else if s[0] == MSG_INTENT {
        match intent_decode(s) {
            Some(q) => Some(PacketView::Intent(q)),
            None => None,
        }
    } else if s[0] == MSG_TASK_CFP {
        match cfp_decode(s) {
            Some(q) => Some(PacketView::TaskCfp(q)),
            None => None,
        }
    } else if s[0] == MSG_TASK_BID {
        match bid_decode(s) {
            Some(q) => Some(PacketView::TaskBid(q)),
            None => None,
        }
    } else if s[0] == MSG_TASK_AWARD {
        match award_decode(s) {
            Some(q) => Some(PacketView::TaskAward(q)),
            None => None,
        }
    } else if s[0] == MSG_EDGE_BLOCKED {
        match edge_blocked_decode(s) {
            Some(q) => Some(PacketView::EdgeBlocked(q)),
            None => None,
        }
    } else if s[0] == MSG_INTENT_BRAKE {
        match brake_decode(s) {
            Some(q) => Some(PacketView::IntentBrake(q)),
            None => None,
        }
    } else {
        None
    }
}

impl Packet {
    pub fn from_bytes(data: &[u8]) -> (r: Option<Self>)
        ensures
            match r {
                Some(p) => packet_decode(data@) == Some(p@),
                None => packet_decode(data@) is None,
            },
    {
        if data.len() == 0 {
            return None;
        }
        let tag = data[0];
        if tag == MSG_INTENT {
            match IntentPayload::deserialize(data) {
                Some(p) => Some(Packet::Intent(p)),
                None => None,
            }
        } else if tag == MSG_TASK_CFP {
            match TaskCfpPayload::deserialize(data) {
                Some(p) => Some(Packet::TaskCfp(p)),
                None => None,
            }
        } else if tag == MSG_TASK_BID {
            match TaskBidPayload::deserialize(data) {
                Some(p) => Some(Packet::TaskBid(p)),
                None => None,
            }
        } else if tag == MSG_TASK_AWARD {
            match TaskAwardPayload::deserialize(data) {
                Some(p) => Some(Packet::TaskAward(p)),
                None => None,
            }
        } else if tag == MSG_EDGE_BLOCKED {
            match EdgeBlockedPayload::deserialize(data) {
                Some(p) => Some(Packet::EdgeBlocked(p)),
                None => None,
            }
        } else if tag == MSG_INTENT_BRAKE {
            match IntentBrakePayload::deserialize(data) {
                Some(p) => Some(Packet::IntentBrake(p)),
                None => None,
            }
        } else {
            None
        }
    }

    pub fn to_bytes(&self) -> (r: Vec<u8>)
        ensures
            r@ == packet_bytes(self@),
    {
        match self {
            Packet::Intent(p) => p.serialize(),
            Packet::TaskCfp(p) => p.serialize(),
            Packet::TaskBid(p) => p.serialize(),
            Packet::TaskAward(p) => p.serialize(),
            Packet::EdgeBlocked(p) => p.serialize(),
            Packet::IntentBrake(p) => p.serialize(),
        }
    }
}

/// Packet round trip: every packet decodes back to itself, except that an
/// INTENT reads back with a north heading and needs at most 255 waypoints.
pub proof fn lemma_packet_roundtrip(p: PacketView)
    requires
        p matches PacketView::Intent(q) ==> q.waypoints.len() <= 255,
    ensures
        packet_decode(packet_bytes(p)) == (match p {
            PacketView::Intent(q) => Some(PacketView::Intent(IntentView { heading: Heading::N, ..q })),
            _ => Some(p),
        }),
{
    match p {
        PacketView::Intent(q) => {
            lemma_intent_roundtrip(q);
        },
        PacketView::TaskCfp(q) => {
            lemma_cfp_roundtrip(q);
        },
        PacketView::TaskBid(q) => {
            lemma_bid_roundtrip(q);
        },
        PacketView::TaskAward(q) => {
            lemma_award_roundtrip(q);
        },
        PacketView::EdgeBlocked(q) => {
            lemma_edge_blocked_roundtrip(q);
        },
        PacketView::IntentBrake(q) => {
            lemma_brake_roundtrip(q);
        },
    }
}

} // verus!

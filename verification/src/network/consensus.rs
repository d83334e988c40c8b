//! Two-phase trajectory locking (PREPARE, ACK_PROMISE, COMMIT / ABORT) and the
//! Lamport clocks that order its messages.
//!
//! No agent is meant to execute a trajectory without holding committed locks
//! for every cell of it.
use crate::network::wire::{lemma_le_roundtrips, push_u32, push_u64, read_u16, read_u32, read_u64};
use crate::space_time::{CellID, SafeInterval, Tick, spec_abs, spec_col, spec_overlaps, spec_row};
use crate::collections::{keys_of, total_len, total_len_of, vec_values};
use std::cmp::Ordering;
use std::collections::HashMap;
use vstd::bytes::{
    spec_u16_from_le_bytes, spec_u16_to_le_bytes, spec_u32_from_le_bytes, spec_u32_to_le_bytes,
    spec_u64_from_le_bytes, spec_u64_to_le_bytes,
};
use vstd::prelude::*;

verus! {

// ─── Lamport clock ───

/// Scalar logical clock: every local event and send increments it, every
/// receive merges `max(local, remote) + 1`.
#[derive(Debug, Clone, Copy, PartialEq, Eq, Structural)]
pub struct LamportClock {
    counter: u64,
    agent_id: u8,
}

/// Strict total order on `(timestamp, agent)` pairs: lower timestamp first,
/// ties broken by the lower agent identifier.
pub open spec fn lamport_order(ts_a: u64, id_a: u8, ts_b: u64, id_b: u8) -> Ordering {
    if ts_a < ts_b {
        Ordering::Less
    } else if ts_a > ts_b {
        Ordering::Greater
    } else if id_a < id_b {
        Ordering::Less
    } else if id_a > id_b {
        Ordering::Greater
    } else {
        Ordering::Equal
    }
}

impl LamportClock {
    /// Current logical time.
    pub closed spec fn time(&self) -> u64 {
        self.counter
    }

    /// Owner of the clock.
    pub closed spec fn owner(&self) -> u8 {
        self.agent_id
    }

    pub fn new(agent_id: u8) -> (c: LamportClock)
        ensures
            c.time() == 0,
            c.owner() == agent_id,
    {
        LamportClock { counter: 0, agent_id }
    }

    /// Local event: increments and returns the new time.
    pub fn tick(&mut self) -> (t: u64)
        requires
            old(self).time() < u64::MAX,
        ensures
            t == old(self).time() + 1,
            final(self).time() == t,
            final(self).owner() == old(self).owner(),
    {
        self.counter = self.counter + 1;
        self.counter
    }

    /// Message send: increments and returns the timestamp to put on the wire.
    pub fn send_timestamp(&mut self) -> (t: u64)
        requires
            old(self).time() < u64::MAX,
        ensures
            t == old(self).time() + 1,
            final(self).time() == t,
            final(self).owner() == old(self).owner(),
    {
        self.counter = self.counter + 1;
        self.counter
    }

    /// Message receive: `max(local, remote) + 1`.
    pub fn receive(&mut self, remote_timestamp: u64)
        requires
            old(self).time() < u64::MAX,
            remote_timestamp < u64::MAX,
        ensures
            final(self).time() == (if old(self).time() >= remote_timestamp {
                old(self).time()
            } else {
                remote_timestamp
            }) + 1,
            final(self).owner() == old(self).owner(),
    {
        let m = if self.counter >= remote_timestamp {
            self.counter
        } else {
            remote_timestamp
        };
        self.counter = m + 1;
    }

    pub fn current(&self) -> (t: u64)
        ensures
            t == self.time(),
    {
        self.counter
    }

    pub fn agent_id(&self) -> (a: u8)
        ensures
            a == self.owner(),
    {
        self.agent_id
    }

    /// Compares two `(timestamp, agent)` pairs.
    pub fn order(ts_a: u64, id_a: u8, ts_b: u64, id_b: u8) -> (r: Ordering)
        ensures
            r == lamport_order(ts_a, id_a, ts_b, id_b),
    {
        if ts_a < ts_b {
            Ordering::Less
        } else if ts_a > ts_b {
            Ordering::Greater
        } else if id_a < id_b {
            Ordering::Less
        } else if id_a > id_b {
            Ordering::Greater
        } else {
            Ordering::Equal
        }
    }
}

/// Causality: after receiving a message stamped `remote`, the local clock is
/// strictly later than both the message and its own earlier time.
pub proof fn lemma_receive_happens_after(before: u64, remote: u64, after: u64)
    requires
        after == (if before >= remote {
            before
        } else {
            remote
        }) + 1,
    ensures
        after > remote,
        after > before,
{
}

/// The pair order is a strict total order: it is antisymmetric, and only
/// identical pairs compare equal.
pub proof fn lemma_lamport_order_total(ts_a: u64, id_a: u8, ts_b: u64, id_b: u8)
    ensures
        (lamport_order(ts_a, id_a, ts_b, id_b) == Ordering::Less) <==> (lamport_order(
            ts_b,
            id_b,
            ts_a,
            id_a,
        ) == Ordering::Greater),
        (lamport_order(ts_a, id_a, ts_b, id_b) == Ordering::Equal) <==> (ts_a == ts_b && id_a
            == id_b),
{
}

/// The pair order is transitive.
pub proof fn lemma_lamport_order_transitive(
    ts_a: u64,
    id_a: u8,
    ts_b: u64,
    id_b: u8,
    ts_c: u64,
    id_c: u8,
)
    requires
        lamport_order(ts_a, id_a, ts_b, id_b) == Ordering::Less,
        lamport_order(ts_b, id_b, ts_c, id_c) == Ordering::Less,
    ensures
        lamport_order(ts_a, id_a, ts_c, id_c) == Ordering::Less,
{
}


// ─── 2PC protocol types ───

/// Radius in cells of the lock scope (Manhattan distance from a waypoint).
pub const LOCK_RADIUS: u16 = 15u16;

/// Ticks to wait for ACK_PROMISE before the transaction aborts.
pub const PREPARE_TIMEOUT_TICKS: Tick = 10u32;

/// Largest number of cells in one lock request.
pub const MAX_LOCK_CELLS: usize = 256usize;

/// Globally unique transaction identifier `(agent, lamport timestamp)`.
#[derive(Debug, Clone, Copy, PartialEq, Eq, Hash, Structural)]
pub struct TransactionId {
    pub agent_id: u8,
    pub timestamp: u64,
}

impl TransactionId {
    pub fn new(agent_id: u8, timestamp: u64) -> (t: TransactionId)
        ensures
            t.agent_id == agent_id,
            t.timestamp == timestamp,
    {
        TransactionId { agent_id, timestamp }
    }
}

/// Outcome of a two-phase transaction.
#[derive(Debug, Clone, Copy, PartialEq, Eq, Structural)]
pub enum TwoPhaseOutcome {
    /// PREPARE sent, awaiting ACK_PROMISE responses
    Pending,
    /// Enough ACK_PROMISEs received
    Committed,
    /// Timeout or NACK
    Aborted,
}

/// A cell lock held within a transaction.
#[derive(Debug, Clone, Copy, PartialEq, Eq, Structural)]
pub struct CellLock {
    pub cell: CellID,
    pub interval: SafeInterval,
    pub agent_id: u8,
    pub txn_id: TransactionId,
}

/// One requested cell and tick window.
#[derive(Debug, Clone, Copy, PartialEq, Eq, Structural)]
pub struct CellLockRequest {
    pub cell: CellID,
    pub t_start: Tick,
    pub t_end: Tick,
}

/// Lock request layout: [cell: u16] [t_start: u32] [t_end: u32].
pub open spec fn lock_request_bytes(r: CellLockRequest) -> Seq<u8> {
    spec_u16_to_le_bytes(r.cell) + spec_u32_to_le_bytes(r.t_start) + spec_u32_to_le_bytes(r.t_end)
}

/// The lock request whose 10 bytes start at offset `at`.
pub open spec fn lock_request_at(s: Seq<u8>, at: int) -> CellLockRequest {
    CellLockRequest {
        cell: spec_u16_from_le_bytes(s.subrange(at, at + 2)),
        t_start: spec_u32_from_le_bytes(s.subrange(at + 2, at + 6)),
        t_end: spec_u32_from_le_bytes(s.subrange(at + 6, at + 10)),
    }
}

impl CellLockRequest {
    pub fn to_bytes(&self) -> (r: [u8; 10])
        ensures
            r@ == lock_request_bytes(*self),
    {
        proof {
            lemma_le_roundtrips();
        }
        let c = vstd::bytes::u16_to_le_bytes(self.cell);
        let s = vstd::bytes::u32_to_le_bytes(self.t_start);
        let e = vstd::bytes::u32_to_le_bytes(self.t_end);
        let buf: [u8; 10] = [c[0], c[1], s[0], s[1], s[2], s[3], e[0], e[1], e[2], e[3]];
        assert(buf@ =~= lock_request_bytes(*self));
        buf
    }

    pub fn from_bytes(data: &[u8]) -> (r: Option<Self>)
        ensures
            r == (if data@.len() < 10 {
                None
            } else {
                Some(lock_request_at(data@, 0))
            }),
    {
        if data.len() < 10 {
            return None;
        }
        Some(CellLockRequest {
            cell: read_u16(data, 0),
            t_start: read_u32(data, 2),
            t_end: read_u32(data, 6),
        })
    }
}

/// Decoding the bytes of a lock request gives it back.
pub proof fn lemma_lock_request_roundtrip(r: CellLockRequest, pre: Seq<u8>, post: Seq<u8>)
    ensures
        lock_request_bytes(r).len() == 10,
        lock_request_at(pre + lock_request_bytes(r) + post, pre.len() as int) == r,
{
    lemma_le_roundtrips();
    let s = pre + lock_request_bytes(r) + post;
    let p = pre.len() as int;
    assert(s.subrange(p, p + 2) =~= spec_u16_to_le_bytes(r.cell));
    assert(s.subrange(p + 2, p + 6) =~= spec_u32_to_le_bytes(r.t_start));
    assert(s.subrange(p + 6, p + 10) =~= spec_u32_to_le_bytes(r.t_end));
}

/// PREPARE: broadcast to every agent within the lock radius.
#[derive(Debug, Clone)]
pub struct PreparePayload {
    pub txn_id: TransactionId,
    pub lamport_ts: u64,
    /// Cells and windows this agent wants to lock.
    pub locks: Vec<CellLockRequest>,
    /// Tick at which PREPARE was sent.
    pub sent_tick: Tick,
}

/// Plain-value model of a PREPARE payload.
pub struct PrepareView {
    pub txn_id: TransactionId,
    pub lamport_ts: u64,
    pub locks: Seq<CellLockRequest>,
    pub sent_tick: Tick,
}

impl View for PreparePayload {
    type V = PrepareView;

    open spec fn view(&self) -> PrepareView {
        PrepareView {
            txn_id: self.txn_id,
            lamport_ts: self.lamport_ts,
            locks: self.locks@,
            sent_tick: self.sent_tick,
        }
    }
}

/// ACK_PROMISE from a peer: "I promise not to lock these cells" (or a NACK).
#[derive(Debug, Clone, Copy, PartialEq, Eq, Structural)]
pub struct AckPromise {
    pub txn_id: TransactionId,
    pub responder_id: u8,
    pub lamport_ts: u64,
    pub accepted: bool,
}

/// COMMIT: the transaction's locks are final.
#[derive(Debug, Clone, Copy, PartialEq, Eq, Structural)]
pub struct CommitPayload {
    pub txn_id: TransactionId,
    pub lamport_ts: u64,
}

/// ABORT: release the prepared locks.
#[derive(Debug, Clone, Copy, PartialEq, Eq, Structural)]
pub struct AbortPayload {
    pub txn_id: TransactionId,
    pub lamport_ts: u64,
}

// ─── Wire layouts ───

pub const MSG_PREPARE: u8 = 0x10u8;
pub const MSG_ACK_PROMISE: u8 = 0x11u8;
pub const MSG_COMMIT: u8 = 0x12u8;
pub const MSG_ABORT: u8 = 0x13u8;

/// Concatenated bytes of a list of lock requests.
pub open spec fn lock_requests_bytes(ls: Seq<CellLockRequest>) -> Seq<u8>
    decreases ls.len(),
{
    if ls.len() == 0 {
        Seq::empty()
    } else {
        lock_requests_bytes(ls.drop_last()) + lock_request_bytes(ls.last())
    }
}

proof fn lemma_lock_requests_bytes_len(ls: Seq<CellLockRequest>)
    ensures
        lock_requests_bytes(ls).len() == 10 * ls.len(),
    decreases ls.len(),
{
    lemma_le_roundtrips();
    if ls.len() > 0 {
        lemma_lock_requests_bytes_len(ls.drop_last());
    }
}

proof fn lemma_lock_requests_bytes_at(ls: Seq<CellLockRequest>, pre: Seq<u8>, post: Seq<u8>, i: int)
    requires
        0 <= i < ls.len(),
    ensures
        lock_request_at(pre + lock_requests_bytes(ls) + post, pre.len() + 10 * i) == ls[i],
    decreases ls.len(),
{
    lemma_lock_requests_bytes_len(ls);
    let init = ls.drop_last();
    lemma_lock_requests_bytes_len(init);
    if i == ls.len() - 1 {
        let pre2 = pre + lock_requests_bytes(init);
        lemma_lock_request_roundtrip(ls.last(), pre2, post);
        assert(pre + lock_requests_bytes(ls) + post =~= pre2 + lock_request_bytes(ls.last()) + post);
    } else {
        let post2 = lock_request_bytes(ls.last()) + post;
        lemma_lock_requests_bytes_at(init, pre, post2, i);
        assert(pre + lock_requests_bytes(ls) + post =~= pre + lock_requests_bytes(init) + post2);
    }
}

/// Number of lock requests that travel in a PREPARE: at most 255.
pub open spec fn wire_lock_count(n: nat) -> nat {
    if n <= 255 {
        n
    } else {
        255
    }
}

/// PREPARE layout: [0x10] [agent_id] [lamport_ts: u64] [count: u8] [sent_tick: u32]
/// [lock request x count], with count = min(locks, 255).
pub open spec fn prepare_bytes(p: PrepareView) -> Seq<u8> {
    let n = wire_lock_count(p.locks.len());
    seq![MSG_PREPARE, p.txn_id.agent_id] + spec_u64_to_le_bytes(p.lamport_ts) + seq![n as u8]
        + spec_u32_to_le_bytes(p.sent_tick) + lock_requests_bytes(p.locks.take(n as int))
}

/// Number of complete lock requests present after the 15-byte header, up to `count`.
pub open spec fn present_lock_count(len: int, count: int) -> int {
    let fit = (len - 15) / 10;
    if fit < count {
        fit
    } else {
        count
    }
}

/// PREPARE decoding: the transaction id is `(agent, lamport_ts)`; only the lock
/// requests that are complete in the buffer are kept.
pub open spec fn prepare_decode(s: Seq<u8>) -> Option<PrepareView> {
    if s.len() < 16 || s[0] != MSG_PREPARE {
        None
    } else {
        let ts = spec_u64_from_le_bytes(s.subrange(2, 10));
        let n = present_lock_count(s.len() as int, s[10] as int);
        Some(
            PrepareView {
                txn_id: TransactionId { agent_id: s[1], timestamp: ts },
                lamport_ts: ts,
                locks: Seq::new(n as nat, |i: int| lock_request_at(s, 15 + 10 * i)),
                sent_tick: spec_u32_from_le_bytes(s.subrange(11, 15)),
            },
        )
    }
}

impl PreparePayload {
    pub fn to_bytes(&self) -> (r: Vec<u8>)
        ensures
            r@ == prepare_bytes(self@),
    {
        let len: usize = self.locks.len();
        let lock_count: usize = if len <= 255 {
            len
        } else {
            255
        };
        let mut buf: Vec<u8> = Vec::new();
        buf.push(MSG_PREPARE);
        buf.push(self.txn_id.agent_id);
        push_u64(&mut buf, self.lamport_ts);
        buf.push(lock_count as u8);
        push_u32(&mut buf, self.sent_tick);
        let ghost head = buf@;
        let mut i: usize = 0;
        while i < lock_count
            invariant
                len == self.locks@.len(),
                lock_count <= len,
                i <= lock_count,
                buf@ == head + lock_requests_bytes(self.locks@.take(i as int)),
            decreases lock_count - i,
        {
            let bytes = self.locks[i].to_bytes();
            let ghost before = buf@;
            let mut k: usize = 0;
            while k < 10
                invariant
                    k <= 10,
                    bytes@.len() == 10,
                    buf@ == before + bytes@.take(k as int),
                decreases 10 - k,
            {
                buf.push(bytes[k]);
                assert(buf@ =~= before + bytes@.take(k + 1));
                k = k + 1;
            }
            proof {
                assert(bytes@.take(10) =~= bytes@);
                let t = self.locks@.take(i + 1);
                assert(t.drop_last() =~= self.locks@.take(i as int));
                assert(buf@ =~= head + lock_requests_bytes(t));
            }
            i = i + 1;
        }
        assert(buf@ =~= prepare_bytes(self@));
        buf
    }

    pub fn from_bytes(data: &[u8]) -> (r: Option<Self>)
        ensures
            match r {
                Some(p) => prepare_decode(data@) == Some(p@),
                None => prepare_decode(data@) is None,
            },
    {
        let len: usize = data.len();
        if len < 16 || data[0] != MSG_PREPARE {
            return None;
        }
        let agent_id = data[1];
        let lamport_ts = read_u64(data, 2);
        let lock_count: usize = data[10] as usize;
        let sent_tick = read_u32(data, 11);
        let mut locks: Vec<CellLockRequest> = Vec::new();
        let ghost n = present_lock_count(len as int, lock_count as int);
        let mut i: usize = 0;
        while i < lock_count
            invariant
                len == data@.len(),
                len >= 16,
                lock_count == data@[10] as usize,
                n == present_lock_count(len as int, lock_count as int),
                i <= lock_count,
                i <= n,
                locks@.len() == i,
                forall|k: int|
                    0 <= k < i ==> #[trigger] locks@[k] == lock_request_at(data@, 15 + 10 * k),
            ensures
                i == n,
                locks@.len() == i,
                forall|k: int|
                    0 <= k < i ==> #[trigger] locks@[k] == lock_request_at(data@, 15 + 10 * k),
            decreases lock_count - i,
        {
            let offset: usize = 15 + i * 10;
            if offset + 10 > len {
                break;
            }
            let piece = vstd::slice::slice_subrange(data, offset, offset + 10);
            match CellLockRequest::from_bytes(piece) {
                Some(lr) => {
                    proof {
                        assert(piece@.subrange(0, 2) =~= data@.subrange(offset as int, offset + 2));
                        assert(piece@.subrange(2, 6) =~= data@.subrange(offset + 2, offset + 6));
                        assert(piece@.subrange(6, 10) =~= data@.subrange(offset + 6, offset + 10));
                    }
                    locks.push(lr);
                },
                None => {},
            }
            i = i + 1;
        }
        let r = PreparePayload {
            txn_id: TransactionId::new(agent_id, lamport_ts),
            lamport_ts,
            locks,
            sent_tick,
        };
        assert(i == n);
        assert(r@.locks =~= prepare_decode(data@).unwrap().locks);
        Some(r)
    }
}

/// PREPARE round trip: the payload comes back when it carries between 1 and 255
/// lock requests and its transaction timestamp is its Lamport timestamp (the
/// wire carries only the latter).
pub proof fn lemma_prepare_roundtrip(p: PrepareView)
    requires
        1 <= p.locks.len() <= 255,
        p.txn_id.timestamp == p.lamport_ts,
    ensures
        prepare_decode(prepare_bytes(p)) == Some(p),
{
    lemma_le_roundtrips();
    let s = prepare_bytes(p);
    let n = p.locks.len();
    assert(p.locks.take(n as int) =~= p.locks);
    lemma_lock_requests_bytes_len(p.locks);
    let pre = seq![MSG_PREPARE, p.txn_id.agent_id] + spec_u64_to_le_bytes(p.lamport_ts) + seq![
        n as u8,
    ] + spec_u32_to_le_bytes(p.sent_tick);
    assert(pre.len() == 15);
    assert(s =~= pre + lock_requests_bytes(p.locks) + Seq::<u8>::empty());
    assert(s.subrange(2, 10) =~= spec_u64_to_le_bytes(p.lamport_ts));
    assert(s.subrange(11, 15) =~= spec_u32_to_le_bytes(p.sent_tick));
    let d = prepare_decode(s).unwrap();
    assert(present_lock_count(s.len() as int, s[10] as int) == n);
    assert forall|i: int| 0 <= i < n implies #[trigger] d.locks[i] == p.locks[i] by {
        lemma_lock_requests_bytes_at(p.locks, pre, Seq::empty(), i);
    }
    assert(d.locks =~= p.locks);
}

/// ACK_PROMISE layout: [0x11] [txn agent] [txn ts: u64] [responder] [lamport: u64] [accepted].
pub open spec fn ack_bytes(a: AckPromise) -> Seq<u8> {
    seq![MSG_ACK_PROMISE, a.txn_id.agent_id] + spec_u64_to_le_bytes(a.txn_id.timestamp) + seq![
        a.responder_id,
    ] + spec_u64_to_le_bytes(a.lamport_ts) + seq![
        if a.accepted {
            1u8
        } else {
            0u8
        },
    ]
}

pub open spec fn ack_decode(s: Seq<u8>) -> Option<AckPromise> {
    if s.len() < 20 || s[0] != MSG_ACK_PROMISE {
        None
    } else {
        Some(
            AckPromise {
                txn_id: TransactionId {
                    agent_id: s[1],
                    timestamp: spec_u64_from_le_bytes(s.subrange(2, 10)),
                },
                responder_id: s[10],
                lamport_ts: spec_u64_from_le_bytes(s.subrange(11, 19)),
                accepted: s[19] != 0,
            },
        )
    }
}

impl AckPromise {
    pub fn to_bytes(&self) -> (r: Vec<u8>)
        ensures
            r@ == ack_bytes(*self),
    {
        let mut buf: Vec<u8> = Vec::new();
        buf.push(MSG_ACK_PROMISE);
        buf.push(self.txn_id.agent_id);
        push_u64(&mut buf, self.txn_id.timestamp);
        buf.push(self.responder_id);
        push_u64(&mut buf, self.lamport_ts);
        buf.push(
            if self.accepted {
                1u8
            } else {
                0u8
            },
        );
        assert(buf@ =~= ack_bytes(*self));
        buf
    }

    pub fn from_bytes(data: &[u8]) -> (r: Option<Self>)
        ensures
            r == ack_decode(data@),
    {
        if data.len() < 20 || data[0] != MSG_ACK_PROMISE {
            return None;
        }
        Some(AckPromise {
            txn_id: TransactionId::new(data[1], read_u64(data, 2)),
            responder_id: data[10],
            lamport_ts: read_u64(data, 11),
            accepted: data[19] != 0,
        })
    }
}

/// ACK_PROMISE round trip.
pub proof fn lemma_ack_roundtrip(a: AckPromise)
    ensures
        ack_bytes(a).len() == 20,
        ack_decode(ack_bytes(a)) == Some(a),
{
    lemma_le_roundtrips();
    let s = ack_bytes(a);
    assert(s.subrange(2, 10) =~= spec_u64_to_le_bytes(a.txn_id.timestamp));
    assert(s.subrange(11, 19) =~= spec_u64_to_le_bytes(a.lamport_ts));
}

/// COMMIT / ABORT layout: [tag] [txn agent] [txn ts: u64] [lamport: u64].
pub open spec fn final_bytes(tag: u8, txn_id: TransactionId, lamport_ts: u64) -> Seq<u8> {
    seq![tag, txn_id.agent_id] + spec_u64_to_le_bytes(txn_id.timestamp) + spec_u64_to_le_bytes(
        lamport_ts,
    )
}

/// Decodes a COMMIT or ABORT body as `(transaction, lamport)` when the tag matches.
pub open spec fn final_decode(tag: u8, s: Seq<u8>) -> Option<(TransactionId, u64)> {
    if s.len() < 18 || s[0] != tag {
        None
    } else {
        Some(
            (
                TransactionId {
                    agent_id: s[1],
                    timestamp: spec_u64_from_le_bytes(s.subrange(2, 10)),
                },
                spec_u64_from_le_bytes(s.subrange(10, 18)),
            ),
        )
    }
}

fn final_to_bytes(tag: u8, txn_id: TransactionId, lamport_ts: u64) -> (r: Vec<u8>)
    ensures
        r@ == final_bytes(tag, txn_id, lamport_ts),
{
    let mut buf: Vec<u8> = Vec::new();
    buf.push(tag);
    buf.push(txn_id.agent_id);
    push_u64(&mut buf, txn_id.timestamp);
    push_u64(&mut buf, lamport_ts);
    assert(buf@ =~= final_bytes(tag, txn_id, lamport_ts));
    buf
}

fn final_from_bytes(tag: u8, data: &[u8]) -> (r: Option<(TransactionId, u64)>)
    ensures
        r == final_decode(tag, data@),
{
    if data.len() < 18 || data[0] != tag {
        return None;
    }
    Some((TransactionId::new(data[1], read_u64(data, 2)), read_u64(data, 10)))
}

/// COMMIT / ABORT round trip.
pub proof fn lemma_final_roundtrip(tag: u8, txn_id: TransactionId, lamport_ts: u64)
    ensures
        final_bytes(tag, txn_id, lamport_ts).len() == 18,
        final_decode(tag, final_bytes(tag, txn_id, lamport_ts)) == Some((txn_id, lamport_ts)),
{
    lemma_le_roundtrips();
    let s = final_bytes(tag, txn_id, lamport_ts);
    assert(s.subrange(2, 10) =~= spec_u64_to_le_bytes(txn_id.timestamp));
    assert(s.subrange(10, 18) =~= spec_u64_to_le_bytes(lamport_ts));
}

impl CommitPayload {
    pub fn to_bytes(&self) -> (r: Vec<u8>)
        ensures
            r@ == final_bytes(MSG_COMMIT, self.txn_id, self.lamport_ts),
    {
        final_to_bytes(MSG_COMMIT, self.txn_id, self.lamport_ts)
    }

    pub fn from_bytes(data: &[u8]) -> (r: Option<Self>)
        ensures
            match final_decode(MSG_COMMIT, data@) {
                Some((t, l)) => r == Some(CommitPayload { txn_id: t, lamport_ts: l }),
                None => r is None,
            },
    {
        match final_from_bytes(MSG_COMMIT, data) {
            Some((t, l)) => Some(CommitPayload { txn_id: t, lamport_ts: l }),
            None => None,
        }
    }
}

impl AbortPayload {
    pub fn to_bytes(&self) -> (r: Vec<u8>)
        ensures
            r@ == final_bytes(MSG_ABORT, self.txn_id, self.lamport_ts),
    {
        final_to_bytes(MSG_ABORT, self.txn_id, self.lamport_ts)
    }

    pub fn from_bytes(data: &[u8]) -> (r: Option<Self>)
        ensures
            match final_decode(MSG_ABORT, data@) {
                Some((t, l)) => r == Some(AbortPayload { txn_id: t, lamport_ts: l }),
                None => r is None,
            },
    {
        match final_from_bytes(MSG_ABORT, data) {
            Some((t, l)) => Some(AbortPayload { txn_id: t, lamport_ts: l }),
            None => None,
        }
    }
}

/// A COMMIT and an ABORT can never be mistaken for each other.
pub proof fn lemma_commit_not_abort(txn_id: TransactionId, lamport_ts: u64)
    ensures
        final_decode(MSG_ABORT, final_bytes(MSG_COMMIT, txn_id, lamport_ts)) is None,
        final_decode(MSG_COMMIT, final_bytes(MSG_ABORT, txn_id, lamport_ts)) is None,
{
}


// ─── Intent lock manager ───

broadcast use vstd::std_specs::hash::group_hash_axioms;

/// Map key of a transaction: `agent * 2^64 + timestamp` (one key per transaction).
pub open spec fn txn_key(t: TransactionId) -> u128 {
    (t.agent_id as int * 0x1_0000_0000_0000_0000int + t.timestamp as int) as u128
}

/// The agent whose transaction a key names.
pub open spec fn key_agent(k: u128) -> int {
    k as int / 0x1_0000_0000_0000_0000int
}

/// Different transactions never share a key, and the key gives back the agent.
pub proof fn lemma_txn_key_injective(a: TransactionId, b: TransactionId)
    ensures
        txn_key(a) == txn_key(b) <==> a == b,
        key_agent(txn_key(a)) == a.agent_id,
{
    assert((a.agent_id as int) * 0x1_0000_0000_0000_0000int + (a.timestamp as int)
        < 0x100_0000_0000_0000_0000int);
}

fn key_of(t: TransactionId) -> (k: u128)
    ensures
        k == txn_key(t),
{
    (t.agent_id as u128) * 0x1_0000_0000_0000_0000u128 + (t.timestamp as u128)
}

/// Transaction awaiting its ACK_PROMISEs.
#[derive(Debug)]
struct PendingTransaction {
    txn_id: TransactionId,
    locks: Vec<CellLockRequest>,
    sent_tick: Tick,
    acks_received: Vec<AckPromise>,
    /// How many peers must answer.
    expected_ack_count: usize,
    outcome: TwoPhaseOutcome,
}

/// Plain-value model of the pending transaction.
pub struct PendingView {
    pub txn_id: TransactionId,
    pub locks: Seq<CellLockRequest>,
    pub sent_tick: Tick,
    pub acks: Seq<AckPromise>,
    pub expected_ack_count: usize,
    pub outcome: TwoPhaseOutcome,
}

/// A committed lock collides with a requested cell window.
pub open spec fn lock_hits(lock: CellLock, req: CellLockRequest) -> bool {
    lock.cell == req.cell && spec_overlaps(
        lock.interval.t_start as int,
        lock.interval.t_end as int,
        req.t_start as int,
        req.t_end as int,
    )
}

/// A promised (prepared) cell window collides with a requested one.
pub open spec fn request_hits(p: CellLockRequest, req: CellLockRequest) -> bool {
    p.cell == req.cell && spec_overlaps(
        p.t_start as int,
        p.t_end as int,
        req.t_start as int,
        req.t_end as int,
    )
}

/// Some lock in the table collides with `req`, ignoring the transactions of `skip`.
pub open spec fn locks_hit(m: Map<u128, Seq<CellLock>>, req: CellLockRequest, skip: Option<u8>) -> bool {
    exists|k: u128, j: int|
        m.contains_key(k) && (skip matches Some(a) ==> key_agent(k) != a) && 0 <= j < m[k].len()
            && #[trigger] lock_hits(m[k][j], req)
}

/// Some promised window collides with `req`, ignoring the transactions of `skip`.
pub open spec fn requests_hit(m: Map<u128, Seq<CellLockRequest>>, req: CellLockRequest, skip: u8) -> bool {
    exists|k: u128, j: int|
        m.contains_key(k) && key_agent(k) != skip && 0 <= j < m[k].len()
            && #[trigger] request_hits(m[k][j], req)
}

/// A requested window collides with an own lock, with another agent's committed
/// lock, or with a window promised to another agent.
pub open spec fn request_conflicts(
    own: Map<u128, Seq<CellLock>>,
    foreign: Map<u128, Seq<CellLock>>,
    prepared: Map<u128, Seq<CellLockRequest>>,
    req: CellLockRequest,
    requesting_agent: u8,
) -> bool {
    locks_hit(own, req, None) || locks_hit(foreign, req, Some(requesting_agent)) || requests_hit(
        prepared,
        req,
        requesting_agent,
    )
}

pub open spec fn any_conflict(
    own: Map<u128, Seq<CellLock>>,
    foreign: Map<u128, Seq<CellLock>>,
    prepared: Map<u128, Seq<CellLockRequest>>,
    reqs: Seq<CellLockRequest>,
    requesting_agent: u8,
) -> bool {
    exists|i: int|
        0 <= i < reqs.len() && #[trigger] request_conflicts(
            own,
            foreign,
            prepared,
            reqs[i],
            requesting_agent,
        )
}

/// The committed locks that a list of requests becomes under a transaction.
pub open spec fn locks_of(reqs: Seq<CellLockRequest>, agent: u8, txn: TransactionId) -> Seq<CellLock> {
    reqs.map_values(
        |r: CellLockRequest|
            CellLock {
                cell: r.cell,
                interval: SafeInterval { t_start: r.t_start, t_end: r.t_end },
                agent_id: agent,
                txn_id: txn,
            },
    )
}

/// Expiry: a lock is kept while its window ends after the current tick.
pub open spec fn lock_live(tick: Tick) -> spec_fn(CellLock) -> bool {
    |l: CellLock| l.interval.t_end > tick
}

pub open spec fn request_live(tick: Tick) -> spec_fn(CellLockRequest) -> bool {
    |q: CellLockRequest| q.t_end > tick
}

pub open spec fn live_locks(m: Map<u128, Seq<CellLock>>, tick: Tick) -> Map<u128, Seq<CellLock>> {
    Map::new(
        |k: u128|
            m.contains_key(k) && m[k].filter(lock_live(tick)).len() > 0,
        |k: u128| m[k].filter(lock_live(tick)),
    )
}

pub open spec fn live_requests(m: Map<u128, Seq<CellLockRequest>>, tick: Tick) -> Map<
    u128,
    Seq<CellLockRequest>,
> {
    Map::new(
        |k: u128|
            m.contains_key(k) && m[k].filter(request_live(tick)).len() > 0,
        |k: u128| m[k].filter(request_live(tick)),
    )
}

/// Manages two-phase locking of trajectory reservations for one agent.
///
/// 1. The agent plans a trajectory and calls `prepare` (PREPARE to its peers).
/// 2. Peers answer with ACK_PROMISE, or a NACK when they hold a conflicting lock.
/// 3. With every ACK in before the timeout, `commit`; otherwise `abort`.
#[derive(Debug)]
pub struct IntentLockManager {
    /// Lamport clock of this agent.
    pub clock: LamportClock,
    pending: Option<PendingTransaction>,
    /// Locks of other agents, learned from their COMMIT.
    foreign_locks: HashMap<u128, Vec<CellLock>>,
    /// Locks committed by this agent.
    own_committed: HashMap<u128, Vec<CellLock>>,
    /// Windows promised to other agents (PREPARE answered with an ACK).
    foreign_prepared: HashMap<u128, Vec<CellLockRequest>>,
    grid_width: u16,
    grid_height: u16,
}

impl IntentLockManager {
    /// The agent's Lamport clock.
    pub closed spec fn lamport(&self) -> LamportClock {
        self.clock
    }

    pub closed spec fn pending_view(&self) -> Option<PendingView> {
        match &self.pending {
            Some(p) => Some(
                PendingView {
                    txn_id: p.txn_id,
                    locks: p.locks@,
                    sent_tick: p.sent_tick,
                    acks: p.acks_received@,
                    expected_ack_count: p.expected_ack_count,
                    outcome: p.outcome,
                },
            ),
            None => None,
        }
    }

    pub closed spec fn own_locks(&self) -> Map<u128, Seq<CellLock>> {
        vec_values(self.own_committed@)
    }

    pub closed spec fn foreign_lock_table(&self) -> Map<u128, Seq<CellLock>> {
        vec_values(self.foreign_locks@)
    }

    pub closed spec fn promised(&self) -> Map<u128, Seq<CellLockRequest>> {
        vec_values(self.foreign_prepared@)
    }

    pub closed spec fn width(&self) -> u16 {
        self.grid_width
    }

    pub closed spec fn height(&self) -> u16 {
        self.grid_height
    }

    /// Everything but the clock and the pending transaction is as in `other`.
    pub open spec fn same_tables(&self, other: &Self) -> bool {
        &&& self.own_locks() == other.own_locks()
        &&& self.foreign_lock_table() == other.foreign_lock_table()
        &&& self.promised() == other.promised()
        &&& self.width() == other.width()
        &&& self.height() == other.height()
    }

    pub fn new(agent_id: u8, grid_width: u16, grid_height: u16) -> (m: Self)
        ensures
            m.lamport().time() == 0,
            m.lamport().owner() == agent_id,
            m.pending_view() is None,
            m.own_locks() == Map::<u128, Seq<CellLock>>::empty(),
            m.foreign_lock_table() == Map::<u128, Seq<CellLock>>::empty(),
            m.promised() == Map::<u128, Seq<CellLockRequest>>::empty(),
            m.width() == grid_width,
            m.height() == grid_height,
    {
        let m = IntentLockManager {
            clock: LamportClock::new(agent_id),
            pending: None,
            foreign_locks: HashMap::new(),
            own_committed: HashMap::new(),
            foreign_prepared: HashMap::new(),
            grid_width,
            grid_height,
        };
        assert(m.own_locks() =~= Map::<u128, Seq<CellLock>>::empty());
        assert(m.foreign_lock_table() =~= Map::<u128, Seq<CellLock>>::empty());
        assert(m.promised() =~= Map::<u128, Seq<CellLockRequest>>::empty());
        m
    }

    pub fn agent_id(&self) -> (a: u8)
        ensures
            a == self.lamport().owner(),
    {
        self.clock.agent_id()
    }
}


/// Number of accepted answers among the ACKs collected so far.
pub open spec fn count_accepted(acks: Seq<AckPromise>) -> nat
    decreases acks.len(),
{
    if acks.len() == 0 {
        0
    } else {
        count_accepted(acks.drop_last()) + if acks.last().accepted {
            1nat
        } else {
            0nat
        }
    }
}

/// Some answer among the ACKs collected so far came from `responder`.
pub open spec fn answered_by(acks: Seq<AckPromise>, responder: u8) -> bool {
    exists|i: int| 0 <= i < acks.len() && #[trigger] acks[i].responder_id == responder
}

/// Whether a peer has already answered.
fn has_answer(acks: &Vec<AckPromise>, responder: u8) -> (r: bool)
    ensures
        r == answered_by(acks@, responder),
{
    let mut i: usize = 0;
    while i < acks.len()
        invariant
            i <= acks@.len(),
            forall|j: int| 0 <= j < i ==> #[trigger] acks@[j].responder_id != responder,
        decreases acks@.len() - i,
    {
        if acks[i].responder_id == responder {
            return true;
        }
        i = i + 1;
    }
    false
}

/// The agent's own transaction, unless it is aborted, asks for a window that
/// collides with `req`.
pub open spec fn pending_hits(pending: Option<PendingView>, req: CellLockRequest) -> bool {
    match pending {
        Some(p) => p.outcome != TwoPhaseOutcome::Aborted && exists|j: int|
            0 <= j < p.locks.len() && #[trigger] request_hits(p.locks[j], req),
        None => false,
    }
}

/// Some requested window collides with the agent's own pending transaction.
pub open spec fn pending_conflict(pending: Option<PendingView>, reqs: Seq<CellLockRequest>) -> bool {
    exists|i: int| 0 <= i < reqs.len() && #[trigger] pending_hits(pending, reqs[i])
}

/// Lock requests of a PREPARE built from `(cell, t_arrive, t_depart)` triples,
/// capped at `MAX_LOCK_CELLS`.
pub open spec fn requests_from(wc: Seq<(CellID, Tick, Tick)>) -> Seq<CellLockRequest> {
    let n = if wc.len() <= 256 {
        wc.len()
    } else {
        256
    };
    Seq::new(n, |i: int| CellLockRequest { cell: wc[i].0, t_start: wc[i].1, t_end: wc[i].2 })
}

pub open spec fn later(a: u64, b: u64) -> int {
    if a >= b {
        a as int
    } else {
        b as int
    }
}

fn table_hits(
    m: &HashMap<u128, Vec<CellLock>>,
    ks: &Vec<u128>,
    req: &CellLockRequest,
    skip: Option<u8>,
) -> (r: bool)
    requires
        ks@.to_set() == m@.dom(),
    ensures
        r == locks_hit(vec_values(m@), *req, skip),
{
    let req_interval = SafeInterval { t_start: req.t_start, t_end: req.t_end };
    let ghost vv = vec_values(m@);
    let mut i: usize = 0;
    while i < ks.len()
        invariant
            ks@.to_set() == m@.dom(),
            vv == vec_values(m@),
            req_interval.t_start == req.t_start,
            req_interval.t_end == req.t_end,
            i <= ks@.len(),
            forall|k: u128, j: int|
                ks@.take(i as int).contains(k) && vv.contains_key(k) && (skip matches Some(a)
                    ==> key_agent(k) != a) && 0 <= j < vv[k].len() ==> !#[trigger] lock_hits(
                    vv[k][j],
                    *req,
                ),
        decreases ks@.len() - i,
    {
        let k = ks[i];
        let skipped = match skip {
            Some(a) => k / 0x1_0000_0000_0000_0000u128 == a as u128,
            None => false,
        };
        if !skipped {
            assert(ks@.contains(k));
            assert(skip matches Some(a) ==> key_agent(k) != a);
            match m.get(&k) {
                Some(v) => {
                    let mut j: usize = 0;
                    while j < v.len()
                        invariant
                            vv == vec_values(m@),
                            vv.contains_key(k),
                            vv[k] == v@,
                            skip matches Some(a) ==> key_agent(k) != a,
                            req_interval.t_start == req.t_start,
                            req_interval.t_end == req.t_end,
                            j <= v@.len(),
                            forall|jj: int| 0 <= jj < j ==> !#[trigger] lock_hits(v@[jj], *req),
                        decreases v@.len() - j,
                    {
                        let lock = v[j];
                        if lock.cell == req.cell && lock.interval.overlaps(&req_interval) {
                            assert(lock_hits(vv[k][j as int], *req));
                            assert(skip matches Some(a) ==> key_agent(k) != a);
                            assert(locks_hit(vv, *req, skip));
                            return true;
                        }
                        j = j + 1;
                    }
                },
                None => {},
            }
        }
        proof {
            assert forall|kk: u128, jj: int|
                ks@.take(i + 1).contains(kk) && vv.contains_key(kk) && (skip matches Some(a)
                    ==> key_agent(kk) != a) && 0 <= jj < vv[kk].len() implies !#[trigger] lock_hits(
                vv[kk][jj],
                *req,
            ) by {
                let idx = choose|idx: int| 0 <= idx < i + 1 && #[trigger] ks@.take(i + 1)[idx] == kk;
                if idx < i {
                    assert(ks@.take(i as int)[idx] == kk);
                }
            }
        }
        i = i + 1;
    }
    proof {
        assert(ks@.take(ks@.len() as int) =~= ks@);
        assert forall|k: u128, j: int|
            vv.contains_key(k) && (skip matches Some(a) ==> key_agent(k) != a) && 0 <= j
                < vv[k].len() implies !#[trigger] lock_hits(vv[k][j], *req) by {
            assert(ks@.to_set().contains(k));
        }
    }
    false
}

fn promises_hit(
    m: &HashMap<u128, Vec<CellLockRequest>>,
    ks: &Vec<u128>,
    req: &CellLockRequest,
    skip: u8,
) -> (r: bool)
    requires
        ks@.to_set() == m@.dom(),
    ensures
        r == requests_hit(vec_values(m@), *req, skip),
{
    let req_interval = SafeInterval { t_start: req.t_start, t_end: req.t_end };
    let ghost vv = vec_values(m@);
    let mut i: usize = 0;
    while i < ks.len()
        invariant
            ks@.to_set() == m@.dom(),
            vv == vec_values(m@),
            req_interval.t_start == req.t_start,
            req_interval.t_end == req.t_end,
            i <= ks@.len(),
            forall|k: u128, j: int|
                ks@.take(i as int).contains(k) && vv.contains_key(k) && key_agent(k) != skip && 0
                    <= j < vv[k].len() ==> !#[trigger] request_hits(vv[k][j], *req),
        decreases ks@.len() - i,
    {
        let k = ks[i];
        let skipped = k / 0x1_0000_0000_0000_0000u128 == skip as u128;
        if !skipped {
            assert(ks@.contains(k));
            assert(key_agent(k) != skip);
            match m.get(&k) {
                Some(v) => {
                    let mut j: usize = 0;
                    while j < v.len()
                        invariant
                            vv == vec_values(m@),
                            vv.contains_key(k),
                            vv[k] == v@,
                            key_agent(k) != skip,
                            req_interval.t_start == req.t_start,
                            req_interval.t_end == req.t_end,
                            j <= v@.len(),
                            forall|jj: int| 0 <= jj < j ==> !#[trigger] request_hits(v@[jj], *req),
                        decreases v@.len() - j,
                    {
                        let prep = v[j];
                        if prep.cell == req.cell {
                            let prep_interval = SafeInterval {
                                t_start: prep.t_start,
                                t_end: prep.t_end,
                            };
                            if prep_interval.overlaps(&req_interval) {
                                assert(request_hits(vv[k][j as int], *req));
                                assert(key_agent(k) != skip);
                                assert(requests_hit(vv, *req, skip));
                                return true;
                            }
                        }
                        j = j + 1;
                    }
                },
                None => {},
            }
        }
        proof {
            assert forall|kk: u128, jj: int|
                ks@.take(i + 1).contains(kk) && vv.contains_key(kk) && key_agent(kk) != skip && 0
                    <= jj < vv[kk].len() implies !#[trigger] request_hits(vv[kk][jj], *req) by {
                let idx = choose|idx: int| 0 <= idx < i + 1 && #[trigger] ks@.take(i + 1)[idx] == kk;
                if idx < i {
                    assert(ks@.take(i as int)[idx] == kk);
                }
            }
        }
        i = i + 1;
    }
    proof {
        assert(ks@.take(ks@.len() as int) =~= ks@);
        assert forall|k: u128, j: int|
            vv.contains_key(k) && key_agent(k) != skip && 0 <= j < vv[k].len() implies !#[trigger] request_hits(
            vv[k][j],
            *req,
        ) by {
            assert(ks@.to_set().contains(k));
        }
    }
    false
}


fn locks_for(reqs: &Vec<CellLockRequest>, agent: u8, txn_id: TransactionId) -> (r: Vec<CellLock>)
    ensures
        r@ == locks_of(reqs@, agent, txn_id),
{
    let mut out: Vec<CellLock> = Vec::new();
    let mut i: usize = 0;
    while i < reqs.len()
        invariant
            i <= reqs@.len(),
            out@ == locks_of(reqs@.take(i as int), agent, txn_id),
        decreases reqs@.len() - i,
    {
        let lr = reqs[i];
        out.push(
            CellLock {
                cell: lr.cell,
                interval: SafeInterval { t_start: lr.t_start, t_end: lr.t_end },
                agent_id: agent,
                txn_id,
            },
        );
        assert(out@ =~= locks_of(reqs@.take(i + 1), agent, txn_id));
        i = i + 1;
    }
    assert(reqs@.take(reqs@.len() as int) =~= reqs@);
    out
}

fn count_accepted_exec(acks: &Vec<AckPromise>) -> (n: usize)
    ensures
        n == count_accepted(acks@),
{
    let mut n: usize = 0;
    let mut i: usize = 0;
    while i < acks.len()
        invariant
            i <= acks@.len(),
            n == count_accepted(acks@.take(i as int)),
            n <= i,
        decreases acks@.len() - i,
    {
        assert(acks@.take(i + 1).drop_last() =~= acks@.take(i as int));
        if acks[i].accepted {
            n = n + 1;
        }
        i = i + 1;
    }
    assert(acks@.take(acks@.len() as int) =~= acks@);
    n
}

impl IntentLockManager {
    // ── Phase 1: PREPARE ──

    /// Starts a transaction for a planned trajectory: one lock request per
    /// `(cell, t_arrive, t_depart)`, at most `MAX_LOCK_CELLS` of them, stamped
    /// with a fresh send timestamp. `None` while another transaction is pending.
    pub fn prepare(
        &mut self,
        waypoint_cells: &[(CellID, Tick, Tick)],
        expected_peers: usize,
        current_tick: Tick,
    ) -> (r: Option<PreparePayload>)
        requires
            old(self).pending_view() is None ==> old(self).lamport().time() < u64::MAX,
        ensures
            old(self).pending_view() is Some ==> r is None && *final(self) == *old(self),
            old(self).pending_view() is None ==> {
                let ts = (old(self).lamport().time() + 1) as u64;
                let txn = TransactionId { agent_id: old(self).lamport().owner(), timestamp: ts };
                &&& r matches Some(p) && p@ == PrepareView {
                    txn_id: txn,
                    lamport_ts: ts,
                    locks: requests_from(waypoint_cells@),
                    sent_tick: current_tick,
                }
                &&& final(self).lamport().time() == ts
                &&& final(self).lamport().owner() == old(self).lamport().owner()
                &&& final(self).pending_view() == Some(
                    PendingView {
                        txn_id: txn,
                        locks: requests_from(waypoint_cells@),
                        sent_tick: current_tick,
                        acks: Seq::empty(),
                        expected_ack_count: expected_peers,
                        outcome: TwoPhaseOutcome::Pending,
                    },
                )
                &&& final(self).same_tables(old(self))
            },
    {
        if self.pending.is_some() {
            return None;
        }
        let ts = self.clock.send_timestamp();
        let txn_id = TransactionId::new(self.clock.agent_id(), ts);
        let n: usize = if waypoint_cells.len() <= MAX_LOCK_CELLS {
            waypoint_cells.len()
        } else {
            MAX_LOCK_CELLS
        };
        let mut locks: Vec<CellLockRequest> = Vec::new();
        let mut copy: Vec<CellLockRequest> = Vec::new();
        let mut i: usize = 0;
        while i < n
            invariant
                n <= waypoint_cells@.len(),
                n == requests_from(waypoint_cells@).len(),
                i <= n,
                locks@ == requests_from(waypoint_cells@).take(i as int),
                copy@ == locks@,
            decreases n - i,
        {
            let (cell, t_arrive, t_depart) = waypoint_cells[i];
            let lr = CellLockRequest { cell, t_start: t_arrive, t_end: t_depart };
            locks.push(lr);
            copy.push(lr);
            assert(locks@ =~= requests_from(waypoint_cells@).take(i + 1));
            i = i + 1;
        }
        assert(locks@ =~= requests_from(waypoint_cells@));
        let prepare = PreparePayload { txn_id, lamport_ts: ts, locks: copy, sent_tick: current_tick };
        self.pending = Some(
            PendingTransaction {
                txn_id,
                locks,
                sent_tick: current_tick,
                acks_received: Vec::new(),
                expected_ack_count: expected_peers,
                outcome: TwoPhaseOutcome::Pending,
            },
        );
        Some(prepare)
    }

    // ── Incoming ACK_PROMISE ──

    /// Records an ACK_PROMISE for the pending transaction. A NACK aborts it at
    /// once; once the accepted answers reach the expected count the result is
    /// `Committed` (the caller then calls `commit`). Stale answers, and a second
    /// answer from a peer already heard, are ignored: each peer counts once.
    pub fn receive_ack(&mut self, ack: AckPromise) -> (r: Option<TwoPhaseOutcome>)
        requires
            old(self).lamport().time() < u64::MAX,
            ack.lamport_ts < u64::MAX,
        ensures
            final(self).lamport().time() == later(old(self).lamport().time(), ack.lamport_ts) + 1,
            final(self).lamport().owner() == old(self).lamport().owner(),
            final(self).same_tables(old(self)),
            match old(self).pending_view() {
                None => r is None && final(self).pending_view() is None,
                Some(p) => if ack.txn_id != p.txn_id || p.outcome != TwoPhaseOutcome::Pending
                    || answered_by(p.acks, ack.responder_id) {
                    r is None && final(self).pending_view() == old(self).pending_view()
                } else if !ack.accepted {
                    r == Some(TwoPhaseOutcome::Aborted) && final(self).pending_view() == Some(
                        PendingView { acks: p.acks.push(ack), outcome: TwoPhaseOutcome::Aborted, ..p },
                    )
                } else {
                    &&& final(self).pending_view() == Some(PendingView { acks: p.acks.push(ack), ..p })
                    &&& r == (if count_accepted(p.acks.push(ack)) >= p.expected_ack_count {
                        Some(TwoPhaseOutcome::Committed)
                    } else {
                        None
                    })
                },
            },
    {
        self.clock.receive(ack.lamport_ts);
        match self.pending.take() {
            None => None,
            Some(mut pending) => {
                if ack.txn_id != pending.txn_id {
                    self.pending = Some(pending);
                    return None;
                }
                if pending.outcome != TwoPhaseOutcome::Pending {
                    self.pending = Some(pending);
                    return None;
                }
                if has_answer(&pending.acks_received, ack.responder_id) {
                    self.pending = Some(pending);
                    return None;
                }
                pending.acks_received.push(ack);
                if !ack.accepted {
                    pending.outcome = TwoPhaseOutcome::Aborted;
                    self.pending = Some(pending);
                    return Some(TwoPhaseOutcome::Aborted);
                }
                let ack_count = count_accepted_exec(&pending.acks_received);
                let done = ack_count >= pending.expected_ack_count;
                self.pending = Some(pending);
                if done {
                    Some(TwoPhaseOutcome::Committed)
                } else {
                    None
                }
            },
        }
    }

    // ── Phase 2: COMMIT / ABORT ──

    /// Finalizes the pending transaction: its lock requests become this
    /// agent's committed locks under the transaction, and the COMMIT to
    /// broadcast is returned.
    pub fn commit(&mut self) -> (r: Option<CommitPayload>)
        requires
            old(self).pending_view() is Some ==> old(self).lamport().time() < u64::MAX,
        ensures
            old(self).pending_view() is None ==> r is None && *final(self) == *old(self),
            old(self).pending_view() matches Some(p) ==> {
                let ts = (old(self).lamport().time() + 1) as u64;
                &&& r == Some(CommitPayload { txn_id: p.txn_id, lamport_ts: ts })
                &&& final(self).lamport().time() == ts
                &&& final(self).lamport().owner() == old(self).lamport().owner()
                &&& final(self).pending_view() is None
                &&& final(self).own_locks() == old(self).own_locks().insert(
                    txn_key(p.txn_id),
                    locks_of(p.locks, old(self).lamport().owner(), p.txn_id),
                )
                &&& final(self).foreign_lock_table() == old(self).foreign_lock_table()
                &&& final(self).promised() == old(self).promised()
                &&& final(self).width() == old(self).width()
                &&& final(self).height() == old(self).height()
            },
    {
        match self.pending.take() {
            None => None,
            Some(pending) => {
                let ts = self.clock.send_timestamp();
                let txn_id = pending.txn_id;
                let cell_locks = locks_for(&pending.locks, self.clock.agent_id(), txn_id);
                let ghost before = self.own_committed@;
                let k = key_of(txn_id);
                self.own_committed.insert(k, cell_locks);
                assert(vec_values(self.own_committed@) =~= vec_values(before).insert(
                    k,
                    cell_locks@,
                ));
                Some(CommitPayload { txn_id, lamport_ts: ts })
            },
        }
    }

    /// Drops the pending transaction and returns the ABORT to broadcast.
    pub fn abort(&mut self) -> (r: Option<AbortPayload>)
        requires
            old(self).pending_view() is Some ==> old(self).lamport().time() < u64::MAX,
        ensures
            old(self).pending_view() is None ==> r is None && *final(self) == *old(self),
            old(self).pending_view() matches Some(p) ==> {
                let ts = (old(self).lamport().time() + 1) as u64;
                &&& r == Some(AbortPayload { txn_id: p.txn_id, lamport_ts: ts })
                &&& final(self).lamport().time() == ts
                &&& final(self).lamport().owner() == old(self).lamport().owner()
                &&& final(self).pending_view() is None
                &&& final(self).same_tables(old(self))
            },
    {
        match self.pending.take() {
            None => None,
            Some(pending) => {
                let ts = self.clock.send_timestamp();
                Some(AbortPayload { txn_id: pending.txn_id, lamport_ts: ts })
            },
        }
    }

    /// Aborts the pending transaction once `PREPARE_TIMEOUT_TICKS` have passed
    /// since PREPARE was sent without a decision.
    pub fn check_timeout(&mut self, current_tick: Tick) -> (r: Option<TwoPhaseOutcome>)
        ensures
            final(self).lamport() == old(self).lamport(),
            final(self).same_tables(old(self)),
            match old(self).pending_view() {
                None => r is None && final(self).pending_view() is None,
                Some(p) => if p.outcome == TwoPhaseOutcome::Pending && current_tick as int
                    - p.sent_tick as int >= PREPARE_TIMEOUT_TICKS as int {
                    r == Some(TwoPhaseOutcome::Aborted) && final(self).pending_view() == Some(
                        PendingView { outcome: TwoPhaseOutcome::Aborted, ..p },
                    )
                } else {
                    r is None && final(self).pending_view() == old(self).pending_view()
                },
            },
    {
        match self.pending.take() {
            None => None,
            Some(mut pending) => {
                if pending.outcome != TwoPhaseOutcome::Pending {
                    self.pending = Some(pending);
                    return None;
                }
                if current_tick.saturating_sub(pending.sent_tick) >= PREPARE_TIMEOUT_TICKS {
                    pending.outcome = TwoPhaseOutcome::Aborted;
                    self.pending = Some(pending);
                    return Some(TwoPhaseOutcome::Aborted);
                }
                self.pending = Some(pending);
                None
            },
        }
    }

    // ── Incoming PREPARE / COMMIT / ABORT from other agents ──

    /// Answers a PREPARE: accepted exactly when none of its windows collides
    /// with an own lock, with a window of the agent's own pending transaction,
    /// with a committed lock of another agent, or with a window promised to
    /// another agent. An accepted PREPARE's windows are promised.
    pub fn handle_prepare(&mut self, prepare: &PreparePayload) -> (r: AckPromise)
        requires
            later(old(self).lamport().time(), prepare.lamport_ts) + 1 < u64::MAX,
        ensures
            ({
                let t1 = later(old(self).lamport().time(), prepare.lamport_ts) + 1;
                let conflict = any_conflict(
                    old(self).own_locks(),
                    old(self).foreign_lock_table(),
                    old(self).promised(),
                    prepare.locks@,
                    prepare.txn_id.agent_id,
                ) || pending_conflict(old(self).pending_view(), prepare.locks@);
                &&& final(self).lamport().time() == t1 + 1
                &&& final(self).lamport().owner() == old(self).lamport().owner()
                &&& r == AckPromise {
                    txn_id: prepare.txn_id,
                    responder_id: old(self).lamport().owner(),
                    lamport_ts: (t1 + 1) as u64,
                    accepted: !conflict,
                }
                &&& final(self).promised() == (if conflict {
                    old(self).promised()
                } else {
                    old(self).promised().insert(txn_key(prepare.txn_id), prepare.locks@)
                })
                &&& final(self).own_locks() == old(self).own_locks()
                &&& final(self).foreign_lock_table() == old(self).foreign_lock_table()
                &&& final(self).pending_view() == old(self).pending_view()
                &&& final(self).width() == old(self).width()
                &&& final(self).height() == old(self).height()
            }),
    {
        self.clock.receive(prepare.lamport_ts);
        let conflicts = self.has_conflict(&prepare.locks, prepare.txn_id.agent_id)
            || self.pending_conflicts(&prepare.locks);
        let ts = self.clock.send_timestamp();
        if !conflicts {
            let ghost before = self.foreign_prepared@;
            let k = key_of(prepare.txn_id);
            let locks = prepare.locks.clone();
            assert(locks@ =~= prepare.locks@);
            self.foreign_prepared.insert(k, locks);
            assert(vec_values(self.foreign_prepared@) =~= vec_values(before).insert(k, locks@));
        }
        AckPromise {
            txn_id: prepare.txn_id,
            responder_id: self.clock.agent_id(),
            lamport_ts: ts,
            accepted: !conflicts,
        }
    }

    /// Applies another agent's COMMIT: the windows promised to that
    /// transaction become its committed locks.
    pub fn handle_commit(&mut self, commit: &CommitPayload)
        requires
            old(self).lamport().time() < u64::MAX,
            commit.lamport_ts < u64::MAX,
        ensures
            final(self).lamport().time() == later(old(self).lamport().time(), commit.lamport_ts)
                + 1,
            final(self).lamport().owner() == old(self).lamport().owner(),
            ({
                let k = txn_key(commit.txn_id);
                if old(self).promised().contains_key(k) {
                    &&& final(self).promised() == old(self).promised().remove(k)
                    &&& final(self).foreign_lock_table() == old(self).foreign_lock_table().insert(
                        k,
                        locks_of(old(self).promised()[k], commit.txn_id.agent_id, commit.txn_id),
                    )
                } else {
                    &&& final(self).promised() == old(self).promised()
                    &&& final(self).foreign_lock_table() == old(self).foreign_lock_table()
                }
            }),
            final(self).own_locks() == old(self).own_locks(),
            final(self).pending_view() == old(self).pending_view(),
            final(self).width() == old(self).width(),
            final(self).height() == old(self).height(),
    {
        self.clock.receive(commit.lamport_ts);
        let k = key_of(commit.txn_id);
        let ghost prep_before = self.foreign_prepared@;
        let ghost foreign_before = self.foreign_locks@;
        match self.foreign_prepared.remove(&k) {
            Some(prepared) => {
                let locks = locks_for(&prepared, commit.txn_id.agent_id, commit.txn_id);
                self.foreign_locks.insert(k, locks);
                assert(vec_values(self.foreign_prepared@) =~= vec_values(prep_before).remove(k));
                assert(vec_values(self.foreign_locks@) =~= vec_values(foreign_before).insert(
                    k,
                    locks@,
                ));
            },
            None => {
                assert(self.foreign_prepared@ =~= prep_before);
            },
        }
    }

    /// Applies another agent's ABORT: its promised windows are released.
    pub fn handle_abort(&mut self, abort_payload: &AbortPayload)
        requires
            old(self).lamport().time() < u64::MAX,
            abort_payload.lamport_ts < u64::MAX,
        ensures
            final(self).lamport().time() == later(
                old(self).lamport().time(),
                abort_payload.lamport_ts,
            ) + 1,
            final(self).lamport().owner() == old(self).lamport().owner(),
            final(self).promised() == old(self).promised().remove(txn_key(abort_payload.txn_id)),
            final(self).own_locks() == old(self).own_locks(),
            final(self).foreign_lock_table() == old(self).foreign_lock_table(),
            final(self).pending_view() == old(self).pending_view(),
            final(self).width() == old(self).width(),
            final(self).height() == old(self).height(),
    {
        self.clock.receive(abort_payload.lamport_ts);
        let k = key_of(abort_payload.txn_id);
        let ghost before = self.foreign_prepared@;
        self.foreign_prepared.remove(&k);
        assert(vec_values(self.foreign_prepared@) =~= vec_values(before).remove(k));
    }

    // ── Conflict detection ──

    fn pending_conflicts(&self, requests: &Vec<CellLockRequest>) -> (r: bool)
        ensures
            r == pending_conflict(self.pending_view(), requests@),
    {
        match &self.pending {
            None => false,
            Some(p) => {
                match p.outcome {
                    TwoPhaseOutcome::Aborted => {
                        return false;
                    },
                    _ => {},
                }
                let mut i: usize = 0;
                while i < requests.len()
                    invariant
                        i <= requests@.len(),
                        self.pending_view() matches Some(pv) && pv.locks == p.locks@
                            && pv.outcome == p.outcome,
                        p.outcome != TwoPhaseOutcome::Aborted,
                        forall|ii: int|
                            0 <= ii < i ==> !#[trigger] pending_hits(
                                self.pending_view(),
                                requests@[ii],
                            ),
                    decreases requests@.len() - i,
                {
                    let req = requests[i];
                    let mut j: usize = 0;
                    while j < p.locks.len()
                        invariant
                            j <= p.locks@.len(),
                            i < requests@.len(),
                            req == requests@[i as int],
                            self.pending_view() matches Some(pv) && pv.locks == p.locks@
                                && pv.outcome == p.outcome,
                            p.outcome != TwoPhaseOutcome::Aborted,
                            forall|ii: int|
                                0 <= ii < i ==> !#[trigger] pending_hits(
                                    self.pending_view(),
                                    requests@[ii],
                                ),
                            forall|jj: int|
                                0 <= jj < j ==> !#[trigger] request_hits(p.locks@[jj], req),
                        decreases p.locks@.len() - j,
                    {
                        let l = p.locks[j];
                        if l.cell == req.cell && !(l.t_end <= req.t_start || req.t_end
                            <= l.t_start) {
                            assert(request_hits(p.locks@[j as int], req));
                            assert(pending_hits(self.pending_view(), requests@[i as int]));
                            return true;
                        }
                        j = j + 1;
                    }
                    i = i + 1;
                }
                false
            },
        }
    }

    fn has_conflict(&self, requests: &Vec<CellLockRequest>, requesting_agent: u8) -> (r: bool)
        ensures
            r == any_conflict(
                self.own_locks(),
                self.foreign_lock_table(),
                self.promised(),
                requests@,
                requesting_agent,
            ),
    {
        let own_keys = keys_of(&self.own_committed);
        let foreign_keys = keys_of(&self.foreign_locks);
        let prepared_keys = keys_of(&self.foreign_prepared);
        let mut i: usize = 0;
        while i < requests.len()
            invariant
                own_keys@.to_set() == self.own_committed@.dom(),
                foreign_keys@.to_set() == self.foreign_locks@.dom(),
                prepared_keys@.to_set() == self.foreign_prepared@.dom(),
                i <= requests@.len(),
                forall|ii: int|
                    0 <= ii < i ==> !#[trigger] request_conflicts(
                        self.own_locks(),
                        self.foreign_lock_table(),
                        self.promised(),
                        requests@[ii],
                        requesting_agent,
                    ),
            decreases requests@.len() - i,
        {
            let req = &requests[i];
            if table_hits(&self.own_committed, &own_keys, req, None) || table_hits(
                &self.foreign_locks,
                &foreign_keys,
                req,
                Some(requesting_agent),
            ) || promises_hit(&self.foreign_prepared, &prepared_keys, req, requesting_agent) {
                assert(request_conflicts(
                    self.own_locks(),
                    self.foreign_lock_table(),
                    self.promised(),
                    requests@[i as int],
                    requesting_agent,
                ));
                return true;
            }
            i = i + 1;
        }
        false
    }

    /// Releases the locks of one own transaction (goal reached).
    pub fn release_own_locks(&mut self, txn_id: &TransactionId)
        ensures
            final(self).own_locks() == old(self).own_locks().remove(txn_key(*txn_id)),
            final(self).lamport() == old(self).lamport(),
            final(self).foreign_lock_table() == old(self).foreign_lock_table(),
            final(self).promised() == old(self).promised(),
            final(self).pending_view() == old(self).pending_view(),
            final(self).width() == old(self).width(),
            final(self).height() == old(self).height(),
    {
        let k = key_of(*txn_id);
        let ghost before = self.own_committed@;
        self.own_committed.remove(&k);
        assert(vec_values(self.own_committed@) =~= vec_values(before).remove(k));
    }

    /// Releases every own lock (battery abort, replanning).
    pub fn release_all_own_locks(&mut self)
        ensures
            final(self).own_locks() == Map::<u128, Seq<CellLock>>::empty(),
            final(self).lamport() == old(self).lamport(),
            final(self).foreign_lock_table() == old(self).foreign_lock_table(),
            final(self).promised() == old(self).promised(),
            final(self).pending_view() == old(self).pending_view(),
            final(self).width() == old(self).width(),
            final(self).height() == old(self).height(),
    {
        self.own_committed.clear();
        assert(vec_values(self.own_committed@) =~= Map::<u128, Seq<CellLock>>::empty());
    }

    /// Is there a pending transaction?
    pub fn has_pending(&self) -> (r: bool)
        ensures
            r == self.pending_view() is Some,
    {
        self.pending.is_some()
    }

    /// Outcome of the pending transaction.
    pub fn pending_outcome(&self) -> (r: Option<TwoPhaseOutcome>)
        ensures
            r == (match self.pending_view() {
                Some(p) => Some(p.outcome),
                None => None,
            }),
    {
        match &self.pending {
            Some(p) => Some(p.outcome),
            None => None,
        }
    }

    /// Number of locks committed by this agent.
    pub fn own_lock_count(&self) -> (n: usize)
        requires
            total_len(self.own_locks()) <= usize::MAX,
        ensures
            n == total_len(self.own_locks()),
    {
        total_len_of(&self.own_committed)
    }

    /// Number of committed locks of other agents.
    pub fn foreign_lock_count(&self) -> (n: usize)
        requires
            total_len(self.foreign_lock_table()) <= usize::MAX,
        ensures
            n == total_len(self.foreign_lock_table()),
    {
        total_len_of(&self.foreign_locks)
    }
}


fn live_lock_vec(v: &Vec<CellLock>, tick: Tick) -> (r: Vec<CellLock>)
    ensures
        r@ == v@.filter(lock_live(tick)),
{
    let mut out: Vec<CellLock> = Vec::new();
    let mut i: usize = 0;
    while i < v.len()
        invariant
            i <= v@.len(),
            out@ == v@.take(i as int).filter(lock_live(tick)),
        decreases v@.len() - i,
    {
        proof {
            reveal_with_fuel(Seq::filter, 1);
            assert(v@.take(i + 1).drop_last() =~= v@.take(i as int));
        }
        if v[i].interval.t_end > tick {
            out.push(v[i]);
        }
        i = i + 1;
    }
    assert(v@.take(v@.len() as int) =~= v@);
    out
}

fn live_request_vec(v: &Vec<CellLockRequest>, tick: Tick) -> (r: Vec<CellLockRequest>)
    ensures
        r@ == v@.filter(request_live(tick)),
{
    let mut out: Vec<CellLockRequest> = Vec::new();
    let mut i: usize = 0;
    while i < v.len()
        invariant
            i <= v@.len(),
            out@ == v@.take(i as int).filter(request_live(tick)),
        decreases v@.len() - i,
    {
        proof {
            reveal_with_fuel(Seq::filter, 1);
            assert(v@.take(i + 1).drop_last() =~= v@.take(i as int));
        }
        if v[i].t_end > tick {
            out.push(v[i]);
        }
        i = i + 1;
    }
    assert(v@.take(v@.len() as int) =~= v@);
    out
}

fn gc_lock_table(m: &HashMap<u128, Vec<CellLock>>, tick: Tick) -> (r: HashMap<u128, Vec<CellLock>>)
    ensures
        vec_values(r@) == live_locks(vec_values(m@), tick),
{
    let ks = keys_of(m);
    let ghost vv = vec_values(m@);
    let mut out: HashMap<u128, Vec<CellLock>> = HashMap::new();
    let mut i: usize = 0;
    while i < ks.len()
        invariant
            ks@.to_set() == m@.dom(),
            ks@.no_duplicates(),
            vv == vec_values(m@),
            i <= ks@.len(),
            vec_values(out@) == Map::new(
                |k: u128|
                    ks@.take(i as int).contains(k) && vv[k].filter(
                        lock_live(tick),
                    ).len() > 0,
                |k: u128| vv[k].filter(lock_live(tick)),
            ),
        decreases ks@.len() - i,
    {
        let k = ks[i];
        assert(ks@.contains(k));
        let ghost before = vec_values(out@);
        assert(!ks@.take(i as int).contains(k)) by {
            if ks@.take(i as int).contains(k) {
                let idx = choose|idx: int| 0 <= idx < i && #[trigger] ks@.take(i as int)[idx] == k;
                assert(ks@[idx] == ks@[i as int]);
            }
        }
        match m.get(&k) {
            Some(v) => {
                let live = live_lock_vec(v, tick);
                assert(v@ == vv[k]);
                if live.len() > 0 {
                    let ghost lv = live@;
                    out.insert(k, live);
                    assert(vec_values(out@) =~= before.insert(k, lv));
                } else {
                    assert(vec_values(out@) =~= before);
                }
            },
            None => {},
        }
        proof {
            assert(ks@.take(i + 1) =~= ks@.take(i as int).push(k));
            assert forall|kk: u128| ks@.take(i + 1).contains(kk) <==> (ks@.take(i as int).contains(
                kk,
            ) || kk == k) by {
                if ks@.take(i + 1).contains(kk) {
                    let idx = choose|idx: int| 0 <= idx < i + 1 && #[trigger] ks@.take(i + 1)[idx]
                        == kk;
                    if idx < i {
                        assert(ks@.take(i as int)[idx] == kk);
                    }
                }
                if kk == k {
                    assert(ks@.take(i + 1)[i as int] == kk);
                }
                if ks@.take(i as int).contains(kk) {
                    let idx = choose|idx: int| 0 <= idx < i && #[trigger] ks@.take(i as int)[idx]
                        == kk;
                    assert(ks@.take(i + 1)[idx] == kk);
                }
            }
            assert(vec_values(out@) =~= Map::new(
                |kk: u128|
                    ks@.take(i + 1).contains(kk) && vv[kk].filter(
                        lock_live(tick),
                    ).len() > 0,
                |kk: u128| vv[kk].filter(lock_live(tick)),
            ));
        }
        i = i + 1;
    }
    proof {
        assert(ks@.take(ks@.len() as int) =~= ks@);
        assert forall|k: u128| ks@.contains(k) <==> vv.contains_key(k) by {
            assert(ks@.to_set().contains(k) <==> ks@.contains(k));
        }
        assert(vec_values(out@) =~= live_locks(vv, tick));
    }
    out
}

fn gc_request_table(m: &HashMap<u128, Vec<CellLockRequest>>, tick: Tick) -> (r: HashMap<
    u128,
    Vec<CellLockRequest>,
>)
    ensures
        vec_values(r@) == live_requests(vec_values(m@), tick),
{
    let ks = keys_of(m);
    let ghost vv = vec_values(m@);
    let mut out: HashMap<u128, Vec<CellLockRequest>> = HashMap::new();
    let mut i: usize = 0;
    while i < ks.len()
        invariant
            ks@.to_set() == m@.dom(),
            ks@.no_duplicates(),
            vv == vec_values(m@),
            i <= ks@.len(),
            vec_values(out@) == Map::new(
                |k: u128|
                    ks@.take(i as int).contains(k) && vv[k].filter(
                        request_live(tick),
                    ).len() > 0,
                |k: u128| vv[k].filter(request_live(tick)),
            ),
        decreases ks@.len() - i,
    {
        let k = ks[i];
        assert(ks@.contains(k));
        let ghost before = vec_values(out@);
        assert(!ks@.take(i as int).contains(k)) by {
            if ks@.take(i as int).contains(k) {
                let idx = choose|idx: int| 0 <= idx < i && #[trigger] ks@.take(i as int)[idx] == k;
                assert(ks@[idx] == ks@[i as int]);
            }
        }
        match m.get(&k) {
            Some(v) => {
                let live = live_request_vec(v, tick);
                assert(v@ == vv[k]);
                if live.len() > 0 {
                    let ghost lv = live@;
                    out.insert(k, live);
                    assert(vec_values(out@) =~= before.insert(k, lv));
                } else {
                    assert(vec_values(out@) =~= before);
                }
            },
            None => {},
        }
        proof {
            assert forall|kk: u128| ks@.take(i + 1).contains(kk) <==> (ks@.take(i as int).contains(
                kk,
            ) || kk == k) by {
                if ks@.take(i + 1).contains(kk) {
                    let idx = choose|idx: int| 0 <= idx < i + 1 && #[trigger] ks@.take(i + 1)[idx]
                        == kk;
                    if idx < i {
                        assert(ks@.take(i as int)[idx] == kk);
                    }
                }
                if kk == k {
                    assert(ks@.take(i + 1)[i as int] == kk);
                }
                if ks@.take(i as int).contains(kk) {
                    let idx = choose|idx: int| 0 <= idx < i && #[trigger] ks@.take(i as int)[idx]
                        == kk;
                    assert(ks@.take(i + 1)[idx] == kk);
                }
            }
            assert(vec_values(out@) =~= Map::new(
                |kk: u128|
                    ks@.take(i + 1).contains(kk) && vv[kk].filter(
                        request_live(tick),
                    ).len() > 0,
                |kk: u128| vv[kk].filter(request_live(tick)),
            ));
        }
        i = i + 1;
    }
    proof {
        assert(ks@.take(ks@.len() as int) =~= ks@);
        assert forall|k: u128| ks@.contains(k) <==> vv.contains_key(k) by {
            assert(ks@.to_set().contains(k) <==> ks@.contains(k));
        }
        assert(vec_values(out@) =~= live_requests(vv, tick));
    }
    out
}

impl IntentLockManager {
    /// Drops expired locks of other agents and expired promises: a lock or
    /// promise stays while its window ends after `current_tick`, and a
    /// transaction with nothing left disappears. Own locks are kept.
    pub fn gc(&mut self, current_tick: Tick)
        ensures
            final(self).foreign_lock_table() == live_locks(
                old(self).foreign_lock_table(),
                current_tick,
            ),
            final(self).promised() == live_requests(old(self).promised(), current_tick),
            final(self).own_locks() == old(self).own_locks(),
            final(self).lamport() == old(self).lamport(),
            final(self).pending_view() == old(self).pending_view(),
            final(self).width() == old(self).width(),
            final(self).height() == old(self).height(),
    {
        let foreign = gc_lock_table(&self.foreign_locks, current_tick);
        let prepared = gc_request_table(&self.foreign_prepared, current_tick);
        self.foreign_locks = foreign;
        self.foreign_prepared = prepared;
    }
}


// ─── Lock radius ───

/// Manhattan distance between two cells of a grid of width `w`.
pub open spec fn grid_distance(a: CellID, b: CellID, w: u16) -> int {
    spec_abs(spec_col(a as int, w as int) - spec_col(b as int, w as int)) + spec_abs(
        spec_row(a as int, w as int) - spec_row(b as int, w as int),
    )
}

/// In-bounds cells of row `ny` at columns `cx + lo ..= cx + hi`, left to right.
pub open spec fn row_cells(cx: int, ny: int, lo: int, hi: int, w: int, h: int) -> Seq<CellID>
    decreases hi - lo + 1,
{
    if hi < lo {
        Seq::empty()
    } else {
        let rest = row_cells(cx, ny, lo, hi - 1, w, h);
        let nx = cx + hi;
        if 0 <= nx < w && 0 <= ny < h {
            rest.push((ny * w + nx) as u16)
        } else {
            rest
        }
    }
}

/// In-bounds cells of the radius-15 diamond around `(cx, cy)`, for row offsets
/// `-15 ..= dy_hi`, top row first, each row left to right.
pub open spec fn diamond_cells(cx: int, cy: int, w: int, h: int, dy_hi: int) -> Seq<CellID>
    decreases dy_hi + 16,
{
    if dy_hi < -15 {
        Seq::empty()
    } else {
        let remain = 15 - spec_abs(dy_hi);
        diamond_cells(cx, cy, w, h, dy_hi - 1) + row_cells(cx, cy + dy_hi, -remain, remain, w, h)
    }
}

impl IntentLockManager {
    /// Cells within Manhattan distance `LOCK_RADIUS` of `center` that lie in the
    /// grid, row by row from the top and left to right within a row.
    pub fn cells_in_radius(&self, center: CellID) -> (r: Vec<CellID>)
        requires
            self.width() > 0,
        ensures
            r@ == diamond_cells(
                spec_col(center as int, self.width() as int),
                spec_row(center as int, self.width() as int),
                self.width() as int,
                self.height() as int,
                15,
            ),
    {
        let w: i32 = self.grid_width as i32;
        let h: i32 = self.grid_height as i32;
        let cx: i32 = (center % self.grid_width) as i32;
        let cy: i32 = (center / self.grid_width) as i32;
        proof {
            vstd::arithmetic::div_mod::lemma_fundamental_div_mod(center as int, w as int);
            let c = center as int;
            let wi = w as int;
            assert(cy * w <= center) by (nonlinear_arith)
                requires
                    c == wi * (c / wi) + c % wi,
                    cy as int == c / wi,
                    c % wi >= 0,
                    wi == w as int,
                    c == center as int,
            ;
        }
        let r: i32 = LOCK_RADIUS as i32;
        let mut cells: Vec<CellID> = Vec::new();
        let mut dy: i32 = -r;
        while dy <= r
            invariant
                w == self.grid_width,
                h == self.grid_height,
                w > 0,
                cx == spec_col(center as int, w as int),
                cy == spec_row(center as int, w as int),
                0 <= cx < w,
                0 <= cy,
                cy * w <= center,
                r == 15,
                -15 <= dy <= 16,
                cells@ == diamond_cells(cx as int, cy as int, w as int, h as int, dy - 1),
            decreases 16 - dy,
        {
            let remain: i32 = r - if dy >= 0 {
                dy
            } else {
                -dy
            };
            let ny: i32 = cy + dy;
            let ghost row_start = cells@;
            let mut dx: i32 = -remain;
            while dx <= remain
                invariant
                    w == self.grid_width,
                    h == self.grid_height,
                    w > 0,
                    0 <= cx < w,
                    0 <= cy,
                    cy * w <= center,
                    -15 <= dy <= 15,
                    ny == cy + dy,
                    remain == 15 - spec_abs(dy as int),
                    -remain <= dx <= remain + 1,
                    cells@ == row_start + row_cells(
                        cx as int,
                        ny as int,
                        -remain as int,
                        dx - 1,
                        w as int,
                        h as int,
                    ),
                decreases remain + 1 - dx,
            {
                let nx: i32 = cx + dx;
                if nx >= 0 && nx < w && ny >= 0 && ny < h {
                    assert(ny * w <= center + 15 * 65535) by (nonlinear_arith)
                        requires
                            0 <= ny <= cy + 15,
                            cy * w <= center,
                            0 < w <= 65535,
                    ;
                    let v: i32 = ny * w + nx;
                    cells.push(#[verifier::truncate] (v as CellID));
                }
                proof {
                    assert(cells@ =~= row_start + row_cells(
                        cx as int,
                        ny as int,
                        -remain as int,
                        dx as int,
                        w as int,
                        h as int,
                    ));
                }
                dx = dx + 1;
            }
            dy = dy + 1;
        }
        cells
    }

    /// Is the peer within `LOCK_RADIUS` (Manhattan) of some cell of the trajectory?
    pub fn is_peer_in_radius(&self, peer_cell: CellID, trajectory_cells: &[CellID]) -> (r: bool)
        requires
            self.width() > 0,
        ensures
            r == exists|i: int|
                0 <= i < trajectory_cells@.len() && #[trigger] grid_distance(
                    peer_cell,
                    trajectory_cells@[i],
                    self.width(),
                ) <= LOCK_RADIUS,
    {
        let w: u16 = self.grid_width;
        let px: i32 = (peer_cell % w) as i32;
        let py: i32 = (peer_cell / w) as i32;
        let mut i: usize = 0;
        while i < trajectory_cells.len()
            invariant
                w == self.grid_width,
                w > 0,
                px == spec_col(peer_cell as int, w as int),
                py == spec_row(peer_cell as int, w as int),
                i <= trajectory_cells@.len(),
                forall|j: int|
                    0 <= j < i ==> #[trigger] grid_distance(peer_cell, trajectory_cells@[j], w)
                        > LOCK_RADIUS,
            decreases trajectory_cells@.len() - i,
        {
            let cell = trajectory_cells[i];
            let cx: i32 = (cell % w) as i32;
            let cy: i32 = (cell / w) as i32;
            let ddx: i32 = if px >= cx {
                px - cx
            } else {
                cx - px
            };
            let ddy: i32 = if py >= cy {
                py - cy
            } else {
                cy - py
            };
            let dist: i32 = ddx + ddy;
            if dist <= LOCK_RADIUS as i32 {
                assert(grid_distance(peer_cell, trajectory_cells@[i as int], self.width()) <= LOCK_RADIUS);
                return true;
            }
            i = i + 1;
        }
        false
    }
}


// ─── Laws of the locking protocol ───

/// A PREPARE whose window overlaps, on the same cell, a lock this agent has
/// committed is always refused (whoever asks).
pub proof fn lemma_own_lock_refuses_overlap(
    own: Map<u128, Seq<CellLock>>,
    foreign: Map<u128, Seq<CellLock>>,
    prepared: Map<u128, Seq<CellLockRequest>>,
    reqs: Seq<CellLockRequest>,
    requesting_agent: u8,
    k: u128,
    j: int,
    i: int,
)
    requires
        own.contains_key(k),
        0 <= j < own[k].len(),
        0 <= i < reqs.len(),
        lock_hits(own[k][j], reqs[i]),
    ensures
        any_conflict(own, foreign, prepared, reqs, requesting_agent),
{
    assert(locks_hit(own, reqs[i], None));
    assert(request_conflicts(own, foreign, prepared, reqs[i], requesting_agent));
}

/// Promises are exclusive: once a window is promised to one agent's
/// transaction, an overlapping PREPARE from any other agent is refused.
pub proof fn lemma_promise_refuses_other_agents(
    own: Map<u128, Seq<CellLock>>,
    foreign: Map<u128, Seq<CellLock>>,
    prepared: Map<u128, Seq<CellLockRequest>>,
    reqs: Seq<CellLockRequest>,
    requesting_agent: u8,
    txn: TransactionId,
    j: int,
    i: int,
)
    requires
        prepared.contains_key(txn_key(txn)),
        txn.agent_id != requesting_agent,
        0 <= j < prepared[txn_key(txn)].len(),
        0 <= i < reqs.len(),
        request_hits(prepared[txn_key(txn)][j], reqs[i]),
    ensures
        any_conflict(own, foreign, prepared, reqs, requesting_agent),
{
    lemma_txn_key_injective(txn, txn);
    assert(requests_hit(prepared, reqs[i], requesting_agent));
    assert(request_conflicts(own, foreign, prepared, reqs[i], requesting_agent));
}

/// Commit then prepare: after this agent commits a transaction, any PREPARE
/// that overlaps one of the committed windows on the same cell is refused.
pub proof fn lemma_committed_windows_refuse_overlap(
    own: Map<u128, Seq<CellLock>>,
    foreign: Map<u128, Seq<CellLock>>,
    prepared: Map<u128, Seq<CellLockRequest>>,
    committed: Seq<CellLockRequest>,
    owner: u8,
    txn: TransactionId,
    reqs: Seq<CellLockRequest>,
    requesting_agent: u8,
    j: int,
    i: int,
)
    requires
        0 <= j < committed.len(),
        0 <= i < reqs.len(),
        request_hits(committed[j], reqs[i]),
    ensures
        any_conflict(
            own.insert(txn_key(txn), locks_of(committed, owner, txn)),
            foreign,
            prepared,
            reqs,
            requesting_agent,
        ),
{
    let own2 = own.insert(txn_key(txn), locks_of(committed, owner, txn));
    assert(lock_hits(own2[txn_key(txn)][j], reqs[i]));
    lemma_own_lock_refuses_overlap(own2, foreign, prepared, reqs, requesting_agent, txn_key(txn), j, i);
}

/// The lock radius is measured in grid steps: the distance of two cells is the
/// difference of their columns plus the difference of their rows, so a cell
/// directly below or beside another is one step from it, and the distance does
/// not depend on the order of the two cells.
pub proof fn lemma_grid_distance_steps(a: CellID, b: CellID, w: u16)
    requires
        w > 0,
    ensures
        ({
            let dx = a as int % w as int - b as int % w as int;
            let dy = a as int / w as int - b as int / w as int;
            grid_distance(a, b, w) == (if dx < 0 {
                -dx
            } else {
                dx
            }) + (if dy < 0 {
                -dy
            } else {
                dy
            })
        }),
        grid_distance(a, b, w) == grid_distance(b, a, w),
        b as int == a as int + w as int ==> grid_distance(a, b, w) == 1,
        b as int == a as int + 1 && (a as int % w as int) + 1 < w ==> grid_distance(a, b, w) == 1,
{
    let wi = w as int;
    let ai = a as int;
    vstd::arithmetic::div_mod::lemma_fundamental_div_mod(ai, wi);
    vstd::arithmetic::div_mod::lemma_mod_bound(ai, wi);
    if b as int == ai + wi {
        assert(ai + wi == wi * (ai / wi + 1) + ai % wi) by (nonlinear_arith)
            requires
                ai == wi * (ai / wi) + ai % wi,
        ;
        vstd::arithmetic::div_mod::lemma_fundamental_div_mod_converse(ai + wi, wi, ai / wi + 1, ai % wi);
    }
    if b as int == ai + 1 && ai % wi + 1 < wi {
        vstd::arithmetic::div_mod::lemma_fundamental_div_mod_converse(ai + 1, wi, ai / wi, ai % wi + 1);
    }
}

} // verus!

//! One-round Contract-Net task auction: the manager announces tasks and awards
//! them to the best bid; bidders answer each announcement once.
use crate::collections::keys_of;
use crate::network::payloads::{TaskAwardPayload, TaskBidPayload, TaskCfpPayload};
use crate::space_time::{CellID, Q8_8, Tick};
use std::collections::HashMap;
use vstd::prelude::*;

verus! {

broadcast use vstd::std_specs::hash::group_hash_axioms;

/// Bid window in ticks (500 ms).
pub const BID_WINDOW_TICKS: u16 = 5u16;

/// First retry delay of a task that got no bid (2 s).
pub const RETRY_INTERVAL_TICKS: Tick = 20u32;

/// Retries before a task is given up.
pub const MAX_RETRIES: u8 = 5u8;

/// Awarded auctions are kept this many ticks after they opened.
pub const AUCTION_RETENTION_TICKS: Tick = 500u32;

// ─── Auction manager ───

/// An auction as the contracts see it.
pub struct AuctionView {
    pub cfp: TaskCfpPayload,
    pub bids: Seq<TaskBidPayload>,
    pub start_tick: Tick,
    pub awarded: bool,
}

#[derive(Debug)]
struct AuctionState {
    cfp: TaskCfpPayload,
    bids: Vec<TaskBidPayload>,
    start_tick: Tick,
    awarded: bool,
}

spec fn view_of(a: AuctionState) -> AuctionView {
    AuctionView { cfp: a.cfp, bids: a.bids@, start_tick: a.start_tick, awarded: a.awarded }
}

/// A task that got no bid, waiting to be announced again.
#[derive(Debug, Clone, Copy, PartialEq, Eq, Structural)]
pub struct DeferredTask {
    pub cfp: TaskCfpPayload,
    pub retry_count: u8,
    pub next_retry_tick: Tick,
}

pub open spec fn ticks_since(now: Tick, since: Tick) -> int {
    if now >= since {
        now - since
    } else {
        0
    }
}

/// The auction's bid window has closed and it is not settled yet.
pub open spec fn closes(a: AuctionView, now: Tick) -> bool {
    !a.awarded && ticks_since(now, a.start_tick) >= a.cfp.bid_window_ticks
}

/// The winning bid: the highest utility, ties to the lowest agent id, and among
/// bids equal in both the one received last.
pub open spec fn best_bid(bids: Seq<TaskBidPayload>) -> TaskBidPayload
    decreases bids.len(),
{
    if bids.len() <= 1 {
        bids[0]
    } else {
        let b = best_bid(bids.drop_last());
        let x = bids.last();
        if x.utility.0 > b.utility.0 || (x.utility.0 == b.utility.0 && x.agent_id <= b.agent_id) {
            x
        } else {
            b
        }
    }
}

/// Awards of the auctions closing now, in the order of the keys `ks`.
pub open spec fn awards_for(m: Map<u16, AuctionView>, ks: Seq<u16>, now: Tick) -> Seq<
    TaskAwardPayload,
>
    decreases ks.len(),
{
    if ks.len() == 0 {
        Seq::empty()
    } else {
        let prev = awards_for(m, ks.drop_last(), now);
        let k = ks.last();
        let a = m[k];
        if closes(a, now) && a.bids.len() > 0 {
            prev.push(
                TaskAwardPayload {
                    task_id: k,
                    agent_id: best_bid(a.bids).agent_id,
                    pickup: a.cfp.pickup_cell,
                    dropoff: a.cfp.dropoff_cell,
                },
            )
        } else {
            prev
        }
    }
}

/// Auctions closing now without a bid, to be retried after `RETRY_INTERVAL_TICKS`.
pub open spec fn defers_for(m: Map<u16, AuctionView>, ks: Seq<u16>, now: Tick) -> Seq<DeferredTask>
    decreases ks.len(),
{
    if ks.len() == 0 {
        Seq::empty()
    } else {
        let prev = defers_for(m, ks.drop_last(), now);
        let a = m[ks.last()];
        if closes(a, now) && a.bids.len() == 0 {
            prev.push(
                DeferredTask {
                    cfp: a.cfp,
                    retry_count: 0,
                    next_retry_tick: (now + RETRY_INTERVAL_TICKS) as u32,
                },
            )
        } else {
            prev
        }
    }
}

/// Every auction closing now is marked settled.
pub open spec fn settle(m: Map<u16, AuctionView>, now: Tick) -> Map<u16, AuctionView> {
    Map::new(
        |k: u16| m.contains_key(k),
        |k: u16|
            if closes(m[k], now) {
                AuctionView { awarded: true, ..m[k] }
            } else {
                m[k]
            },
    )
}

/// Delay before the next announcement after `retries` retries: 20 ticks doubled
/// per retry, at most 100 ticks.
pub open spec fn backoff(retries: u8) -> Tick {
    if retries >= 3 {
        100
    } else if retries == 2 {
        80
    } else if retries == 1 {
        40
    } else {
        20
    }
}

/// A deferred task after a retry check at `now`: due tasks are announced again
/// with a longer delay, or dropped after `MAX_RETRIES`.
pub open spec fn retry_next(d: DeferredTask, now: Tick) -> Option<DeferredTask> {
    if now >= d.next_retry_tick {
        if d.retry_count >= MAX_RETRIES {
            None
        } else {
            Some(
                DeferredTask {
                    retry_count: (d.retry_count + 1) as u8,
                    next_retry_tick: (now + backoff((d.retry_count + 1) as u8)) as u32,
                    ..d
                },
            )
        }
    } else {
        Some(d)
    }
}

/// The announcement a deferred task sends at `now`, if it is due and not given up.
pub open spec fn retry_sent(d: DeferredTask, now: Tick) -> Option<TaskCfpPayload> {
    if now >= d.next_retry_tick && d.retry_count < MAX_RETRIES {
        Some(d.cfp)
    } else {
        None
    }
}

pub open spec fn retry_queue(ds: Seq<DeferredTask>, now: Tick) -> Seq<DeferredTask>
    decreases ds.len(),
{
    if ds.len() == 0 {
        Seq::empty()
    } else {
        let prev = retry_queue(ds.drop_last(), now);
        match retry_next(ds.last(), now) {
            Some(d) => prev.push(d),
            None => prev,
        }
    }
}

pub open spec fn retry_announcements(ds: Seq<DeferredTask>, now: Tick) -> Seq<TaskCfpPayload>
    decreases ds.len(),
{
    if ds.len() == 0 {
        Seq::empty()
    } else {
        let prev = retry_announcements(ds.drop_last(), now);
        match retry_sent(ds.last(), now) {
            Some(c) => prev.push(c),
            None => prev,
        }
    }
}

/// Announces tasks and awards each to the best bid received within its window.
#[derive(Debug)]
pub struct CnpManager {
    auctions: HashMap<u16, AuctionState>,
    deferred: Vec<DeferredTask>,
    next_task_id: u16,
}

/// The winning bid of a non-empty list (see `best_bid`).
fn best_of(bids: &Vec<TaskBidPayload>) -> (r: TaskBidPayload)
    requires
        bids@.len() > 0,
    ensures
        r == best_bid(bids@),
{
    let mut best = bids[0];
    let mut i: usize = 1;
    while i < bids.len()
        invariant
            1 <= i <= bids@.len(),
            best == best_bid(bids@.take(i as int)),
        decreases bids@.len() - i,
    {
        proof {
            assert(bids@.take(i + 1).drop_last() =~= bids@.take(i as int));
        }
        let x = bids[i];
        if x.utility.0 > best.utility.0 || (x.utility.0 == best.utility.0 && x.agent_id <= best.agent_id) {
            best = x;
        }
        i = i + 1;
    }
    assert(bids@.take(bids@.len() as int) =~= bids@);
    best
}

impl CnpManager {
    pub closed spec fn auctions(&self) -> Map<u16, AuctionView> {
        Map::new(|k: u16| self.auctions@.contains_key(k), |k: u16| view_of(self.auctions@[k]))
    }

    pub closed spec fn deferred_tasks(&self) -> Seq<DeferredTask> {
        self.deferred@
    }

    pub closed spec fn next_id(&self) -> u16 {
        self.next_task_id
    }

    pub fn new() -> (r: Self)
        ensures
            r.auctions() == Map::<u16, AuctionView>::empty(),
            r.deferred_tasks() == Seq::<DeferredTask>::empty(),
            r.next_id() == 1,
    {
        let r = CnpManager { auctions: HashMap::new(), deferred: Vec::new(), next_task_id: 1 };
        assert(r.auctions() =~= Map::<u16, AuctionView>::empty());
        r
    }

    /// Opens an auction for a new task and returns the announcement to broadcast.
    pub fn create_task(
        &mut self,
        pickup: CellID,
        dropoff: CellID,
        priority: u8,
        deadline: Tick,
        manager_id: u8,
        current_tick: Tick,
    ) -> (r: TaskCfpPayload)
        ensures
            r == (TaskCfpPayload {
                task_id: old(self).next_id(),
                pickup_cell: pickup,
                dropoff_cell: dropoff,
                priority,
                deadline_tick: deadline,
                manager_id,
                bid_window_ticks: BID_WINDOW_TICKS,
            }),
            final(self).next_id() == next_seq(old(self).next_id()),
            final(self).auctions() == old(self).auctions().insert(
                r.task_id,
                AuctionView { cfp: r, bids: Seq::empty(), start_tick: current_tick, awarded: false },
            ),
            final(self).deferred_tasks() == old(self).deferred_tasks(),
    {
        let task_id = self.next_task_id;
        self.next_task_id = self.next_task_id.wrapping_add(1);
        let cfp = TaskCfpPayload {
            task_id,
            pickup_cell: pickup,
            dropoff_cell: dropoff,
            priority,
            deadline_tick: deadline,
            manager_id,
            bid_window_ticks: BID_WINDOW_TICKS,
        };
        let ghost before = self.auctions();
        self.auctions.insert(
            task_id,
            AuctionState { cfp, bids: Vec::new(), start_tick: current_tick, awarded: false },
        );
        assert(self.auctions() =~= before.insert(
            task_id,
            AuctionView { cfp, bids: Seq::empty(), start_tick: current_tick, awarded: false },
        ));
        cfp
    }

    /// Records a bid for an open auction; bids for unknown or settled auctions are dropped.
    pub fn receive_bid(&mut self, bid: TaskBidPayload)
        ensures
            final(self).next_id() == old(self).next_id(),
            final(self).deferred_tasks() == old(self).deferred_tasks(),
            (old(self).auctions().contains_key(bid.task_id) && !old(
                self,
            ).auctions()[bid.task_id].awarded) ==> final(self).auctions() == old(
                self,
            ).auctions().insert(
                bid.task_id,
                AuctionView {
                    bids: old(self).auctions()[bid.task_id].bids.push(bid),
                    ..old(self).auctions()[bid.task_id]
                },
            ),
            !(old(self).auctions().contains_key(bid.task_id) && !old(
                self,
            ).auctions()[bid.task_id].awarded) ==> final(self).auctions() == old(self).auctions(),
    {
        let ghost before = self.auctions();
        match self.auctions.remove(&bid.task_id) {
            Some(a) => {
                let mut a = a;
                let was_awarded = a.awarded;
                if !a.awarded {
                    a.bids.push(bid);
                }
                self.auctions.insert(bid.task_id, a);
                proof {
                    if was_awarded {
                        assert(self.auctions() =~= before);
                    } else {
                        assert(self.auctions() =~= before.insert(
                            bid.task_id,
                            AuctionView { bids: before[bid.task_id].bids.push(bid), ..before[bid.task_id] },
                        ));
                    }
                }
            },
            None => {
                assert(self.auctions() =~= before);
            },
        }
    }

    /// Settles every auction whose bid window has closed: the best bid wins the
    /// task; an auction without bids is deferred for a retry. Returns the awards.
    pub fn check_awards(&mut self, current_tick: Tick) -> (r: Vec<TaskAwardPayload>)
        requires
            current_tick + RETRY_INTERVAL_TICKS <= u32::MAX,
        ensures
            final(self).next_id() == old(self).next_id(),
            final(self).auctions() == settle(old(self).auctions(), current_tick),
            exists|ks: Seq<u16>|
                {
                    &&& ks.no_duplicates()
                    &&& ks.to_set() == old(self).auctions().dom()
                    &&& r@ == #[trigger] awards_for(old(self).auctions(), ks, current_tick)
                    &&& final(self).deferred_tasks() == old(self).deferred_tasks() + defers_for(
                        old(self).auctions(),
                        ks,
                        current_tick,
                    )
                },
    {
        let ks = keys_of(&self.auctions);
        let ghost m = self.auctions();
        let mut awards: Vec<TaskAwardPayload> = Vec::new();
        let mut to_defer: Vec<DeferredTask> = Vec::new();
        let mut i: usize = 0;
        while i < ks.len()
            invariant
                ks@.to_set() == m.dom(),
                ks@.no_duplicates(),
                i <= ks@.len(),
                current_tick + RETRY_INTERVAL_TICKS <= u32::MAX,
                self.auctions@.dom() == m.dom(),
                forall|k: u16| #[trigger]
                    self.auctions().contains_key(k) ==> self.auctions()[k] == (if ks@.take(
                        i as int,
                    ).contains(k) {
                        settle(m, current_tick)[k]
                    } else {
                        m[k]
                    }),
                awards@ == awards_for(m, ks@.take(i as int), current_tick),
                to_defer@ == defers_for(m, ks@.take(i as int), current_tick),
                self.deferred@ == old(self).deferred@,
                self.next_task_id == old(self).next_task_id,
            decreases ks@.len() - i,
        {
            let k = ks[i];
            assert(ks@.to_set().contains(k)) by {
                assert(ks@.contains(k));
            }
            assert(!ks@.take(i as int).contains(k)) by {
                if ks@.take(i as int).contains(k) {
                    let t = ks@.take(i as int);
                    let idx = choose|idx: int| 0 <= idx < t.len() && #[trigger] t[idx] == k;
                    assert(ks@[idx] == ks@[i as int]);
                }
            }
            proof {
                assert(ks@.take(i + 1) =~= ks@.take(i as int).push(k));
                assert(ks@.take(i + 1).drop_last() =~= ks@.take(i as int));
                assert forall|kk: u16| ks@.take(i + 1).contains(kk) <==> (ks@.take(
                    i as int,
                ).contains(kk) || kk == k) by {
                    if ks@.take(i + 1).contains(kk) {
                        let t = ks@.take(i + 1);
                        let idx = choose|idx: int| 0 <= idx < t.len() && #[trigger] t[idx] == kk;
                        if idx < i {
                            assert(ks@.take(i as int)[idx] == kk);
                        }
                    }
                    if kk == k {
                        assert(ks@.take(i + 1)[i as int] == kk);
                    }
                    if ks@.take(i as int).contains(kk) {
                        let t = ks@.take(i as int);
                        let idx = choose|idx: int| 0 <= idx < t.len() && #[trigger] t[idx] == kk;
                        assert(ks@.take(i + 1)[idx] == kk);
                    }
                }
            }
            let ghost before = self.auctions();
            assert(self.auctions().contains_key(k));
            match self.auctions.remove(&k) {
                Some(a) => {
                    let mut a = a;
                    assert(view_of(a) == m[k]);
                    let elapsed: Tick = current_tick.saturating_sub(a.start_tick);
                    if !a.awarded && elapsed >= a.cfp.bid_window_ticks as Tick {
                        if a.bids.len() == 0 {
                            to_defer.push(
                                DeferredTask {
                                    cfp: a.cfp,
                                    retry_count: 0,
                                    next_retry_tick: current_tick + RETRY_INTERVAL_TICKS,
                                },
                            );
                        } else {
                            let best = best_of(&a.bids);
                            awards.push(
                                TaskAwardPayload {
                                    task_id: k,
                                    agent_id: best.agent_id,
                                    pickup: a.cfp.pickup_cell,
                                    dropoff: a.cfp.dropoff_cell,
                                },
                            );
                        }
                        a.awarded = true;
                    }
                    self.auctions.insert(k, a);
                },
                None => {
                    assert(false);
                },
            }
            proof {
                assert forall|kk: u16| #[trigger]
                    self.auctions().contains_key(kk) implies self.auctions()[kk] == (if ks@.take(
                        i + 1,
                    ).contains(kk) {
                        settle(m, current_tick)[kk]
                    } else {
                        m[kk]
                    }) by {
                    if kk != k {
                        assert(before.contains_key(kk));
                    }
                }
                assert(self.auctions@.dom() =~= m.dom());
            }
            i = i + 1;
        }
        proof {
            assert(ks@.take(ks@.len() as int) =~= ks@);
            assert forall|k: u16| ks@.contains(k) <==> m.contains_key(k) by {
                assert(ks@.to_set().contains(k) <==> ks@.contains(k));
            }
        }
        assert(self.auctions() =~= settle(m, current_tick));
        let mut j: usize = 0;
        let ghost base = self.deferred@;
        let ghost auc = self.auctions@;
        while j < to_defer.len()
            invariant
                j <= to_defer@.len(),
                self.deferred@ == base + to_defer@.take(j as int),
                self.auctions@ == auc,
                self.next_task_id == old(self).next_task_id,
            decreases to_defer@.len() - j,
        {
            self.deferred.push(to_defer[j]);
            proof {
                assert(self.deferred@ =~= base + to_defer@.take(j + 1));
            }
            j = j + 1;
        }
        proof {
            assert(to_defer@.take(to_defer@.len() as int) =~= to_defer@);
        }
        awards
    }

    /// Announces again the deferred tasks that are due, each with a doubled delay
    /// (at most 100 ticks); a task is dropped after `MAX_RETRIES` retries.
    pub fn check_retries(&mut self, current_tick: Tick) -> (r: Vec<TaskCfpPayload>)
        requires
            current_tick + 100 <= u32::MAX,
        ensures
            final(self).next_id() == old(self).next_id(),
            final(self).auctions() == old(self).auctions(),
            final(self).deferred_tasks() == retry_queue(old(self).deferred_tasks(), current_tick),
            r@ == retry_announcements(old(self).deferred_tasks(), current_tick),
    {
        let mut retries: Vec<TaskCfpPayload> = Vec::new();
        let mut kept: Vec<DeferredTask> = Vec::new();
        let mut i: usize = 0;
        while i < self.deferred.len()
            invariant
                i <= self.deferred@.len(),
                self.deferred@ == old(self).deferred@,
                current_tick + 100 <= u32::MAX,
                kept@ == retry_queue(self.deferred@.take(i as int), current_tick),
                retries@ == retry_announcements(self.deferred@.take(i as int), current_tick),
            decreases self.deferred@.len() - i,
        {
            proof {
                assert(self.deferred@.take(i + 1).drop_last() =~= self.deferred@.take(i as int));
            }
            let d = self.deferred[i];
            if current_tick >= d.next_retry_tick {
                if d.retry_count < MAX_RETRIES {
                    let count: u8 = d.retry_count + 1;
                    let sh: u8 = if count <= 3 {
                        count
                    } else {
                        3
                    };
                    let shifted: Tick = RETRY_INTERVAL_TICKS << (sh as u32);
                    assert(shifted == (if sh == 0 {
                        20u32
                    } else if sh == 1 {
                        40u32
                    } else if sh == 2 {
                        80u32
                    } else {
                        160u32
                    })) by (bit_vector)
                        requires
                            shifted == 20u32 << (sh as u32),
                            sh <= 3,
                    ;
                    let delay: Tick = if shifted <= 100 {
                        shifted
                    } else {
                        100
                    };
                    kept.push(
                        DeferredTask {
                            cfp: d.cfp,
                            retry_count: count,
                            next_retry_tick: current_tick + delay,
                        },
                    );
                    retries.push(d.cfp);
                }
            } else {
                kept.push(d);
            }
            i = i + 1;
        }
        proof {
            assert(self.deferred@.take(self.deferred@.len() as int) =~= self.deferred@);
        }
        self.deferred = kept;
        retries
    }

    /// Forgets settled auctions opened 500 ticks ago or more.
    pub fn gc(&mut self, current_tick: Tick)
        ensures
            final(self).next_id() == old(self).next_id(),
            final(self).deferred_tasks() == old(self).deferred_tasks(),
            final(self).auctions() == Map::new(
                |k: u16|
                    old(self).auctions().contains_key(k) && (!old(self).auctions()[k].awarded
                        || ticks_since(current_tick, old(self).auctions()[k].start_tick)
                        < AUCTION_RETENTION_TICKS),
                |k: u16| old(self).auctions()[k],
            ),
    {
        let ks = keys_of(&self.auctions);
        let ghost m = self.auctions();
        let mut i: usize = 0;
        while i < ks.len()
            invariant
                ks@.to_set() == m.dom(),
                ks@.no_duplicates(),
                i <= ks@.len(),
                self.deferred@ == old(self).deferred@,
                self.next_task_id == old(self).next_task_id,
                forall|k: u16| #[trigger]
                    self.auctions().contains_key(k) <==> (m.contains_key(k) && (!ks@.take(
                        i as int,
                    ).contains(k) || !m[k].awarded || ticks_since(current_tick, m[k].start_tick)
                        < AUCTION_RETENTION_TICKS)),
                forall|k: u16| #[trigger] self.auctions().contains_key(k) ==> self.auctions()[k] == m[k],
            decreases ks@.len() - i,
        {
            let k = ks[i];
            assert(ks@.to_set().contains(k)) by {
                assert(ks@.contains(k));
            }
            assert(!ks@.take(i as int).contains(k)) by {
                if ks@.take(i as int).contains(k) {
                    let t = ks@.take(i as int);
                    let idx = choose|idx: int| 0 <= idx < t.len() && #[trigger] t[idx] == k;
                    assert(ks@[idx] == ks@[i as int]);
                }
            }
            proof {
                assert(ks@.take(i + 1) =~= ks@.take(i as int).push(k));
                assert forall|kk: u16| ks@.take(i + 1).contains(kk) <==> (ks@.take(
                    i as int,
                ).contains(kk) || kk == k) by {
                    if ks@.take(i + 1).contains(kk) {
                        let t = ks@.take(i + 1);
                        let idx = choose|idx: int| 0 <= idx < t.len() && #[trigger] t[idx] == kk;
                        if idx < i {
                            assert(ks@.take(i as int)[idx] == kk);
                        }
                    }
                    if kk == k {
                        assert(ks@.take(i + 1)[i as int] == kk);
                    }
                    if ks@.take(i as int).contains(kk) {
                        let t = ks@.take(i as int);
                        let idx = choose|idx: int| 0 <= idx < t.len() && #[trigger] t[idx] == kk;
                        assert(ks@.take(i + 1)[idx] == kk);
                    }
                }
            }
            assert(self.auctions().contains_key(k));
            let ghost before = self.auctions();
            let drop: bool = match self.auctions.get(&k) {
                Some(a) => a.awarded && current_tick.saturating_sub(a.start_tick) >= 500,
                None => false,
            };
            assert(drop == (m[k].awarded && ticks_since(current_tick, m[k].start_tick)
                >= AUCTION_RETENTION_TICKS));
            if drop {
                self.auctions.remove(&k);
            }
            proof {
                assert forall|kk: u16| #[trigger]
                    self.auctions().contains_key(kk) <==> (m.contains_key(kk) && (!ks@.take(
                        i + 1,
                    ).contains(kk) || !m[kk].awarded || ticks_since(current_tick, m[kk].start_tick)
                        < AUCTION_RETENTION_TICKS)) by {
                    if kk != k {
                        assert(self.auctions().contains_key(kk) == before.contains_key(kk));
                    }
                }
                assert forall|kk: u16| #[trigger] self.auctions().contains_key(kk) implies self.auctions()[kk]
                    == m[kk] by {
                    assert(before.contains_key(kk));
                }
            }
            i = i + 1;
        }
        proof {
            assert(ks@.take(ks@.len() as int) =~= ks@);
            assert forall|k: u16| ks@.contains(k) <==> m.contains_key(k) by {
                assert(ks@.to_set().contains(k) <==> ks@.contains(k));
            }
            assert(self.auctions() =~= Map::new(
                |k: u16|
                    m.contains_key(k) && (!m[k].awarded || ticks_since(current_tick, m[k].start_tick)
                        < AUCTION_RETENTION_TICKS),
                |k: u16| m[k],
            ));
        }
    }

    /// Number of tasks waiting for a retry.
    pub fn deferred_count(&self) -> (r: usize)
        ensures
            r == self.deferred_tasks().len(),
    {
        self.deferred.len()
    }
}

// ─── Bid utility ───

/// Distance term of the utility in Q8.8: 0.60 / (D + 1), that is 768 / (5 (D + 1)) raw.
pub open spec fn distance_term(d_total: u16) -> int {
    768int / (5 * (d_total as int + 1))
}

/// Battery term in Q8.8: 0.25 * B / 100, that is 16 B / 25 raw.
pub open spec fn battery_term(battery_pct: u8) -> int {
    (16 * battery_pct as int) / 25
}

/// Queue term in Q8.8: 0.15 / (Q + 1), that is 192 / (5 (Q + 1)) raw.
pub open spec fn queue_term(queue_depth: u8) -> int {
    192int / (5 * (queue_depth as int + 1))
}

/// Bid utility U = 0.60 / (D + 1) + 0.25 * B / 100 + 0.15 / (Q + 1) in Q8.8, each
/// term rounded down to a multiple of 1/256.
pub open spec fn spec_utility(d_total: u16, battery_pct: u8, queue_depth: u8) -> u16 {
    (distance_term(d_total) + battery_term(battery_pct) + queue_term(queue_depth)) as u16
}

/// Bid utility in Q8.8 fixed point, identical on every platform.
pub fn bid_utility(d_total: u16, battery_pct: u8, queue_depth: u8) -> (u: Q8_8)
    ensures
        u.0 == spec_utility(d_total, battery_pct, queue_depth),
        u.0 < 400,
{
    let term1: u32 = 768u32 / (5u32 * (d_total as u32 + 1));
    let term2: u32 = (16u32 * battery_pct as u32) / 25;
    let term3: u32 = 192u32 / (5u32 * (queue_depth as u32 + 1));
    assert(term1 <= 153) by (nonlinear_arith)
        requires
            term1 as int == 768int / (5 * (d_total as int + 1)),
            d_total >= 0,
    ;
    assert(term3 <= 38) by (nonlinear_arith)
        requires
            term3 as int == 192int / (5 * (queue_depth as int + 1)),
            queue_depth >= 0,
    ;
    Q8_8(term1 as u16).add(Q8_8(term2 as u16)).add(Q8_8(term3 as u16))
}

/// Sequence number after `seq`, wrapping at 2^16.
pub open spec fn next_seq(seq: u16) -> u16 {
    if seq == u16::MAX {
        0
    } else {
        (seq + 1) as u16
    }
}

/// Oldest sequence number forgotten by a clean-up: `seq - max_entries / 2`, with
/// `max_entries` cut to 16 bits and the difference wrapping at 2^16.
pub open spec fn gc_cutoff(seq: u16, max_entries: usize) -> u16 {
    let half = (max_entries as u16) / 2;
    if seq >= half {
        (seq - half) as u16
    } else {
        (seq + 65536 - half) as u16
    }
}

/// The remembered bids with a sequence number above the cutoff.
pub open spec fn recent_bids(history: Map<u16, u16>, cutoff: u16) -> Map<u16, u16> {
    Map::new(|k: u16| history.contains_key(k) && history[k] > cutoff, |k: u16| history[k])
}

/// Answers announcements with bids, once per task.
#[derive(Debug)]
pub struct CnpBidder {
    agent_id: u8,
    /// Tasks bid on, with the sequence number of the bid.
    bid_history: HashMap<u16, u16>,
    seq_no: u16,
}

impl CnpBidder {
    pub closed spec fn agent(&self) -> u8 {
        self.agent_id
    }

    /// The sequence number of the bid sent for each task.
    pub closed spec fn history(&self) -> Map<u16, u16> {
        self.bid_history@
    }

    /// Sequence number of the last bid sent.
    pub closed spec fn seq(&self) -> u16 {
        self.seq_no
    }

    pub fn new(agent_id: u8) -> (r: Self)
        ensures
            r.agent() == agent_id,
            r.history() == Map::<u16, u16>::empty(),
            r.seq() == 0,
    {
        CnpBidder { agent_id, bid_history: HashMap::new(), seq_no: 0 }
    }

    /// The bid for a task announcement, or none when the agent already bid on that task.
    pub fn compute_bid(
        &mut self,
        cfp: &TaskCfpPayload,
        d_total: u16,
        battery_pct: u8,
        queue_depth: u8,
    ) -> (r: Option<TaskBidPayload>)
        ensures
            final(self).agent() == old(self).agent(),
            final(self).history().contains_key(cfp.task_id),
            old(self).history().contains_key(cfp.task_id) ==> r is None && *final(self) == *old(
                self,
            ),
            !old(self).history().contains_key(cfp.task_id) ==> {
                let seq = next_seq(old(self).seq());
                &&& final(self).seq() == seq
                &&& final(self).history() == old(self).history().insert(cfp.task_id, seq)
                &&& r == Some(
                    TaskBidPayload {
                        task_id: cfp.task_id,
                        agent_id: old(self).agent(),
                        utility: Q8_8(spec_utility(d_total, battery_pct, queue_depth)),
                        estimated_ticks: d_total,
                        battery_pct,
                        queue_depth,
                    },
                )
            },
    {
        if self.bid_history.contains_key(&cfp.task_id) {
            return None;
        }
        let utility = bid_utility(d_total, battery_pct, queue_depth);
        self.seq_no = self.seq_no.wrapping_add(1);
        self.bid_history.insert(cfp.task_id, self.seq_no);
        Some(
            TaskBidPayload {
                task_id: cfp.task_id,
                agent_id: self.agent_id,
                utility,
                estimated_ticks: d_total,
                battery_pct,
                queue_depth,
            },
        )
    }

    /// With more than `max_entries` remembered bids, keeps only those whose
    /// sequence number is above `seq - max_entries / 2` (16-bit arithmetic).
    pub fn gc(&mut self, max_entries: usize)
        ensures
            final(self).agent() == old(self).agent(),
            final(self).seq() == old(self).seq(),
            old(self).history().len() <= max_entries ==> final(self).history() == old(self).history(),
            old(self).history().len() > max_entries ==> final(self).history() == recent_bids(
                old(self).history(),
                gc_cutoff(old(self).seq(), max_entries),
            ),
    {
        if self.bid_history.len() > max_entries {
            let half: u16 = (#[verifier::truncate] (max_entries as u16)) / 2;
            let cutoff: u16 = self.seq_no.wrapping_sub(half);
            let ks = keys_of(&self.bid_history);
            let ghost m = self.bid_history@;
            let mut kept: HashMap<u16, u16> = HashMap::new();
            let mut i: usize = 0;
            while i < ks.len()
                invariant
                    ks@.to_set() == m.dom(),
                    m == self.bid_history@,
                    i <= ks@.len(),
                    ks@.no_duplicates(),
                    cutoff == gc_cutoff(self.seq_no, max_entries),
                    kept@ == Map::new(
                        |k: u16| ks@.take(i as int).contains(k) && m.contains_key(k) && m[k] > cutoff,
                        |k: u16| m[k],
                    ),
                decreases ks@.len() - i,
            {
                let k = ks[i];
                assert(ks@.to_set().contains(k)) by {
                    assert(ks@.contains(k));
                }
                let ghost before = kept@;
                match self.bid_history.get(&k) {
                    Some(seq) => {
                        if *seq > cutoff {
                            kept.insert(k, *seq);
                        }
                    },
                    None => {
                        assert(false);
                    },
                }
                proof {
                    assert(ks@.take(i + 1) =~= ks@.take(i as int).push(k));
                    assert forall|kk: u16| ks@.take(i + 1).contains(kk) <==> (ks@.take(
                        i as int,
                    ).contains(kk) || kk == k) by {
                        if ks@.take(i + 1).contains(kk) {
                            let t = ks@.take(i + 1);
                            let idx = choose|idx: int| 0 <= idx < t.len() && #[trigger] t[idx] == kk;
                            if idx < i {
                                assert(ks@.take(i as int)[idx] == kk);
                            }
                        }
                        if kk == k {
                            assert(ks@.take(i + 1)[i as int] == kk);
                        }
                        if ks@.take(i as int).contains(kk) {
                            let t = ks@.take(i as int);
                            let idx = choose|idx: int| 0 <= idx < t.len() && #[trigger] t[idx] == kk;
                            assert(ks@.take(i + 1)[idx] == kk);
                        }
                    }
                    assert(!ks@.take(i as int).contains(k)) by {
                        if ks@.take(i as int).contains(k) {
                            let t = ks@.take(i as int);
                            let idx = choose|idx: int| 0 <= idx < t.len() && #[trigger] t[idx] == k;
                            assert(ks@[idx] == ks@[i as int]);
                        }
                    }
                    assert(kept@ =~= Map::new(
                        |kk: u16| ks@.take(i + 1).contains(kk) && m.contains_key(kk) && m[kk] > cutoff,
                        |kk: u16| m[kk],
                    ));
                }
                i = i + 1;
            }
            proof {
                assert(ks@.take(ks@.len() as int) =~= ks@);
                assert forall|k: u16| ks@.contains(k) <==> m.contains_key(k) by {
                    assert(ks@.to_set().contains(k) <==> ks@.contains(k));
                }
                assert(kept@ =~= recent_bids(m, cutoff));
            }
            self.bid_history = kept;
        }
    }

    /// Split-brain quorum: claim the task only with the best utility of the fleet,
    /// heard from a strict majority; on an even split, only the partition holding
    /// the lowest global id claims.
    pub fn should_claim_task(
        &self,
        self_utility: u16,
        max_fleet_utility: u16,
        heard_from: usize,
        total_fleet: usize,
        min_global_id_in_partition: u8,
    ) -> (r: bool)
        ensures
            r == claims_task(
                self.agent(),
                self_utility,
                max_fleet_utility,
                heard_from,
                total_fleet,
                min_global_id_in_partition,
            ),
    {
        if self_utility != max_fleet_utility {
            return false;
        }
        if heard_from > total_fleet / 2 {
            return true;
        }
        if total_fleet % 2 == 0 && heard_from == total_fleet / 2 {
            return min_global_id_in_partition == self.agent_id;
        }
        false
    }
}

/// The winning bid is one of the bids, no bid has a higher utility, and no bid
/// of the same utility has a lower agent id.
pub proof fn lemma_best_bid_wins(bids: Seq<TaskBidPayload>)
    requires
        bids.len() > 0,
    ensures
        bids.contains(best_bid(bids)),
        forall|i: int|
            0 <= i < bids.len() ==> #[trigger] bids[i].utility.0 < best_bid(bids).utility.0 || (
            bids[i].utility.0 == best_bid(bids).utility.0 && best_bid(bids).agent_id
                <= bids[i].agent_id),
    decreases bids.len(),
{
    if bids.len() > 1 {
        let init = bids.drop_last();
        lemma_best_bid_wins(init);
        let b = best_bid(init);
        assert forall|i: int| 0 <= i < bids.len() implies #[trigger] bids[i].utility.0 < best_bid(
            bids,
        ).utility.0 || (bids[i].utility.0 == best_bid(bids).utility.0 && best_bid(bids).agent_id
            <= bids[i].agent_id) by {
            if i < init.len() {
                assert(init[i] == bids[i]);
            }
        }
        let j = choose|j: int| 0 <= j < init.len() && init[j] == b;
        assert(bids[j] == b);
        assert(bids[bids.len() - 1] == bids.last());
    } else {
        assert(bids[0] == best_bid(bids));
    }
}

/// Every award goes to an auction that was open and is settled afterwards, so
/// a later check never awards the same task again.
pub proof fn lemma_award_settles(m: Map<u16, AuctionView>, ks: Seq<u16>, now: Tick, later: Tick, j: int)
    requires
        ks.to_set() <= m.dom(),
        0 <= j < awards_for(m, ks, now).len(),
    ensures
        ({
            let k = awards_for(m, ks, now)[j].task_id;
            &&& m.contains_key(k)
            &&& !m[k].awarded
            &&& settle(m, now)[k].awarded
            &&& !closes(settle(m, now)[k], later)
        }),
    decreases ks.len(),
{
    if ks.len() > 0 {
        let init = ks.drop_last();
        assert(init.to_set() <= m.dom()) by {
            assert forall|k: u16| init.to_set().contains(k) implies m.dom().contains(k) by {
                let idx = choose|idx: int| 0 <= idx < init.len() && init[idx] == k;
                assert(ks[idx] == k);
                assert(ks.to_set().contains(k));
            }
        }
        assert(ks.to_set().contains(ks.last())) by {
            assert(ks[ks.len() - 1] == ks.last());
        }
        if j < awards_for(m, init, now).len() {
            lemma_award_settles(m, init, now, later, j);
        }
    }
}

/// Whether an agent claims a task: it holds the fleet's best utility and was
/// heard from by a strict majority (`N / 2 + 1` of a fleet of `N`), or, in a
/// fleet of even size split in two halves, by exactly half of the fleet while
/// its partition's lowest id is its own.
pub open spec fn claims_task(
    agent_id: u8,
    self_utility: u16,
    max_fleet_utility: u16,
    heard_from: usize,
    total_fleet: usize,
    min_global_id_in_partition: u8,
) -> bool {
    self_utility == max_fleet_utility && (heard_from > total_fleet / 2 || (total_fleet % 2 == 0
        && heard_from == total_fleet / 2 && min_global_id_in_partition == agent_id))
}

/// Agents of two partitions that share no agent both claim a task only when
/// the fleet has even size and each partition was heard from by exactly half
/// of it (the even split, settled by each partition's lowest id); in a fleet
/// of odd size at most one partition claims.
pub proof fn lemma_quorum_excludes_split_brain(
    total_fleet: usize,
    utility: u16,
    agent_a: u8,
    heard_a: usize,
    min_id_a: u8,
    agent_b: u8,
    heard_b: usize,
    min_id_b: u8,
)
    requires
        heard_a + heard_b <= total_fleet,
        claims_task(agent_a, utility, utility, heard_a, total_fleet, min_id_a),
        claims_task(agent_b, utility, utility, heard_b, total_fleet, min_id_b),
    ensures
        total_fleet % 2 == 0,
        heard_a == total_fleet / 2 && heard_b == total_fleet / 2,
{
}

} // verus!

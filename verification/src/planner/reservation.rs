//! Bitset reservation table: one 64-bit word per cell of the 256 x 256 grid,
//! bit `k` standing for the tick `current_tick + k`.
use crate::collections::keys_of;
use crate::planner::d_sipp::ReservationLookup;
use crate::space_time::{CellID, SafeInterval, Tick};
use std::collections::HashMap;
use vstd::prelude::*;

verus! {

broadcast use vstd::std_specs::hash::group_hash_axioms;

/// Number of cells of the grid (256 x 256).
pub const GRID_SIZE: usize = 65536usize;

/// Ticks covered by one word (6.4 s at 100 ms per tick).
pub const TIME_HORIZON_TICKS: usize = 64usize;

/// Reservation entry: which agent holds a cell for which ticks.
#[derive(Debug, Clone, Copy, PartialEq, Eq, Structural)]
pub struct Reservation {
    pub agent_id: u8,
    pub t_start: Tick,
    pub t_end: Tick,
    pub trajectory_hash: u64,
}

/// Occupancy of every cell over the next 64 ticks, and for each agent the
/// bits it set.
#[derive(Debug, Clone)]
pub struct ReservationBitset {
    grid_blocks: Vec<u64>,
    current_tick: u64,
    /// Agent → one word per cell with the bits that agent reserved.
    owners: HashMap<u8, Vec<u64>>,
}

/// A word after the window moves forward by `delta` ticks.
pub open spec fn shifted(word: u64, delta: u64) -> u64 {
    if delta >= 64 {
        0u64
    } else {
        word >> delta
    }
}

/// Shifts every word down by `delta` ticks.
fn shift_words(words: &mut Vec<u64>, delta: u64)
    ensures
        final(words)@.len() == old(words)@.len(),
        forall|j: int|
            0 <= j < old(words)@.len() ==> #[trigger] final(words)@[j] == shifted(
                old(words)@[j],
                delta,
            ),
{
    let n: usize = words.len();
    let mut i: usize = 0;
    while i < n
        invariant
            n == old(words)@.len(),
            words@.len() == n,
            i <= n,
            forall|j: int| 0 <= j < i ==> #[trigger] words@[j] == shifted(old(words)@[j], delta),
            forall|j: int| i <= j < n ==> #[trigger] words@[j] == old(words)@[j],
        decreases n - i,
    {
        let v: u64 = if delta >= 64 {
            0
        } else {
            words[i] >> delta
        };
        words.set(i, v);
        i = i + 1;
    }
}

/// Bit `k` of a word is set.
pub open spec fn bit_set(word: u64, k: u64) -> bool {
    (word >> k) & 1u64 == 1u64
}

/// The word with exactly the bits `lo .. hi` set.
pub open spec fn span_mask(lo: u64, hi: u64) -> u64 {
    if (hi - lo) as u64 == 64u64 {
        u64::MAX
    } else {
        (((1u64 << ((hi - lo) as u64)) - 1u64) as u64) << lo
    }
}

pub open spec fn sat_sub_u32(a: u32, b: u32) -> u32 {
    if a >= b {
        (a - b) as u32
    } else {
        0u32
    }
}

/// Bit range `[lo, hi)` of a tick window `[t_start, t_end)` relative to the
/// current tick (taken modulo 2^32), clipped to the horizon; `None` when the
/// window starts beyond the horizon or is empty there.
pub open spec fn window_bits(current_tick: u64, t_start: Tick, t_end: Tick) -> Option<(u64, u64)> {
    let cur = current_tick as u32;
    let rs = sat_sub_u32(t_start, cur);
    let re = sat_sub_u32(t_end, cur);
    if rs >= 64 {
        None
    } else {
        let end = if re <= 64 {
            re
        } else {
            64u32
        };
        if rs >= end {
            None
        } else {
            Some((rs as u64, end as u64))
        }
    }
}

pub open spec fn window_mask(current_tick: u64, t_start: Tick, t_end: Tick) -> Option<u64> {
    match window_bits(current_tick, t_start, t_end) {
        Some((lo, hi)) => Some(span_mask(lo, hi)),
        None => None,
    }
}

impl ReservationBitset {
    /// One word per cell of the grid.
    pub closed spec fn wf(&self) -> bool {
        &&& self.grid_blocks@.len() == GRID_SIZE
        &&& forall|a: u8| #[trigger]
            self.owners@.contains_key(a) ==> self.owners@[a]@.len() == GRID_SIZE
    }

    /// The bits of a cell's word that the agent reserved.
    pub closed spec fn agent_block(&self, agent: u8, cell: CellID) -> u64 {
        if self.owners@.contains_key(agent) {
            self.owners@[agent]@[cell as int]
        } else {
            0u64
        }
    }

    /// The word of a cell.
    pub closed spec fn block(&self, cell: CellID) -> u64 {
        self.grid_blocks@[cell as int]
    }

    /// Absolute tick of bit 0.
    pub closed spec fn current(&self) -> u64 {
        self.current_tick
    }

    /// The tick is reserved in the cell: it lies in the horizon and its bit is set.
    pub open spec fn reserved(&self, cell: CellID, t: int) -> bool {
        &&& self.current() <= t < self.current() + 64
        &&& bit_set(self.block(cell), (t - self.current()) as u64)
    }

    /// A window is free in a cell: it starts beyond the horizon, is empty there,
    /// or none of its bits is set.
    pub open spec fn spec_is_free(&self, cell: CellID, interval: SafeInterval) -> bool {
        match window_mask(self.current(), interval.t_start, interval.t_end) {
            Some(mask) => self.block(cell) & mask == 0,
            None => true,
        }
    }

    /// The agent holds tick `t` of the cell: the tick lies in the horizon and the
    /// agent's bit for it is set.
    pub open spec fn holds(&self, agent: u8, cell: CellID, t: int) -> bool {
        &&& self.current() <= t < self.current() + 64
        &&& bit_set(self.agent_block(agent, cell), (t - self.current()) as u64)
    }

    /// Every reserved tick is held by some agent.
    pub open spec fn owned(&self) -> bool {
        forall|c: CellID, t: int| #[trigger]
            self.reserved(c, t) ==> exists|a: u8| #[trigger] self.holds(a, c, t)
    }

    pub fn new() -> (r: Self)
        ensures
            r.owned(),
            r.wf(),
            r.current() == 0,
            forall|c: CellID| #[trigger] r.block(c) == 0,
            forall|a: u8, c: CellID| #[trigger] r.agent_block(a, c) == 0,
    {
        let grid_blocks: Vec<u64> = vec![0u64; GRID_SIZE];
        let r = ReservationBitset { grid_blocks, current_tick: 0, owners: HashMap::new() };
        proof {
            assert forall|c: CellID, t: int| #[trigger] r.reserved(c, t) implies exists|a: u8|
                #[trigger] r.holds(a, c, t) by {
                lemma_zero_bit((t - r.current()) as u64);
            }
        }
        r
    }

    /// Moves the window forward to `new_tick`: bits of past ticks are dropped and
    /// the rest shift down. A tick that is not later than the current one does nothing.
    pub fn advance_to_tick(&mut self, new_tick: u64)
        requires
            old(self).wf(),
        ensures
            final(self).wf(),
            old(self).owned() ==> final(self).owned(),
            old(self).current() <= u32::MAX && new_tick <= u32::MAX ==> forall|
                c: CellID,
                interval: SafeInterval,
            |
                interval.t_start >= new_tick ==> (#[trigger] final(self).spec_is_free(c, interval)
                    == old(self).spec_is_free(c, interval)),
            new_tick <= old(self).current() ==> *final(self) == *old(self),
            new_tick > old(self).current() ==> {
                &&& final(self).current() == new_tick
                &&& forall|c: CellID|
                    #[trigger] final(self).block(c) == (if new_tick - old(self).current() >= 64 {
                        0u64
                    } else {
                        old(self).block(c) >> ((new_tick - old(self).current()) as u64)
                    })
                &&& forall|c: CellID, t: int|
                    #[trigger] final(self).reserved(c, t) == (t >= new_tick && old(self).reserved(
                        c,
                        t,
                    ))
                &&& forall|a: u8, c: CellID|
                    #[trigger] final(self).agent_block(a, c) == shifted(
                        old(self).agent_block(a, c),
                        (new_tick - old(self).current()) as u64,
                    )
            },
    {
        let delta: u64 = new_tick.saturating_sub(self.current_tick);
        if delta == 0 {
            return;
        }
        let ghost old_self = *self;
        shift_words(&mut self.grid_blocks, delta);
        let ks = keys_of(&self.owners);
        let ghost own0 = self.owners@;
        let mut i: usize = 0;
        while i < ks.len()
            invariant
                ks@.to_set() == own0.dom(),
                ks@.no_duplicates(),
                i <= ks@.len(),
                self.owners@.dom() == own0.dom(),
                forall|a: u8| #[trigger]
                    own0.contains_key(a) ==> own0[a]@.len() == GRID_SIZE,
                forall|a: u8| #[trigger]
                    self.owners@.contains_key(a) ==> self.owners@[a]@.len() == GRID_SIZE,
                forall|a: u8, j: int|
                    #![trigger self.owners@[a]@[j]]
                    self.owners@.contains_key(a) && 0 <= j < GRID_SIZE ==> self.owners@[a]@[j] == (
                    if ks@.take(i as int).contains(a) {
                        shifted(own0[a]@[j], delta)
                    } else {
                        own0[a]@[j]
                    }),
                self.grid_blocks@.len() == GRID_SIZE,
                forall|j: int|
                    0 <= j < GRID_SIZE ==> #[trigger] self.grid_blocks@[j] == shifted(
                        old_self.grid_blocks@[j],
                        delta,
                    ),
            decreases ks@.len() - i,
        {
            let k = ks[i];
            assert(own0.contains_key(k)) by {
                assert(ks@.contains(k));
            }
            proof {
                assert(ks@.take(i + 1) =~= ks@.take(i as int).push(k));
                assert(!ks@.take(i as int).contains(k)) by {
                    if ks@.take(i as int).contains(k) {
                        let j = choose|j: int| 0 <= j < i && ks@.take(i as int)[j] == k;
                        assert(ks@[j] == ks@[i as int]);
                    }
                }
            }
            let ghost before = self.owners@;
            match self.owners.remove(&k) {
                Some(mut v) => {
                    let ghost v0 = v@;
                    shift_words(&mut v, delta);
                    self.owners.insert(k, v);
                    proof {
                        assert forall|a: u8, j: int|
                            self.owners@.contains_key(a) && 0 <= j < GRID_SIZE implies #[trigger] self.owners@[a]@[j] == (
                            if ks@.take(i + 1).contains(a) {
                                shifted(own0[a]@[j], delta)
                            } else {
                                own0[a]@[j]
                            }) by {
                            if a == k {
                                assert(ks@.take(i + 1)[i as int] == k);
                                assert(v0 == before[k]@);
                                assert(before[k]@[j] == own0[k]@[j]);
                            } else {
                                assert(self.owners@[a] == before[a]);
                                assert(ks@.take(i + 1).contains(a) == ks@.take(i as int).contains(a)) by {
                                    if ks@.take(i + 1).contains(a) {
                                        let jj = choose|jj: int| 0 <= jj < i + 1 && #[trigger] ks@.take(i + 1)[jj] == a;
                                        assert(ks@.take(i as int)[jj] == a);
                                    }
                                    if ks@.take(i as int).contains(a) {
                                        let jj = choose|jj: int| 0 <= jj < i && #[trigger] ks@.take(i as int)[jj] == a;
                                        assert(ks@.take(i + 1)[jj] == a);
                                    }
                                }
                            }
                        }
                    }
                },
                None => {
                    assert(false);
                },
            }
            i = i + 1;
        }
        proof {
            assert(ks@.take(ks@.len() as int) =~= ks@);
            assert forall|a: u8| own0.contains_key(a) implies #[trigger] ks@.contains(a) by {
                assert(ks@.to_set().contains(a));
            }
        }
        self.current_tick = new_tick;
        proof {
            assert forall|a: u8, c: CellID| #[trigger] self.agent_block(a, c) == shifted(
                old_self.agent_block(a, c),
                delta,
            ) by {
                if own0.contains_key(a) {
                    assert(ks@.contains(a));
                    assert(self.owners@[a]@[c as int] == shifted(own0[a]@[c as int], delta));
                } else {
                    assert(shifted(0u64, delta) == 0u64) by (bit_vector);
                }
            }
            assert forall|c: CellID| #[trigger] self.block(c) == shifted(old_self.block(c), delta) by {
                assert(self.grid_blocks@[c as int] == shifted(old_self.grid_blocks@[c as int], delta));
            }
            lemma_advance_keeps_future(old_self, *self, delta);
            if old_self.owned() {
                lemma_owned_after_shift(old_self, *self, delta);
            }
            if old_self.current() <= u32::MAX && new_tick <= u32::MAX {
                assert forall|c: CellID, interval: SafeInterval|
                    interval.t_start >= new_tick implies (#[trigger] self.spec_is_free(c, interval)
                    == old_self.spec_is_free(c, interval)) by {
                    self.lemma_free_iff_unreserved(c, interval);
                    old_self.lemma_free_iff_unreserved(c, interval);
                    assert forall|t: int| interval.t_start <= t < interval.t_end implies #[trigger] self.reserved(
                        c,
                        t,
                    ) == old_self.reserved(c, t) by {}
                    if old_self.spec_is_free(c, interval) {
                        assert forall|t: int| interval.t_start <= t < interval.t_end implies !#[trigger] self.reserved(
                            c,
                            t,
                        ) by {
                            assert(!old_self.reserved(c, t));
                        }
                    }
                    if self.spec_is_free(c, interval) {
                        assert forall|t: int| interval.t_start <= t < interval.t_end implies !#[trigger] old_self.reserved(
                            c,
                            t,
                        ) by {
                            assert(!self.reserved(c, t));
                        }
                    }
                }
            }
        }
    }

    fn interval_to_mask(&self, t_start: Tick, t_end: Tick) -> (r: Option<u64>)
        ensures
            r == window_mask(self.current(), t_start, t_end),
    {
        let cur: Tick = #[verifier::truncate] (self.current_tick as Tick);
        let relative_start: Tick = t_start.saturating_sub(cur);
        let relative_end: Tick = t_end.saturating_sub(cur);
        if relative_start >= 64 {
            return None;
        }
        let end: Tick = if relative_end <= 64 {
            relative_end
        } else {
            64
        };
        if relative_start >= end {
            return None;
        }
        let len: u64 = (end - relative_start) as u64;
        let lo: u64 = relative_start as u64;
        let mut mask: u64 = if len == 64 {
            u64::MAX
        } else {
            assert(1u64 << len >= 1u64) by (bit_vector)
                requires
                    len < 64,
            ;
            (1u64 << len) - 1
        };
        if len != 64 {
            mask = mask << lo;
        }
        proof {
            if len == 64 {
                assert(lo == 0);
                assert(u64::MAX << 0u64 == u64::MAX) by (bit_vector);
            }
        }
        Some(mask)
    }

    /// Whether no bit of the window is set in the cell.
    pub fn is_free(&self, cell_id: CellID, interval: &SafeInterval) -> (r: bool)
        requires
            self.wf(),
        ensures
            r == self.spec_is_free(cell_id, *interval),
            self.current() <= u32::MAX ==> (r <==> forall|t: int|
                interval.t_start <= t < interval.t_end ==> !#[trigger] self.reserved(cell_id, t)),
    {
        proof {
            if self.current() <= u32::MAX {
                self.lemma_free_iff_unreserved(cell_id, *interval);
            }
        }
        let idx: usize = cell_id as usize;
        match self.interval_to_mask(interval.t_start, interval.t_end) {
            Some(mask) => (self.grid_blocks[idx] & mask) == 0,
            None => true,
        }
    }

    /// Marks the window in the cell; refuses it when one of its ticks is taken.
    /// A window beyond the horizon is accepted and not recorded.
    pub fn insert_interval(
        &mut self,
        cell_id: CellID,
        agent_id: u8,
        interval: SafeInterval,
        trajectory_hash: u64,
    ) -> (r: Result<(), &'static str>)
        requires
            old(self).wf(),
        ensures
            final(self).wf(),
            old(self).owned() ==> final(self).owned(),
            final(self).current() == old(self).current(),
            r is Err <==> !old(self).spec_is_free(cell_id, interval),
            r is Err ==> *final(self) == *old(self),
            r is Ok ==> forall|c: CellID|
                #[trigger] final(self).block(c) == (match window_mask(
                    old(self).current(),
                    interval.t_start,
                    interval.t_end,
                ) {
                    Some(mask) if c == cell_id => old(self).block(c) | mask,
                    _ => old(self).block(c),
                }),
            r is Ok ==> forall|a: u8, c: CellID|
                #[trigger] final(self).agent_block(a, c) == (match window_mask(
                    old(self).current(),
                    interval.t_start,
                    interval.t_end,
                ) {
                    Some(mask) if a == agent_id && c == cell_id => old(self).agent_block(a, c)
                        | mask,
                    _ => old(self).agent_block(a, c),
                }),
            r is Ok && old(self).current() <= u32::MAX ==> forall|c: CellID, t: int|
                #[trigger] final(self).reserved(c, t) == (old(self).reserved(c, t) || (c == cell_id
                    && interval.t_start <= t < interval.t_end && old(self).current() <= t
                    < old(self).current() + 64)),
    {
        let idx: usize = cell_id as usize;
        match self.interval_to_mask(interval.t_start, interval.t_end) {
            Some(mask) => {
                if (self.grid_blocks[idx] & mask) != 0 {
                    return Err("Collision detected");
                }
                let v: u64 = self.grid_blocks[idx] | mask;
                let ghost before = *self;
                self.grid_blocks.set(idx, v);
                let mut own: Vec<u64> = match self.owners.remove(&agent_id) {
                    Some(w) => w,
                    None => vec![0u64; GRID_SIZE],
                };
                let ov: u64 = own[idx] | mask;
                own.set(idx, ov);
                self.owners.insert(agent_id, own);
                proof {
                    if before.current() <= u32::MAX {
                        lemma_insert_reserves(before, *self, cell_id, interval);
                    }
                    if before.owned() {
                        lemma_owned_after_or(before, *self, cell_id, agent_id, mask);
                    }
                }
                Ok(())
            },
            None => {
                proof {
                    if self.current() <= u32::MAX {
                        lemma_window_none_outside(*self, cell_id, interval);
                    }
                }
                Ok(())
            },
        }
    }

    /// Removes all reservations of the agent: the bits it set are cleared.
    pub fn remove_agent_reservations(&mut self, agent_id: u8)
        requires
            old(self).wf(),
        ensures
            final(self).wf(),
            old(self).owned() ==> final(self).owned(),
            old(self).owned() && old(self).current() <= u32::MAX ==> forall|
                c: CellID,
                interval: SafeInterval,
            |
                (forall|b: u8, t: int|
                    b != agent_id && interval.t_start <= t < interval.t_end ==> !#[trigger] old(
                        self,
                    ).holds(b, c, t)) ==> #[trigger] final(self).spec_is_free(c, interval),
            final(self).current() == old(self).current(),
            forall|c: CellID|
                #[trigger] final(self).block(c) == old(self).block(c) & !old(self).agent_block(
                    agent_id,
                    c,
                ),
            forall|a: u8, c: CellID|
                #[trigger] final(self).agent_block(a, c) == if a == agent_id {
                    0u64
                } else {
                    old(self).agent_block(a, c)
                },
    {
        let ghost old_self = *self;
        match self.owners.remove(&agent_id) {
            None => {
                assert forall|c: CellID| #[trigger] self.block(c) == old_self.block(c)
                    & !old_self.agent_block(agent_id, c) by {
                    let b = self.block(c);
                    assert(b & !0u64 == b) by (bit_vector);
                }
            },
            Some(own) => {
                let n: usize = self.grid_blocks.len();
                let mut i: usize = 0;
                while i < n
                    invariant
                        self.current_tick == old_self.current_tick,
                        self.owners@ == old_self.owners@.remove(agent_id),
                        old_self.owners@.contains_key(agent_id),
                        old_self.wf(),
                        n == GRID_SIZE,
                        own@.len() == GRID_SIZE,
                        own@ == old_self.owners@[agent_id]@,
                        self.grid_blocks@.len() == GRID_SIZE,
                        i <= n,
                        forall|j: int|
                            0 <= j < i ==> #[trigger] self.grid_blocks@[j]
                                == old_self.grid_blocks@[j] & !own@[j],
                        forall|j: int|
                            i <= j < n ==> #[trigger] self.grid_blocks@[j]
                                == old_self.grid_blocks@[j],
                    decreases n - i,
                {
                    let v: u64 = self.grid_blocks[i] & !own[i];
                    self.grid_blocks.set(i, v);
                    i = i + 1;
                }
            },
        }
        proof {
            if old_self.owned() {
                lemma_owned_after_remove(old_self, *self, agent_id);
            }
        }
    }

    /// The bitset keeps no reservation records: the answer is always empty.
    pub fn query(&self, cell_id: CellID, t_start: Tick, t_end: Tick) -> (r: Vec<Reservation>)
        ensures
            r@.len() == 0,
    {
        Vec::new()
    }

    /// Drops everything before `current_tick`.
    pub fn gc(&mut self, current_tick: Tick)
        requires
            old(self).wf(),
        ensures
            final(self).wf(),
            old(self).owned() ==> final(self).owned(),
            current_tick <= old(self).current() ==> *final(self) == *old(self),
            current_tick > old(self).current() ==> {
                &&& final(self).current() == current_tick
                &&& forall|c: CellID|
                    #[trigger] final(self).block(c) == (if current_tick - old(self).current()
                        >= 64 {
                        0u64
                    } else {
                        old(self).block(c) >> ((current_tick - old(self).current()) as u64)
                    })
                &&& forall|c: CellID, t: int|
                    #[trigger] final(self).reserved(c, t) == (t >= current_tick && old(
                        self,
                    ).reserved(c, t))
                &&& forall|a: u8, c: CellID|
                    #[trigger] final(self).agent_block(a, c) == shifted(
                        old(self).agent_block(a, c),
                        (current_tick - old(self).current()) as u64,
                    )
            },
    {
        self.advance_to_tick(current_tick as u64);
    }
}

impl ReservationLookup for ReservationBitset {
    open spec fn lookup_ready(&self) -> bool {
        self.wf()
    }

    open spec fn spec_slot_free(&self, cell: CellID, interval: SafeInterval) -> bool {
        self.spec_is_free(cell, interval)
    }

    fn slot_is_free(&self, cell: CellID, interval: &SafeInterval) -> (r: bool) {
        self.is_free(cell, interval)
    }
}

impl ReservationBitset {
    proof fn lemma_free_iff_unreserved(&self, cell: CellID, interval: SafeInterval)
        requires
            self.current() <= u32::MAX,
        ensures
            self.spec_is_free(cell, interval) <==> forall|t: int|
                interval.t_start <= t < interval.t_end ==> !#[trigger] self.reserved(cell, t),
    {
        let cur = self.current();
        let b = self.block(cell);
        match window_bits(cur, interval.t_start, interval.t_end) {
            None => {
                lemma_window_none_outside(*self, cell, interval);
            },
            Some((lo, hi)) => {
                let m = span_mask(lo, hi);
                if b & m == 0 {
                    assert forall|t: int|
                        interval.t_start <= t < interval.t_end implies !#[trigger] self.reserved(
                        cell,
                        t,
                    ) by {
                        if cur <= t < cur + 64 {
                            let k = (t - cur) as u64;
                            lemma_and_bit(b, m, k);
                            lemma_span_mask_bit(lo, hi, k);
                            lemma_zero_bit(k);
                        }
                    }
                } else {
                    lemma_nonzero_has_bit(b & m);
                    let k = choose|k: u64| k < 64 && #[trigger] bit_set(b & m, k);
                    lemma_and_bit(b, m, k);
                    lemma_span_mask_bit(lo, hi, k);
                    assert(self.reserved(cell, cur + k));
                }
            },
        }
    }
}

/// A window without bits has no tick inside the horizon.
proof fn lemma_window_none_outside(tbl: ReservationBitset, cell: CellID, interval: SafeInterval)
    requires
        tbl.current() <= u32::MAX,
        window_bits(tbl.current(), interval.t_start, interval.t_end) is None,
    ensures
        forall|t: int|
            interval.t_start <= t < interval.t_end ==> !#[trigger] tbl.reserved(cell, t),
{
    assert(tbl.current() as u32 == tbl.current());
}

proof fn lemma_insert_reserves(
    before: ReservationBitset,
    after: ReservationBitset,
    cell: CellID,
    interval: SafeInterval,
)
    requires
        before.current() <= u32::MAX,
        after.current() == before.current(),
        window_mask(before.current(), interval.t_start, interval.t_end) is Some,
        forall|c: CellID|
            #[trigger] after.block(c) == (if c == cell {
                before.block(c) | window_mask(
                    before.current(),
                    interval.t_start,
                    interval.t_end,
                ).unwrap()
            } else {
                before.block(c)
            }),
    ensures
        forall|c: CellID, t: int|
            #[trigger] after.reserved(c, t) == (before.reserved(c, t) || (c == cell
                && interval.t_start <= t < interval.t_end && before.current() <= t
                < before.current() + 64)),
{
    let cur = before.current();
    assert(cur as u32 == cur);
    let (lo, hi) = window_bits(cur, interval.t_start, interval.t_end).unwrap();
    let m = span_mask(lo, hi);
    assert forall|c: CellID, t: int|
        #[trigger] after.reserved(c, t) == (before.reserved(c, t) || (c == cell
            && interval.t_start <= t < interval.t_end && cur <= t < cur + 64)) by {
        if c == cell && cur <= t < cur + 64 {
            let k = (t - cur) as u64;
            lemma_or_bit(before.block(c), m, k);
            lemma_span_mask_bit(lo, hi, k);
        }
    }
}

proof fn lemma_advance_keeps_future(before: ReservationBitset, after: ReservationBitset, delta: u64)
    requires
        delta > 0,
        after.current() == before.current() + delta,
        forall|c: CellID|
            #[trigger] after.block(c) == (if delta >= 64 {
                0u64
            } else {
                before.block(c) >> delta
            }),
    ensures
        forall|c: CellID, t: int|
            #[trigger] after.reserved(c, t) == (t >= after.current() && before.reserved(c, t)),
{
    assert forall|c: CellID, t: int|
        #[trigger] after.reserved(c, t) == (t >= after.current() && before.reserved(c, t)) by {
        if after.current() <= t < after.current() + 64 {
            let k = (t - after.current()) as u64;
            if delta >= 64 {
                lemma_zero_bit(k);
            } else {
                lemma_shift_bit(before.block(c), delta, k);
            }
        }
    }
}

proof fn lemma_span_mask_bit(lo: u64, hi: u64, k: u64)
    requires
        lo < hi <= 64,
        k < 64,
    ensures
        bit_set(span_mask(lo, hi), k) == (lo <= k < hi),
{
    let len = (hi - lo) as u64;
    if len == 64 {
        assert(bit_set(u64::MAX, k)) by (bit_vector)
            requires
                k < 64,
        ;
    } else {
        assert(bit_set((((1u64 << len) - 1u64) as u64) << lo, k) == (lo <= k && k < lo + len))
            by (bit_vector)
            requires
                len < 64,
                lo + len <= 64,
                k < 64,
        ;
    }
}

proof fn lemma_and_bit(a: u64, b: u64, k: u64)
    requires
        k < 64,
    ensures
        bit_set(a & b, k) == (bit_set(a, k) && bit_set(b, k)),
{
    assert(bit_set(a & b, k) == (bit_set(a, k) && bit_set(b, k))) by (bit_vector);
}

proof fn lemma_or_bit(a: u64, b: u64, k: u64)
    requires
        k < 64,
    ensures
        bit_set(a | b, k) == (bit_set(a, k) || bit_set(b, k)),
{
    assert(bit_set(a | b, k) == (bit_set(a, k) || bit_set(b, k))) by (bit_vector);
}

proof fn lemma_zero_bit(k: u64)
    requires
        k < 64,
    ensures
        !bit_set(0u64, k),
{
    assert(!bit_set(0u64, k)) by (bit_vector);
}

proof fn lemma_shift_bit(b: u64, d: u64, k: u64)
    requires
        0 < d < 64,
        k < 64,
    ensures
        bit_set(b >> d, k) == (k + d < 64 && bit_set(b, (k + d) as u64)),
{
    assert(bit_set(b >> d, k) == (k + d < 64 && bit_set(b, (k + d) as u64))) by (bit_vector)
        requires
            0 < d < 64,
            k < 64,
    ;
}

/// A word that is not zero has a set bit.
proof fn lemma_nonzero_has_bit(x: u64)
    requires
        x != 0,
    ensures
        exists|k: u64| k < 64 && #[trigger] bit_set(x, k),
    decreases x,
{
    if x & 1u64 == 1u64 {
        assert(bit_set(x, 0u64)) by (bit_vector)
            requires
                x & 1u64 == 1u64,
        ;
    } else {
        let y = x >> 1u64;
        assert(y < x && y != 0) by (bit_vector)
            requires
                x != 0,
                x & 1u64 != 1u64,
                y == x >> 1u64,
        ;
        lemma_nonzero_has_bit(y);
        let k = choose|k: u64| k < 64 && #[trigger] bit_set(y, k);
        assert(k < 63 && bit_set(x, (k + 1) as u64)) by (bit_vector)
            requires
                y == x >> 1u64,
                k < 64,
                bit_set(y, k),
        ;
    }
}

proof fn lemma_andnot_bit(a: u64, b: u64, k: u64)
    requires
        k < 64,
    ensures
        bit_set(a & !b, k) == (bit_set(a, k) && !bit_set(b, k)),
{
    assert(bit_set(a & !b, k) == (bit_set(a, k) && !bit_set(b, k))) by (bit_vector);
}

/// After the window moves forward, every reserved tick is still held.
proof fn lemma_owned_after_shift(before: ReservationBitset, after: ReservationBitset, delta: u64)
    requires
        before.owned(),
        delta > 0,
        after.current() == before.current() + delta,
        forall|c: CellID, t: int| #[trigger]
            after.reserved(c, t) == (t >= after.current() && before.reserved(c, t)),
        forall|a: u8, c: CellID| #[trigger]
            after.agent_block(a, c) == shifted(before.agent_block(a, c), delta),
    ensures
        after.owned(),
{
    assert forall|c: CellID, t: int| #[trigger] after.reserved(c, t) implies exists|a: u8|
        #[trigger] after.holds(a, c, t) by {
        assert(before.reserved(c, t));
        let a = choose|a: u8| #[trigger] before.holds(a, c, t);
        let k = (t - after.current()) as u64;
        assert(delta < 64);
        assert(after.agent_block(a, c) == before.agent_block(a, c) >> delta);
        lemma_shift_bit(before.agent_block(a, c), delta, k);
        assert(((t - before.current()) as u64) == (k + delta) as u64);
        assert(after.holds(a, c, t));
    }
}

/// After bits `m` are set in a cell for an agent, every reserved tick is held.
proof fn lemma_owned_after_or(
    before: ReservationBitset,
    after: ReservationBitset,
    cell: CellID,
    agent: u8,
    m: u64,
)
    requires
        before.owned(),
        after.current() == before.current(),
        forall|c: CellID| #[trigger]
            after.block(c) == (if c == cell {
                before.block(c) | m
            } else {
                before.block(c)
            }),
        forall|a: u8, c: CellID| #[trigger]
            after.agent_block(a, c) == (if a == agent && c == cell {
                before.agent_block(a, c) | m
            } else {
                before.agent_block(a, c)
            }),
    ensures
        after.owned(),
{
    assert forall|c: CellID, t: int| #[trigger] after.reserved(c, t) implies exists|a: u8|
        #[trigger] after.holds(a, c, t) by {
        let k = (t - after.current()) as u64;
        if c == cell {
            lemma_or_bit(before.block(c), m, k);
            lemma_or_bit(before.agent_block(agent, c), m, k);
            if bit_set(before.block(c), k) {
                assert(before.reserved(c, t));
                let a = choose|a: u8| #[trigger] before.holds(a, c, t);
                if a == agent {
                    assert(after.holds(agent, c, t));
                } else {
                    assert(after.holds(a, c, t));
                }
            } else {
                assert(after.holds(agent, c, t));
            }
        } else {
            assert(before.reserved(c, t));
            let a = choose|a: u8| #[trigger] before.holds(a, c, t);
            assert(after.holds(a, c, t));
        }
    }
}

/// After an agent's bits are cleared, every reserved tick is still held, and a
/// window that no other agent held becomes free.
proof fn lemma_owned_after_remove(before: ReservationBitset, after: ReservationBitset, agent: u8)
    requires
        before.owned(),
        after.current() == before.current(),
        forall|c: CellID| #[trigger]
            after.block(c) == before.block(c) & !before.agent_block(agent, c),
        forall|a: u8, c: CellID| #[trigger]
            after.agent_block(a, c) == (if a == agent {
                0u64
            } else {
                before.agent_block(a, c)
            }),
    ensures
        after.owned(),
        before.current() <= u32::MAX ==> forall|c: CellID, interval: SafeInterval|
            (forall|b: u8, t: int|
                b != agent && interval.t_start <= t < interval.t_end ==> !#[trigger] before.holds(
                    b,
                    c,
                    t,
                )) ==> #[trigger] after.spec_is_free(c, interval),
{
    assert forall|c: CellID, t: int| #[trigger] after.reserved(c, t) implies exists|a: u8|
        #[trigger] after.holds(a, c, t) && a != agent && before.holds(a, c, t) by {
        let k = (t - after.current()) as u64;
        lemma_andnot_bit(before.block(c), before.agent_block(agent, c), k);
        assert(before.reserved(c, t));
        let a = choose|a: u8| #[trigger] before.holds(a, c, t);
        assert(a != agent);
        assert(after.holds(a, c, t));
    }
    if before.current() <= u32::MAX {
        assert forall|c: CellID, interval: SafeInterval|
            (forall|b: u8, t: int|
                b != agent && interval.t_start <= t < interval.t_end ==> !#[trigger] before.holds(
                    b,
                    c,
                    t,
                )) implies #[trigger] after.spec_is_free(c, interval) by {
            after.lemma_free_iff_unreserved(c, interval);
            assert forall|t: int| interval.t_start <= t < interval.t_end implies !#[trigger] after.reserved(
                c,
                t,
            ) by {
                if after.reserved(c, t) {
                    let a = choose|a: u8| #[trigger] after.holds(a, c, t) && a != agent && before.holds(
                        a,
                        c,
                        t,
                    );
                    assert(!before.holds(a, c, t));
                }
            }
        }
    }
}

} // verus!

//! Reservation table: for each cell, the agents' bookings of tick windows.
use crate::planner::d_sipp::ReservationLookup;
use crate::collections::{
    add_len, keys_of, lemma_add_len_commutative, lemma_sum_lens_is_total, lemma_sum_lens_prefix_le,
    sum_lens, total_len,
};
use crate::space_time::{spec_overlaps, CellID, SafeInterval, Tick};
use std::collections::HashMap;
use vstd::prelude::*;

verus! {

broadcast use vstd::std_specs::hash::group_hash_axioms;

/// Bookings kept per cell before the one ending first is evicted.
pub const MAX_RESERVATIONS_PER_CELL: usize = 32usize;

/// An agent's booking of a cell for the ticks `[t_start, t_end)`.
#[derive(Debug, Clone, Copy, PartialEq, Eq, Structural)]
pub struct Reservation {
    pub agent_id: u8,
    pub t_start: Tick,
    pub t_end: Tick,
    pub trajectory_hash: u32,
}

impl Reservation {
    pub fn new(agent_id: u8, interval: SafeInterval, trajectory_hash: u32) -> (r: Self)
        ensures
            r == (Reservation {
                agent_id,
                t_start: interval.t_start,
                t_end: interval.t_end,
                trajectory_hash,
            }),
    {
        Reservation { agent_id, t_start: interval.t_start, t_end: interval.t_end, trajectory_hash }
    }

    pub fn overlaps(&self, other: &Self) -> (r: bool)
        ensures
            r == spec_overlaps(
                self.t_start as int,
                self.t_end as int,
                other.t_start as int,
                other.t_end as int,
            ),
    {
        !(self.t_end <= other.t_start || other.t_end <= self.t_start)
    }

    pub fn overlaps_interval(&self, interval: &SafeInterval) -> (r: bool)
        ensures
            r == spec_overlaps(
                self.t_start as int,
                self.t_end as int,
                interval.t_start as int,
                interval.t_end as int,
            ),
    {
        !(self.t_end <= interval.t_start || interval.t_end <= self.t_start)
    }

    pub fn contains_tick(&self, tick: Tick) -> (r: bool)
        ensures
            r == (self.t_start <= tick && tick < self.t_end),
    {
        self.t_start <= tick && tick < self.t_end
    }

    pub fn contains_interval(&self, interval: &SafeInterval) -> (r: bool)
        ensures
            r == (self.t_start <= interval.t_start && interval.t_end <= self.t_end),
    {
        self.t_start <= interval.t_start && interval.t_end <= self.t_end
    }
}

/// A booking stands in the way of a window when they share a tick, unless the
/// booking is for exactly that window: asking again for a window one already
/// holds finds it free.
pub open spec fn blocks_window(r: Reservation, w: SafeInterval) -> bool {
    spec_overlaps(r.t_start as int, r.t_end as int, w.t_start as int, w.t_end as int) && !(
    r.t_start == w.t_start && r.t_end == w.t_end)
}

/// No booking of the list stands in the way of the window.
pub open spec fn window_free(rs: Seq<Reservation>, w: SafeInterval) -> bool {
    forall|i: int| 0 <= i < rs.len() ==> !#[trigger] blocks_window(rs[i], w)
}

/// The list is in order of start tick.
pub open spec fn sorted_by_start(rs: Seq<Reservation>) -> bool {
    forall|i: int, j: int| 0 <= i < j < rs.len() ==> rs[i].t_start <= rs[j].t_start
}

/// `pos` splits the list into the bookings starting at or before `key` and those after.
pub open spec fn is_split_point(rs: Seq<Reservation>, key: Tick, pos: int) -> bool {
    &&& 0 <= pos <= rs.len()
    &&& forall|i: int| 0 <= i < pos ==> #[trigger] rs[i].t_start <= key
    &&& forall|i: int| pos <= i < rs.len() ==> #[trigger] rs[i].t_start > key
}

/// Where a booking starting at `key` goes: after every booking that starts no later.
pub open spec fn split_point(rs: Seq<Reservation>, key: Tick) -> int {
    choose|pos: int| is_split_point(rs, key, pos)
}

/// Index of the first booking with the earliest end among the first `k`.
pub open spec fn min_end_index(rs: Seq<Reservation>, k: int) -> int
    decreases k,
{
    if k <= 1 {
        0
    } else {
        let j = min_end_index(rs, k - 1);
        if rs[k - 1].t_end < rs[j].t_end {
            k - 1
        } else {
            j
        }
    }
}

/// The list once room is made for one more booking: when it is full, the
/// booking that ends first (the earliest in the list among equals) leaves.
pub open spec fn evicted(rs: Seq<Reservation>) -> Seq<Reservation> {
    if rs.len() >= MAX_RESERVATIONS_PER_CELL {
        rs.remove(min_end_index(rs, rs.len() as int))
    } else {
        rs
    }
}

/// The list after booking `res`: room is made, then `res` goes in start order.
pub open spec fn spec_cell_insert(rs: Seq<Reservation>, res: Reservation) -> Seq<Reservation> {
    let base = evicted(rs);
    base.insert(split_point(base, res.t_start), res)
}

/// The bookings a list of references points to.
pub open spec fn derefs(s: Seq<&Reservation>) -> Seq<Reservation> {
    s.map_values(|x: &Reservation| *x)
}

/// The booking shares a tick with `[t_start, t_end)`.
pub open spec fn in_range(t_start: Tick, t_end: Tick) -> spec_fn(Reservation) -> bool {
    |r: Reservation| r.t_start < t_end && r.t_end > t_start
}

/// Which bookings a clean-up keeps.
pub enum KeepRule {
    /// Those still running after the tick.
    EndsAfter(Tick),
    /// Those of other agents.
    NotOfAgent(u8),
}

pub open spec fn keeps(rule: KeepRule) -> spec_fn(Reservation) -> bool {
    match rule {
        KeepRule::EndsAfter(tick) => |r: Reservation| r.t_end > tick,
        KeepRule::NotOfAgent(agent) => |r: Reservation| r.agent_id != agent,
    }
}

/// The bookings of one cell, in order of start tick, at most 32 of them.
#[derive(Debug, Clone)]
pub struct CellReservations {
    reservations: Vec<Reservation>,
}

impl CellReservations {
    pub closed spec fn items(&self) -> Seq<Reservation> {
        self.reservations@
    }

    pub open spec fn wf(&self) -> bool {
        &&& self.items().len() <= MAX_RESERVATIONS_PER_CELL
        &&& sorted_by_start(self.items())
    }

    pub fn new() -> (r: Self)
        ensures
            r.wf(),
            r.items() == Seq::<Reservation>::empty(),
    {
        CellReservations { reservations: Vec::new() }
    }

    pub fn is_free(&self, interval: &SafeInterval) -> (r: bool)
        ensures
            r == window_free(self.items(), *interval),
    {
        let mut i: usize = 0;
        while i < self.reservations.len()
            invariant
                i <= self.items().len(),
                forall|j: int| 0 <= j < i ==> !#[trigger] blocks_window(self.items()[j], *interval),
            decreases self.items().len() - i,
        {
            let r = &self.reservations[i];
            if r.overlaps_interval(interval) && !(r.t_start == interval.t_start && r.t_end
                == interval.t_end) {
                assert(blocks_window(self.items()[i as int], *interval));
                return false;
            }
            i = i + 1;
        }
        true
    }

    /// Index of the first booking with the earliest end.
    fn min_end_position(&self) -> (r: usize)
        requires
            self.items().len() > 0,
        ensures
            r == min_end_index(self.items(), self.items().len() as int),
            r < self.items().len(),
    {
        let mut best: usize = 0;
        let mut i: usize = 1;
        while i < self.reservations.len()
            invariant
                1 <= i <= self.items().len(),
                best == min_end_index(self.items(), i as int),
                best < i,
            decreases self.items().len() - i,
        {
            if self.reservations[i].t_end < self.reservations[best].t_end {
                best = i;
            }
            i = i + 1;
        }
        best
    }

    /// Binary search for the place of a booking starting at `key`.
    fn insert_position(&self, key: Tick) -> (pos: usize)
        requires
            sorted_by_start(self.items()),
        ensures
            is_split_point(self.items(), key, pos as int),
    {
        let mut lo: usize = 0;
        let mut hi: usize = self.reservations.len();
        while lo < hi
            invariant
                0 <= lo <= hi <= self.items().len(),
                sorted_by_start(self.items()),
                forall|i: int| 0 <= i < lo ==> #[trigger] self.items()[i].t_start <= key,
                forall|i: int| hi <= i < self.items().len() ==> #[trigger] self.items()[i].t_start
                    > key,
            decreases hi - lo,
        {
            let mid: usize = lo + (hi - lo) / 2;
            if self.reservations[mid].t_start <= key {
                lo = mid + 1;
            } else {
                hi = mid;
            }
        }
        lo
    }

    /// Books `res`; when 32 bookings are held, the one ending first leaves.
    pub fn insert(&mut self, res: Reservation) -> (r: Result<(), &'static str>)
        requires
            old(self).wf(),
        ensures
            final(self).wf(),
            r is Ok,
            final(self).items() == spec_cell_insert(old(self).items(), res),
            final(self).items().contains(res),
            old(self).items().len() < MAX_RESERVATIONS_PER_CELL ==> forall|i: int|
                0 <= i < old(self).items().len() ==> final(self).items().contains(
                    #[trigger] old(self).items()[i],
                ),
    {
        if self.reservations.len() >= MAX_RESERVATIONS_PER_CELL {
            let victim = self.min_end_position();
            let ghost before = self.items();
            self.reservations.remove(victim);
            proof {
                assert forall|i: int, j: int| 0 <= i < j < self.items().len() implies self.items()[i].t_start
                    <= self.items()[j].t_start by {
                    if i < victim {
                        if j < victim {
                        } else {
                            assert(self.items()[j] == before[j + 1]);
                        }
                    } else {
                        assert(self.items()[i] == before[i + 1]);
                        assert(self.items()[j] == before[j + 1]);
                    }
                }
            }
        }
        let ghost base = self.items();
        assert(base == evicted(old(self).items()));
        let pos = self.insert_position(res.t_start);
        proof {
            lemma_split_point_unique(base, res.t_start, pos as int);
        }
        self.reservations.insert(pos, res);
        assert(self.items()[pos as int] == res);
        proof {
            if old(self).items().len() < MAX_RESERVATIONS_PER_CELL {
                assert forall|i: int| 0 <= i < old(self).items().len() implies self.items().contains(
                    #[trigger] old(self).items()[i],
                ) by {
                    if i < pos {
                        assert(self.items()[i] == old(self).items()[i]);
                    } else {
                        assert(self.items()[i + 1] == old(self).items()[i]);
                    }
                }
            }
            assert forall|i: int, j: int| 0 <= i < j < self.items().len() implies self.items()[i].t_start
                <= self.items()[j].t_start by {
                if j < pos {
                } else if j == pos {
                    assert(base[i].t_start <= res.t_start);
                } else if i < pos {
                    assert(self.items()[j] == base[j - 1]);
                } else if i == pos {
                    assert(self.items()[j] == base[j - 1]);
                    assert(base[j - 1].t_start > res.t_start);
                } else {
                    assert(self.items()[i] == base[i - 1]);
                    assert(self.items()[j] == base[j - 1]);
                }
            }
        }
        Ok(())
    }

    /// The bookings that share a tick with `[t_start, t_end)`, in list order.
    pub fn range_query(&self, t_start: Tick, t_end: Tick) -> (r: Vec<&Reservation>)
        ensures
            derefs(r@) == self.items().filter(in_range(t_start, t_end)),
    {
        let mut out: Vec<&Reservation> = Vec::new();
        let mut i: usize = 0;
        while i < self.reservations.len()
            invariant
                i <= self.items().len(),
                derefs(out@) == self.items().take(i as int).filter(
                    in_range(t_start, t_end),
                ),
            decreases self.items().len() - i,
        {
            proof {
                reveal_with_fuel(Seq::filter, 1);
                assert(self.items().take(i + 1).drop_last() =~= self.items().take(i as int));
            }
            let r = &self.reservations[i];
            if r.t_start < t_end && r.t_end > t_start {
                out.push(r);
            }
            proof {
                assert(derefs(out@) =~= self.items().take(i + 1).filter(
                    in_range(t_start, t_end),
                ));
            }
            i = i + 1;
        }
        assert(self.items().take(self.items().len() as int) =~= self.items());
        out
    }

    /// All bookings, in list order.
    fn all_refs(&self) -> (r: Vec<&Reservation>)
        ensures
            derefs(r@) == self.items(),
    {
        let mut out: Vec<&Reservation> = Vec::new();
        let mut i: usize = 0;
        while i < self.reservations.len()
            invariant
                i <= self.items().len(),
                out@.len() == i,
                derefs(out@) == self.items().take(i as int),
            decreases self.items().len() - i,
        {
            let r = &self.reservations[i];
            let ghost prev = out@;
            out.push(r);
            proof {
                assert forall|k: int| 0 <= k < i + 1 implies #[trigger] derefs(out@)[k]
                    == self.items().take(i + 1)[k] by {
                    if k < i {
                        assert(derefs(prev)[k] == self.items().take(i as int)[k]);
                    }
                }
                assert(derefs(out@) =~= self.items().take(i + 1));
            }
            i = i + 1;
        }
        assert(self.items().take(self.items().len() as int) =~= self.items());
        out
    }

    fn retain_rule(&mut self, rule: &KeepRule)
        requires
            old(self).wf(),
        ensures
            final(self).wf(),
            final(self).items() == old(self).items().filter(keeps(*rule)),
    {
        let ghost src = self.items();
        let mut out: Vec<Reservation> = Vec::new();
        let mut i: usize = 0;
        while i < self.reservations.len()
            invariant
                self.items() == src,
                i <= src.len(),
                sorted_by_start(src),
                src.len() <= MAX_RESERVATIONS_PER_CELL,
                out@ == src.take(i as int).filter(keeps(*rule)),
                out@.len() <= i,
                sorted_by_start(out@),
                forall|k: int, j: int|
                    0 <= k < out@.len() && i <= j < src.len() ==> #[trigger] out@[k].t_start
                        <= #[trigger] src[j].t_start,
            decreases src.len() - i,
        {
            proof {
                reveal_with_fuel(Seq::filter, 1);
                assert(src.take(i + 1).drop_last() =~= src.take(i as int));
                src.take(i as int).lemma_filter_len(keeps(*rule));
            }
            let r = self.reservations[i];
            let keep: bool = match rule {
                KeepRule::EndsAfter(tick) => r.t_end > *tick,
                KeepRule::NotOfAgent(agent) => r.agent_id != *agent,
            };
            if keep {
                out.push(r);
            }
            i = i + 1;
        }
        assert(src.take(src.len() as int) =~= src);
        self.reservations = out;
    }

    /// Drops the bookings that end at or before `current_tick`.
    pub fn gc(&mut self, current_tick: Tick)
        requires
            old(self).wf(),
        ensures
            final(self).wf(),
            final(self).items() == old(self).items().filter(keeps(KeepRule::EndsAfter(current_tick))),
    {
        self.retain_rule(&KeepRule::EndsAfter(current_tick));
    }

    pub fn count(&self) -> (r: usize)
        ensures
            r == self.items().len(),
    {
        self.reservations.len()
    }
}

impl Default for CellReservations {
    fn default() -> (r: Self)
        ensures
            r.wf(),
            r.items() == Seq::<Reservation>::empty(),
    {
        Self::new()
    }
}

/// The list of a cell in a map of lists, empty when the cell has none.
pub open spec fn cell_list(m: Map<CellID, Seq<Reservation>>, cell: CellID) -> Seq<Reservation> {
    if m.contains_key(cell) {
        m[cell]
    } else {
        Seq::empty()
    }
}

/// Every list cleaned by the rule; cells left without bookings disappear.
pub open spec fn table_keeps(m: Map<CellID, Seq<Reservation>>, rule: KeepRule) -> Map<
    CellID,
    Seq<Reservation>,
> {
    Map::new(
        |k: CellID| m.contains_key(k) && m[k].filter(keeps(rule)).len() > 0,
        |k: CellID| m[k].filter(keeps(rule)),
    )
}

pub open spec fn lists_of(m: Map<CellID, CellReservations>) -> Map<CellID, Seq<Reservation>> {
    Map::new(|k: CellID| m.contains_key(k), |k: CellID| m[k].items())
}

/// Every present cell holds a well-formed, non-empty list.
pub open spec fn cells_ok(m: Map<CellID, CellReservations>) -> bool {
    forall|k: CellID| #[trigger] m.contains_key(k) ==> m[k].wf() && m[k].items().len() > 0
}

/// Bookings of every cell that has any.
#[derive(Debug)]
pub struct ReservationTable {
    cells: HashMap<CellID, CellReservations>,
}

impl ReservationTable {
    /// The bookings of each cell, in start order.
    pub closed spec fn booked(&self) -> Map<CellID, Seq<Reservation>> {
        lists_of(self.cells@)
    }

    /// A table books finitely many cells.
    pub proof fn lemma_booked_finite(&self)
        ensures
            self.booked().dom().finite(),
    {
        vstd::std_specs::hash::axiom_hashmap_view_finite_dom(self.cells);
        assert(self.booked().dom() =~= self.cells@.dom());
    }

    /// Every present cell has between 1 and 32 bookings, in start order.
    pub open spec fn wf(&self) -> bool {
        forall|k: CellID| #[trigger]
            self.booked().contains_key(k) ==> {
                &&& 0 < self.booked()[k].len() <= MAX_RESERVATIONS_PER_CELL
                &&& sorted_by_start(self.booked()[k])
            }
    }

    proof fn lemma_wf_cells(&self)
        ensures
            self.wf() <==> cells_ok(self.cells@),
    {
        if self.wf() {
            assert forall|k: CellID| #[trigger] self.cells@.contains_key(k) implies self.cells@[k].wf()
                && self.cells@[k].items().len() > 0 by {
                assert(self.booked().contains_key(k));
            }
        }
        if cells_ok(self.cells@) {
            assert forall|k: CellID| #[trigger] self.booked().contains_key(k) implies {
                &&& 0 < self.booked()[k].len() <= MAX_RESERVATIONS_PER_CELL
                &&& sorted_by_start(self.booked()[k])
            } by {
                assert(self.cells@.contains_key(k));
            }
        }
    }

    pub fn new() -> (r: Self)
        ensures
            r.wf(),
            r.booked() == Map::<CellID, Seq<Reservation>>::empty(),
    {
        let r = ReservationTable { cells: HashMap::new() };
        assert(r.booked() =~= Map::<CellID, Seq<Reservation>>::empty());
        r
    }

    /// No booking of the cell stands in the way of the window.
    pub fn is_free(&self, cell: CellID, interval: &SafeInterval) -> (r: bool)
        ensures
            r == window_free(cell_list(self.booked(), cell), *interval),
    {
        match self.cells.get(&cell) {
            Some(cr) => cr.is_free(interval),
            None => true,
        }
    }

    /// Books `res` in the cell (see `CellReservations::insert`).
    pub fn insert(&mut self, cell: CellID, res: Reservation) -> (r: Result<(), &'static str>)
        requires
            old(self).wf(),
        ensures
            final(self).wf(),
            r is Ok,
            final(self).booked() == old(self).booked().insert(
                cell,
                spec_cell_insert(cell_list(old(self).booked(), cell), res),
            ),
            final(self).booked()[cell].contains(res),
    {
        proof {
            self.lemma_wf_cells();
        }
        let ghost before = self.cells@;
        let mut cr = match self.cells.remove(&cell) {
            Some(cr) => cr,
            None => CellReservations::new(),
        };
        assert(cr.items() == cell_list(lists_of(before), cell));
        let r = cr.insert(res);
        self.cells.insert(cell, cr);
        proof {
            assert(self.booked() =~= lists_of(before).insert(cell, cr.items()));
            assert(cells_ok(self.cells@));
            self.lemma_wf_cells();
        }
        r
    }

    pub fn insert_interval(
        &mut self,
        cell: CellID,
        agent_id: u8,
        interval: SafeInterval,
        trajectory_hash: u32,
    ) -> (r: Result<(), &'static str>)
        requires
            old(self).wf(),
        ensures
            final(self).wf(),
            r is Ok,
            final(self).booked() == old(self).booked().insert(
                cell,
                spec_cell_insert(
                    cell_list(old(self).booked(), cell),
                    Reservation {
                        agent_id,
                        t_start: interval.t_start,
                        t_end: interval.t_end,
                        trajectory_hash,
                    },
                ),
            ),
    {
        self.insert(cell, Reservation::new(agent_id, interval, trajectory_hash))
    }

    /// Bookings of the cell that share a tick with `[t_start, t_end)`.
    pub fn query(&self, cell: CellID, t_start: Tick, t_end: Tick) -> (r: Vec<&Reservation>)
        ensures
            derefs(r@) == cell_list(self.booked(), cell).filter(
                in_range(t_start, t_end),
            ),
    {
        match self.cells.get(&cell) {
            Some(cr) => cr.range_query(t_start, t_end),
            None => {
                let out: Vec<&Reservation> = Vec::new();
                proof {
                    reveal_with_fuel(Seq::filter, 1);
                    assert(derefs(out@) =~= Seq::<Reservation>::empty());
                }
                out
            },
        }
    }

    fn retain_cells(&mut self, rule: &KeepRule)
        requires
            old(self).wf(),
        ensures
            final(self).wf(),
            final(self).booked() == table_keeps(old(self).booked(), *rule),
    {
        proof {
            self.lemma_wf_cells();
        }
        let ks = keys_of(&self.cells);
        let ghost start = self.cells@;
        let ghost vv = lists_of(start);
        let mut out: HashMap<CellID, CellReservations> = HashMap::new();
        let mut i: usize = 0;
        while i < ks.len()
            invariant
                ks@.to_set() == start.dom(),
                ks@.no_duplicates(),
                vv == lists_of(start),
                cells_ok(start),
                i <= ks@.len(),
                forall|kk: CellID|
                    #[trigger] self.cells@.contains_key(kk) <==> (start.contains_key(kk)
                        && !ks@.take(i as int).contains(kk)),
                forall|kk: CellID| #[trigger]
                    self.cells@.contains_key(kk) ==> self.cells@[kk] == start[kk],
                cells_ok(out@),
                lists_of(out@) == Map::new(
                    |kk: CellID|
                        ks@.take(i as int).contains(kk) && vv[kk].filter(keeps(*rule)).len() > 0,
                    |kk: CellID| vv[kk].filter(keeps(*rule)),
                ),
            decreases ks@.len() - i,
        {
            let k = ks[i];
            assert(ks@.contains(k));
            assert(ks@.to_set().contains(k));
            let ghost before = lists_of(out@);
            assert(!ks@.take(i as int).contains(k)) by {
                if ks@.take(i as int).contains(k) {
                    let idx = choose|idx: int| 0 <= idx < i && #[trigger] ks@.take(i as int)[idx] == k;
                    assert(ks@[idx] == ks@[i as int]);
                }
            }
            proof {
                assert(ks@.take(i + 1) =~= ks@.take(i as int).push(k));
                assert forall|kk: CellID| ks@.take(i + 1).contains(kk) <==> (ks@.take(
                    i as int,
                ).contains(kk) || kk == k) by {
                    if ks@.take(i + 1).contains(kk) {
                        let idx = choose|idx: int| 0 <= idx < i + 1 && #[trigger] ks@.take(i + 1)[idx]
                            == kk;
                        if idx < i {
                            assert(ks@.take(i as int)[idx] == kk);
                        }
                    }
                    if kk == k {
                        assert(ks@.take(i + 1)[i as int] == kk);
                    }
                    if ks@.take(i as int).contains(kk) {
                        let idx = choose|idx: int| 0 <= idx < i && #[trigger] ks@.take(i as int)[idx]
                            == kk;
                        assert(ks@.take(i + 1)[idx] == kk);
                    }
                }
            }
            match self.cells.remove(&k) {
                Some(cr) => {
                    let mut cr = cr;
                    assert(cr.items() == vv[k]);
                    cr.retain_rule(rule);
                    if cr.count() > 0 {
                        let ghost kept = cr.items();
                        out.insert(k, cr);
                        assert(lists_of(out@) =~= before.insert(k, kept));
                    } else {
                        assert(lists_of(out@) =~= before);
                    }
                },
                None => {
                    assert(false);
                },
            }
            proof {
                assert(lists_of(out@) =~= Map::new(
                    |kk: CellID|
                        ks@.take(i + 1).contains(kk) && vv[kk].filter(keeps(*rule)).len() > 0,
                    |kk: CellID| vv[kk].filter(keeps(*rule)),
                ));
            }
            i = i + 1;
        }
        proof {
            assert(ks@.take(ks@.len() as int) =~= ks@);
            assert forall|k: CellID| ks@.contains(k) <==> vv.contains_key(k) by {
                assert(ks@.to_set().contains(k) <==> ks@.contains(k));
            }
            assert(lists_of(out@) =~= table_keeps(vv, *rule));
        }
        self.cells = out;
        proof {
            self.lemma_wf_cells();
        }
    }

    /// Drops the bookings that end at or before `current_tick`, and the cells left empty.
    pub fn gc(&mut self, current_tick: Tick)
        requires
            old(self).wf(),
        ensures
            final(self).wf(),
            final(self).booked() == table_keeps(old(self).booked(), KeepRule::EndsAfter(current_tick)),
    {
        self.retain_cells(&KeepRule::EndsAfter(current_tick));
    }

    /// All bookings of the cell, in start order.
    pub fn get_cell_reservations(&self, cell: CellID) -> (r: Vec<&Reservation>)
        ensures
            derefs(r@) == cell_list(self.booked(), cell),
    {
        match self.cells.get(&cell) {
            Some(cr) => cr.all_refs(),
            None => {
                let out: Vec<&Reservation> = Vec::new();
                assert(derefs(out@) =~= Seq::<Reservation>::empty());
                out
            },
        }
    }

    /// Drops every booking of the agent, and the cells left empty.
    pub fn remove_agent_reservations(&mut self, agent_id: u8)
        requires
            old(self).wf(),
        ensures
            final(self).wf(),
            final(self).booked() == table_keeps(old(self).booked(), KeepRule::NotOfAgent(agent_id)),
    {
        self.retain_cells(&KeepRule::NotOfAgent(agent_id));
    }

    /// Number of bookings over all cells.
    pub fn total_reservations(&self) -> (r: usize)
        requires
            total_len(self.booked()) <= usize::MAX,
        ensures
            r == total_len(self.booked()),
    {
        let ks = keys_of(&self.cells);
        let ghost vv = self.booked();
        proof {
            lemma_sum_lens_is_total(vv, ks@);
            assert(vv.dom() =~= ks@.to_set());
        }
        let mut sum: usize = 0;
        let mut i: usize = 0;
        while i < ks.len()
            invariant
                i <= ks@.len(),
                ks@.to_set() == self.cells@.dom(),
                sum_lens(vv, ks@) == total_len(vv),
                vv == self.booked(),
                total_len(self.booked()) <= usize::MAX,
                sum == sum_lens(vv, ks@.take(i as int)),
            decreases ks@.len() - i,
        {
            let k = ks[i];
            assert(ks@.to_set().contains(k)) by {
                assert(ks@.contains(k));
            }
            match self.cells.get(&k) {
                Some(cr) => {
                    proof {
                        assert(ks@.take(i + 1).drop_last() =~= ks@.take(i as int));
                        lemma_sum_lens_prefix_le(vv, ks@, i + 1);
                    }
                    sum = sum + cr.count();
                },
                None => {
                    assert(false);
                },
            }
            i = i + 1;
        }
        assert(ks@.take(ks@.len() as int) =~= ks@);
        sum
    }
}

impl ReservationLookup for ReservationTable {
    open spec fn lookup_ready(&self) -> bool {
        true
    }

    open spec fn spec_slot_free(&self, cell: CellID, interval: SafeInterval) -> bool {
        window_free(cell_list(self.booked(), cell), interval)
    }

    fn slot_is_free(&self, cell: CellID, interval: &SafeInterval) -> (r: bool) {
        self.is_free(cell, interval)
    }
}

impl Default for ReservationTable {
    fn default() -> (r: Self)
        ensures
            r.wf(),
            r.booked() == Map::<CellID, Seq<Reservation>>::empty(),
    {
        Self::new()
    }
}

/// Once a booking stands in a cell, no window that shares a tick with it (other
/// than exactly its own) is free there; in particular right after `insert`.
pub proof fn lemma_booking_blocks_overlapping(rs: Seq<Reservation>, res: Reservation, w: SafeInterval)
    requires
        rs.contains(res),
        blocks_window(res, w),
    ensures
        !window_free(rs, w),
{
    let i = choose|i: int| 0 <= i < rs.len() && rs[i] == res;
    assert(blocks_window(rs[i], w));
}

/// A clean-up keeps exactly the bookings its rule keeps: after `gc(tick)` a cell
/// holds a booking iff it held it before and the booking ends after `tick`; after
/// `remove_agent_reservations(a)` iff it held it before and it is not `a`'s.
pub proof fn lemma_cleanup_keeps_exactly(
    m: Map<CellID, Seq<Reservation>>,
    rule: KeepRule,
    cell: CellID,
    r: Reservation,
)
    ensures
        cell_list(table_keeps(m, rule), cell).contains(r) <==> (cell_list(m, cell).contains(r)
            && keeps(rule)(r)),
{
    let kept = table_keeps(m, rule);
    if m.contains_key(cell) {
        let f = m[cell].filter(keeps(rule));
        if cell_list(kept, cell).contains(r) {
            m[cell].lemma_filter_contains_rev(keeps(rule), r);
            let i = choose|i: int| 0 <= i < f.len() && f[i] == r;
            m[cell].lemma_filter_pred(keeps(rule), i);
        }
        if cell_list(m, cell).contains(r) && keeps(rule)(r) {
            let i = choose|i: int| 0 <= i < m[cell].len() && m[cell][i] == r;
            m[cell].lemma_filter_contains(keeps(rule), i);
        }
    }
}

proof fn lemma_split_point_unique(rs: Seq<Reservation>, key: Tick, pos: int)
    requires
        is_split_point(rs, key, pos),
    ensures
        split_point(rs, key) == pos,
{
    let p = split_point(rs, key);
    assert(is_split_point(rs, key, p));
    if p < pos {
        assert(rs[p].t_start <= key);
    } else if p > pos {
        assert(rs[pos].t_start <= key);
    }
}

/// The agent's bookings in every cell of the map (cells without any kept, empty).
pub open spec fn agent_lists(m: Map<CellID, Seq<Reservation>>, agent: u8) -> Map<
    CellID,
    Seq<Reservation>,
> {
    Map::new(
        |k: CellID| m.contains_key(k),
        |k: CellID| m[k].filter(|r: Reservation| r.agent_id == agent),
    )
}

/// A list splits into the bookings of the agent and the others.
proof fn lemma_split_by_agent(s: Seq<Reservation>, agent: u8)
    ensures
        s.filter(keeps(KeepRule::NotOfAgent(agent))).len() + s.filter(
            |r: Reservation| r.agent_id == agent,
        ).len() == s.len(),
    decreases s.len(),
{
    reveal(Seq::filter);
    if s.len() > 0 {
        lemma_split_by_agent(s.drop_last(), agent);
    }
}

proof fn lemma_removal_count_on(m: Map<CellID, Seq<Reservation>>, agent: u8, keys: Set<CellID>)
    requires
        keys.finite(),
        keys.subset_of(m.dom()),
    ensures
        keys.fold(0nat, add_len(m)) == keys.intersect(
            table_keeps(m, KeepRule::NotOfAgent(agent)).dom(),
        ).fold(0nat, add_len(table_keeps(m, KeepRule::NotOfAgent(agent)))) + keys.fold(
            0nat,
            add_len(agent_lists(m, agent)),
        ),
    decreases keys.len(),
{
    let tk = table_keeps(m, KeepRule::NotOfAgent(agent));
    let al = agent_lists(m, agent);
    lemma_add_len_commutative(m);
    lemma_add_len_commutative(tk);
    lemma_add_len_commutative(al);
    if keys.len() == 0 {
        assert(keys =~= Set::<CellID>::empty());
        assert(keys.intersect(tk.dom()) =~= Set::<CellID>::empty());
        vstd::set::fold::lemma_fold_empty(0nat, add_len(m));
        vstd::set::fold::lemma_fold_empty(0nat, add_len(tk));
        vstd::set::fold::lemma_fold_empty(0nat, add_len(al));
    } else {
        let x = keys.choose();
        let rest = keys.remove(x);
        lemma_removal_count_on(m, agent, rest);
        assert(keys =~= rest.insert(x));
        vstd::set::fold::lemma_fold_insert(rest, 0nat, add_len(m), x);
        vstd::set::fold::lemma_fold_insert(rest, 0nat, add_len(al), x);
        lemma_split_by_agent(m[x], agent);
        let ri = rest.intersect(tk.dom());
        if tk.dom().contains(x) {
            assert(keys.intersect(tk.dom()) =~= ri.insert(x));
            vstd::set::fold::lemma_fold_insert(ri, 0nat, add_len(tk), x);
        } else {
            assert(keys.intersect(tk.dom()) =~= ri);
        }
    }
}

/// Removing an agent's bookings takes away exactly that many: the total left
/// plus the agent's own bookings is the total before, no list keeps a booking of
/// the agent, and the other bookings stay in their cells in order.
pub proof fn lemma_removal_count(m: Map<CellID, Seq<Reservation>>, agent: u8)
    requires
        m.dom().finite(),
    ensures
        total_len(table_keeps(m, KeepRule::NotOfAgent(agent))) + total_len(agent_lists(m, agent))
            == total_len(m),
        forall|c: CellID, i: int|
            0 <= i < cell_list(table_keeps(m, KeepRule::NotOfAgent(agent)), c).len() ==> (#[trigger] cell_list(
                table_keeps(m, KeepRule::NotOfAgent(agent)),
                c,
            )[i]).agent_id != agent,
        forall|c: CellID| #[trigger]
            cell_list(table_keeps(m, KeepRule::NotOfAgent(agent)), c) == cell_list(m, c).filter(
                keeps(KeepRule::NotOfAgent(agent)),
            ),
{
    let tk = table_keeps(m, KeepRule::NotOfAgent(agent));
    lemma_removal_count_on(m, agent, m.dom());
    assert(m.dom().intersect(tk.dom()) =~= tk.dom());
    assert(agent_lists(m, agent).dom() =~= m.dom());
    assert forall|c: CellID, i: int|
        0 <= i < cell_list(tk, c).len() implies (#[trigger] cell_list(tk, c)[i]).agent_id != agent by {
        m[c].lemma_filter_pred(keeps(KeepRule::NotOfAgent(agent)), i);
    }
    assert forall|c: CellID| #[trigger] cell_list(tk, c) == cell_list(m, c).filter(
        keeps(KeepRule::NotOfAgent(agent)),
    ) by {
        if !tk.contains_key(c) {
            reveal(Seq::filter);
            if m.contains_key(c) {
                assert(m[c].filter(keeps(KeepRule::NotOfAgent(agent))).len() == 0);
                assert(m[c].filter(keeps(KeepRule::NotOfAgent(agent))) =~= Seq::<Reservation>::empty());
            } else {
                assert(Seq::<Reservation>::empty().filter(keeps(KeepRule::NotOfAgent(agent))) =~= Seq::<
                    Reservation,
                >::empty());
            }
        }
    }
}

/// A window is free in a list exactly when every booking of the list either
/// shares no tick with it (ends at or before its start, or starts at or after its
/// end) or is for exactly that window; so a booking that shares a tick and differs
/// in its start or its end always makes the window not free.
pub proof fn lemma_window_free_exact(rs: Seq<Reservation>, w: SafeInterval)
    ensures
        window_free(rs, w) <==> forall|i: int|
            0 <= i < rs.len() ==> (#[trigger] rs[i].t_end <= w.t_start || w.t_end <= rs[i].t_start || (
            rs[i].t_start == w.t_start && rs[i].t_end == w.t_end)),
        forall|r: Reservation|
            #[trigger] rs.contains(r) && r.t_start < w.t_end && w.t_start < r.t_end && (r.t_start
                != w.t_start || r.t_end != w.t_end) ==> !window_free(rs, w),
{
    assert forall|r: Reservation|
        #[trigger] rs.contains(r) && r.t_start < w.t_end && w.t_start < r.t_end && (r.t_start
            != w.t_start || r.t_end != w.t_end) implies !window_free(rs, w) by {
        let i = choose|i: int| 0 <= i < rs.len() && rs[i] == r;
        assert(!(rs[i].t_end <= w.t_start || w.t_end <= rs[i].t_start || (rs[i].t_start == w.t_start
            && rs[i].t_end == w.t_end)));
        assert(blocks_window(rs[i], w));
    }
    if window_free(rs, w) {
        assert forall|i: int| 0 <= i < rs.len() implies (#[trigger] rs[i].t_end <= w.t_start || w.t_end
            <= rs[i].t_start || (rs[i].t_start == w.t_start && rs[i].t_end == w.t_end)) by {
            assert(!blocks_window(rs[i], w));
        }
    }
    if forall|i: int|
        0 <= i < rs.len() ==> (#[trigger] rs[i].t_end <= w.t_start || w.t_end <= rs[i].t_start || (
        rs[i].t_start == w.t_start && rs[i].t_end == w.t_end)) {
        assert forall|i: int| 0 <= i < rs.len() implies !#[trigger] blocks_window(rs[i], w) by {
            assert(rs[i].t_end <= w.t_start || w.t_end <= rs[i].t_start || (rs[i].t_start == w.t_start
                && rs[i].t_end == w.t_end));
        }
    }
}

} // verus!

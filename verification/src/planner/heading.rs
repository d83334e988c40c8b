//! Heading-aware motion costs: rotation times and the successor states of the search.
use crate::planner::graph::{spec_neighbors, SpatialGraph};
use crate::space_time::{heading_code, spec_abs, CellID, Heading, SafeInterval, Tick};
use vstd::prelude::*;

verus! {

/// Ticks for a quarter turn at the maximum yaw rate (pi rad/s) with 100 ms ticks:
/// the ceiling of (pi / 2) / (pi * 0.1).
pub const T_90: u8 = 5u8;

/// Number of quarter turns on the shorter way from one heading to another.
pub open spec fn quarter_turns(from: Heading, to: Heading) -> int {
    let d = spec_abs(heading_code(to) - heading_code(from));
    if d <= 4 - d {
        d
    } else {
        4 - d
    }
}

/// Rotation time of the standard table: `T_90` ticks per quarter turn.
pub open spec fn spec_rotation_ticks(from: Heading, to: Heading) -> u8 {
    (T_90 * quarter_turns(from, to)) as u8
}

/// A robot pose in the search: where it is, where it points, and the window it may stay.
#[derive(Debug, Clone, Copy, PartialEq, Eq, Hash, Structural)]
pub struct KinematicState {
    pub cell: CellID,
    pub heading: Heading,
    pub interval: SafeInterval,
}

impl KinematicState {
    pub fn new(cell: CellID, heading: Heading, interval: SafeInterval) -> (r: Self)
        ensures
            r == (KinematicState { cell, heading, interval }),
    {
        KinematicState { cell, heading, interval }
    }
}

/// Rotation times in ticks, indexed `[from][to]` by heading code.
#[derive(Debug, Clone, Copy)]
pub struct HeadingLookup {
    pub rot_cost: [[u8; 4]; 4],
}

/// Entry of a table for a pair of headings.
pub open spec fn lookup_cost(lookup: HeadingLookup, from: Heading, to: Heading) -> u8 {
    lookup.rot_cost[heading_code(from) as int][heading_code(to) as int]
}

/// The table holds the standard rotation time for every pair of headings.
pub open spec fn is_standard_table(lookup: HeadingLookup) -> bool {
    forall|from: Heading, to: Heading|
        #[trigger] lookup_cost(lookup, from, to) == spec_rotation_ticks(from, to)
}

pub open spec fn heading_of_index(i: int) -> Heading {
    if i == 0 {
        Heading::N
    } else if i == 1 {
        Heading::E
    } else if i == 2 {
        Heading::S
    } else {
        Heading::W
    }
}

/// The table of `HeadingLookup::new`: 0, `T_90` or `2 * T_90` ticks.
pub open spec fn standard_lookup() -> HeadingLookup {
    HeadingLookup { rot_cost: [[0u8, 5, 10, 5], [5, 0, 5, 10], [10, 5, 0, 5], [5, 10, 5, 0]] }
}

impl HeadingLookup {
    pub fn new() -> (r: Self)
        ensures
            is_standard_table(r),
            r == standard_lookup(),
    {
        let mut rot_cost: [[u8; 4]; 4] = [[0u8; 4]; 4];
        let mut i: usize = 0;
        while i < 4
            invariant
                i <= 4,
                forall|a: int, b: int|
                    0 <= a < i && 0 <= b < 4 ==> #[trigger] rot_cost[a][b] == spec_rotation_ticks(
                        heading_of_index(a),
                        heading_of_index(b),
                    ),
            decreases 4 - i,
        {
            let mut row: [u8; 4] = [0u8; 4];
            let mut j: usize = 0;
            while j < 4
                invariant
                    i < 4,
                    j <= 4,
                    forall|b: int|
                        0 <= b < j ==> #[trigger] row[b] == spec_rotation_ticks(
                            heading_of_index(i as int),
                            heading_of_index(b),
                        ),
                decreases 4 - j,
            {
                let diff: u8 = if j >= i {
                    (j - i) as u8
                } else {
                    (i - j) as u8
                };
                let turns: u8 = if diff <= 4 - diff {
                    diff
                } else {
                    4 - diff
                };
                row[j] = turns * T_90;
                j = j + 1;
            }
            rot_cost[i] = row;
            i = i + 1;
        }
        let r = HeadingLookup { rot_cost };
        assert(r.rot_cost[0] =~= standard_lookup().rot_cost[0]);
        assert(r.rot_cost[1] =~= standard_lookup().rot_cost[1]);
        assert(r.rot_cost[2] =~= standard_lookup().rot_cost[2]);
        assert(r.rot_cost[3] =~= standard_lookup().rot_cost[3]);
        assert(r.rot_cost =~= standard_lookup().rot_cost);
        assert forall|from: Heading, to: Heading|
            #[trigger] lookup_cost(r, from, to) == spec_rotation_ticks(from, to) by {
            assert(heading_of_index(heading_code(from) as int) == from);
            assert(heading_of_index(heading_code(to) as int) == to);
        }
        r
    }

    pub fn rotation_ticks(&self, from: Heading, to: Heading) -> (r: u8)
        ensures
            r == lookup_cost(*self, from, to),
    {
        self.rot_cost[from.to_u8() as usize][to.to_u8() as usize]
    }
}

impl Default for HeadingLookup {
    fn default() -> (r: Self)
        ensures
            is_standard_table(r),
            r == standard_lookup(),
    {
        Self::new()
    }
}

/// Heading of a one-cell move on the 256-wide grid; north when the cells are not
/// 4-neighbours.
pub open spec fn spec_direction_to_heading(from: CellID, to: CellID) -> Heading {
    let dx = (to as int) % 256 - (from as int) % 256;
    let dy = (to as int) / 256 - (from as int) / 256;
    if dx == 0 && dy == -1 {
        Heading::N
    } else if dx == 1 && dy == 0 {
        Heading::E
    } else if dx == 0 && dy == 1 {
        Heading::S
    } else if dx == -1 && dy == 0 {
        Heading::W
    } else {
        Heading::N
    }
}

pub fn direction_to_heading(from: CellID, to: CellID) -> (h: Heading)
    ensures
        h == spec_direction_to_heading(from, to),
{
    let width: i32 = 256;
    let from_x: i32 = from as i32 % width;
    let from_y: i32 = from as i32 / width;
    let to_x: i32 = to as i32 % width;
    let to_y: i32 = to as i32 / width;
    let dx: i32 = to_x - from_x;
    let dy: i32 = to_y - from_y;
    if dx == 0 && dy == -1 {
        Heading::N
    } else if dx == 1 && dy == 0 {
        Heading::E
    } else if dx == 0 && dy == 1 {
        Heading::S
    } else if dx == -1 && dy == 0 {
        Heading::W
    } else {
        Heading::N
    }
}

/// Heading of a one-cell move in the graph's grid; north when the cells are not
/// 4-neighbours.
pub open spec fn spec_direction_in(g: &SpatialGraph, from: CellID, to: CellID) -> Heading {
    let w = g.width as int;
    let dx = (to as int) % w - (from as int) % w;
    let dy = (to as int) / w - (from as int) / w;
    if dx == 0 && dy == -1 {
        Heading::N
    } else if dx == 1 && dy == 0 {
        Heading::E
    } else if dx == 0 && dy == 1 {
        Heading::S
    } else if dx == -1 && dy == 0 {
        Heading::W
    } else {
        Heading::N
    }
}

/// Heading of a one-cell move in the graph's grid (see `direction_to_heading`,
/// which assumes the full 256-wide grid).
pub fn direction_in_graph(from: CellID, to: CellID, graph: &SpatialGraph) -> (h: Heading)
    requires
        graph.width > 0,
    ensures
        h == spec_direction_in(graph, from, to),
{
    let width: i32 = graph.width as i32;
    let from_x: i32 = from as i32 % width;
    let from_y: i32 = from as i32 / width;
    let to_x: i32 = to as i32 % width;
    let to_y: i32 = to as i32 / width;
    let dx: i32 = to_x - from_x;
    let dy: i32 = to_y - from_y;
    if dx == 0 && dy == -1 {
        Heading::N
    } else if dx == 1 && dy == 0 {
        Heading::E
    } else if dx == 0 && dy == 1 {
        Heading::S
    } else if dx == -1 && dy == 0 {
        Heading::W
    } else {
        Heading::N
    }
}

/// Moving into `next`: turn to face it, then one tick of travel. The arrival
/// must fall inside the current window; the robot may then stay in the new cell
/// until the end of that window.
pub open spec fn move_successor(
    state: KinematicState,
    lookup: HeadingLookup,
    g: &SpatialGraph,
    next: CellID,
) -> Option<KinematicState> {
    let h = spec_direction_in(g, state.cell, next);
    let t_arrive = state.interval.t_start + lookup_cost(lookup, state.heading, h) + 1;
    if t_arrive <= state.interval.t_end {
        Some(
            KinematicState {
                cell: next,
                heading: h,
                interval: SafeInterval { t_start: t_arrive as u32, t_end: state.interval.t_end },
            },
        )
    } else {
        None
    }
}

/// Move successors through the first `k` neighbours, in neighbour order.
pub open spec fn moves_upto(
    state: KinematicState,
    lookup: HeadingLookup,
    g: &SpatialGraph,
    ns: Seq<CellID>,
    k: int,
) -> Seq<KinematicState>
    decreases k,
{
    if k <= 0 {
        Seq::empty()
    } else {
        let rest = moves_upto(state, lookup, g, ns, k - 1);
        match move_successor(state, lookup, g, ns[k - 1]) {
            Some(s) => rest.push(s),
            None => rest,
        }
    }
}

/// Waiting in place for one tick, when the window allows it.
pub open spec fn wait_successor(state: KinematicState) -> Option<KinematicState> {
    if state.interval.t_start + 1 <= state.interval.t_end {
        Some(
            KinematicState {
                cell: state.cell,
                heading: state.heading,
                interval: SafeInterval {
                    t_start: (state.interval.t_start + 1) as u32,
                    t_end: state.interval.t_end,
                },
            },
        )
    } else {
        None
    }
}

/// All successors: the moves in neighbour order, then the wait.
pub open spec fn spec_successors(
    state: KinematicState,
    lookup: HeadingLookup,
    g: &SpatialGraph,
) -> Seq<KinematicState> {
    let ns = spec_neighbors(g, state.cell);
    let moves = moves_upto(state, lookup, g, ns, ns.len() as int);
    match wait_successor(state) {
        Some(w) => moves.push(w),
        None => moves,
    }
}

pub fn expand_successors(
    state: &KinematicState,
    lookup: &HeadingLookup,
    graph: &SpatialGraph,
) -> (r: Vec<KinematicState>)
    requires
        graph.width > 0,
        state.interval.t_start + 257 <= u32::MAX,
    ensures
        r@ == spec_successors(*state, *lookup, graph),
{
    let mut successors: Vec<KinematicState> = Vec::new();
    let cell = state.cell;
    let current_heading = state.heading;
    let neighbors = graph.neighbors(cell);
    let mut k: usize = 0;
    while k < neighbors.len()
        invariant
            k <= neighbors@.len(),
            neighbors@ == spec_neighbors(graph, cell),
            cell == state.cell,
            current_heading == state.heading,
            state.interval.t_start + 257 <= u32::MAX,
            successors@ == moves_upto(*state, *lookup, graph, neighbors@, k as int),
            graph.width > 0,
        decreases neighbors@.len() - k,
    {
        let next_cell = neighbors[k];
        let required_heading = direction_in_graph(cell, next_cell, graph);
        let rot_ticks = lookup.rotation_ticks(current_heading, required_heading);
        let t_depart: Tick = state.interval.t_start + rot_ticks as Tick;
        let t_arrive: Tick = t_depart + 1;
        if t_arrive <= state.interval.t_end {
            successors.push(
                KinematicState::new(
                    next_cell,
                    required_heading,
                    SafeInterval { t_start: t_arrive, t_end: state.interval.t_end },
                ),
            );
        }
        k = k + 1;
    }
    if state.interval.t_start + 1 <= state.interval.t_end {
        successors.push(
            KinematicState::new(
                cell,
                current_heading,
                SafeInterval { t_start: state.interval.t_start + 1, t_end: state.interval.t_end },
            ),
        );
    }
    successors
}

/// Cost in ticks of a step: 1 for waiting, rotation plus one tick for a move.
pub open spec fn spec_transition_cost(
    from_cell: CellID,
    to_cell: CellID,
    current_heading: Heading,
    required_heading: Heading,
    lookup: HeadingLookup,
) -> int {
    if from_cell == to_cell {
        1
    } else {
        lookup_cost(lookup, current_heading, required_heading) + 1
    }
}

pub fn transition_cost(
    from_cell: CellID,
    to_cell: CellID,
    current_heading: Heading,
    required_heading: Heading,
    lookup: &HeadingLookup,
) -> (r: u8)
    requires
        from_cell != to_cell ==> lookup_cost(*lookup, current_heading, required_heading) < 255,
    ensures
        r == spec_transition_cost(from_cell, to_cell, current_heading, required_heading, *lookup),
{
    if from_cell == to_cell {
        1
    } else {
        lookup.rotation_ticks(current_heading, required_heading) + 1
    }
}

/// Turning costs the same in both directions, nothing without a turn, and
/// twice a quarter turn for a reversal.
pub proof fn lemma_rotation_symmetric(from: Heading, to: Heading)
    ensures
        spec_rotation_ticks(from, to) == spec_rotation_ticks(to, from),
        spec_rotation_ticks(from, from) == 0,
        (spec_rotation_ticks(from, to) == 0) <==> from == to,
        spec_rotation_ticks(from, crate::space_time::spec_opposite(from)) == 2 * T_90,
        spec_rotation_ticks(from, to) <= 2 * T_90,
{
}

/// Every successor starts strictly later than the state it comes from, and is
/// either the same cell (a wait) or a neighbour of it.
pub proof fn lemma_successors_advance(
    state: KinematicState,
    lookup: HeadingLookup,
    g: &SpatialGraph,
    i: int,
)
    requires
        0 <= i < spec_successors(state, lookup, g).len(),
        state.interval.t_start + 257 <= u32::MAX,
    ensures
        spec_successors(state, lookup, g)[i].interval.t_start > state.interval.t_start,
        spec_successors(state, lookup, g)[i].cell == state.cell
            || spec_neighbors(g, state.cell).contains(spec_successors(state, lookup, g)[i].cell),
{
    let ns = spec_neighbors(g, state.cell);
    let moves = moves_upto(state, lookup, g, ns, ns.len() as int);
    if i < moves.len() {
        lemma_moves_advance(state, lookup, g, ns, ns.len() as int, i);
    }
}

/// Each successor is either a move into a neighbour, facing it, arriving after the
/// turn and one tick of travel, for one tick; or a one-tick wait in place.
pub proof fn lemma_successor_shape(
    state: KinematicState,
    lookup: HeadingLookup,
    g: &SpatialGraph,
    i: int,
)
    requires
        0 <= i < spec_successors(state, lookup, g).len(),
        state.interval.t_start + 257 <= u32::MAX,
    ensures
        ({
            let s = spec_successors(state, lookup, g)[i];
            ||| {
                &&& spec_neighbors(g, state.cell).contains(s.cell)
                &&& s.heading == spec_direction_in(g, state.cell, s.cell)
                &&& s.interval.t_start == state.interval.t_start + lookup_cost(
                    lookup,
                    state.heading,
                    s.heading,
                ) + 1
                &&& s.interval.t_start <= state.interval.t_end
                &&& s.interval.t_end == state.interval.t_end
            }
            ||| {
                &&& s.cell == state.cell
                &&& s.heading == state.heading
                &&& s.interval.t_start == state.interval.t_start + 1
                &&& s.interval.t_end == state.interval.t_end
                &&& s.interval.t_start <= s.interval.t_end
            }
        }),
{
    let ns = spec_neighbors(g, state.cell);
    let moves = moves_upto(state, lookup, g, ns, ns.len() as int);
    if i < moves.len() {
        lemma_move_shape(state, lookup, g, ns, ns.len() as int, i);
    }
}

proof fn lemma_move_shape(
    state: KinematicState,
    lookup: HeadingLookup,
    g: &SpatialGraph,
    ns: Seq<CellID>,
    k: int,
    i: int,
)
    requires
        0 <= i < moves_upto(state, lookup, g, ns, k).len(),
        k <= ns.len(),
        state.interval.t_start + 257 <= u32::MAX,
    ensures
        ({
            let s = moves_upto(state, lookup, g, ns, k)[i];
            &&& ns.contains(s.cell)
            &&& s.heading == spec_direction_in(g, state.cell, s.cell)
            &&& s.interval.t_start == state.interval.t_start + lookup_cost(
                lookup,
                state.heading,
                s.heading,
            ) + 1
            &&& s.interval.t_start <= state.interval.t_end
            &&& s.interval.t_end == state.interval.t_end
        }),
    decreases k,
{
    if k > 0 {
        let rest = moves_upto(state, lookup, g, ns, k - 1);
        if i < rest.len() {
            lemma_move_shape(state, lookup, g, ns, k - 1, i);
        } else {
            assert(ns[k - 1] == moves_upto(state, lookup, g, ns, k)[i].cell);
        }
    }
}

/// There are no more moves than neighbours.
pub proof fn lemma_moves_len(
    state: KinematicState,
    lookup: HeadingLookup,
    g: &SpatialGraph,
    ns: Seq<CellID>,
    k: int,
)
    requires
        k >= 0,
    ensures
        moves_upto(state, lookup, g, ns, k).len() <= k,
    decreases k,
{
    if k > 0 {
        lemma_moves_len(state, lookup, g, ns, k - 1);
    }
}

proof fn lemma_moves_advance(
    state: KinematicState,
    lookup: HeadingLookup,
    g: &SpatialGraph,
    ns: Seq<CellID>,
    k: int,
    i: int,
)
    requires
        0 <= i < moves_upto(state, lookup, g, ns, k).len(),
        k <= ns.len(),
        state.interval.t_start + 257 <= u32::MAX,
    ensures
        moves_upto(state, lookup, g, ns, k)[i].interval.t_start > state.interval.t_start,
        ns.contains(moves_upto(state, lookup, g, ns, k)[i].cell),
    decreases k,
{
    if k > 0 {
        let rest = moves_upto(state, lookup, g, ns, k - 1);
        if i < rest.len() {
            lemma_moves_advance(state, lookup, g, ns, k - 1, i);
        } else {
            assert(ns[k - 1] == moves_upto(state, lookup, g, ns, k)[i].cell);
        }
    }
}

} // verus!

//! D-SIPP: best-first search over (cell, heading, safe interval) states, with
//! rotation costs and a reservation table to avoid.
use crate::planner::graph::{
    cell_x, cell_y, direction_offsets, lemma_neighbor_not_self, neighbors_upto, spec_manhattan,
    spec_neighbors, SpatialGraph,
};
use crate::planner::heading::{
    expand_successors, lemma_successor_shape, lookup_cost, quarter_turns, spec_rotation_ticks,
    spec_successors, standard_lookup, transition_cost, HeadingLookup, KinematicState, T_90,
};
use crate::space_time::{heading_code, spec_abs, CellID, Heading, SafeInterval, Tick};
use std::collections::HashSet;
use vstd::prelude::*;

verus! {

broadcast use vstd::std_specs::hash::group_hash_axioms;

/// Latest tick a search state may start at.
pub const MAX_HORIZON: Tick = 200u32;

/// States taken off the open list before the search gives up.
pub const MAX_EXPANSIONS: usize = 50000usize;

/// Occupancy that the search must avoid: which windows of which cells are free.
pub trait ReservationLookup {
    /// The table is in a state where it can be asked.
    spec fn lookup_ready(&self) -> bool;

    /// The window of the cell is free.
    spec fn spec_slot_free(&self, cell: CellID, interval: SafeInterval) -> bool;

    fn slot_is_free(&self, cell: CellID, interval: &SafeInterval) -> (r: bool)
        requires
            self.lookup_ready(),
        ensures
            r == self.spec_slot_free(cell, *interval),
    ;
}

/// A planned path: the waypoints in order and the tick at which it ends.
#[derive(Debug, Clone)]
pub struct Trajectory {
    pub waypoints: Vec<Waypoint>,
    pub total_ticks: Tick,
}

/// One stop of a trajectory: the robot is in `cell`, facing `heading`, from
/// `t_arrive` until `t_depart`.
#[derive(Debug, Clone, Copy, PartialEq, Eq, Structural)]
pub struct Waypoint {
    pub cell: CellID,
    pub heading: Heading,
    pub t_arrive: Tick,
    pub t_depart: Tick,
}

impl Waypoint {
    pub fn new(cell: CellID, heading: Heading, t_arrive: Tick, t_depart: Tick) -> (r: Self)
        ensures
            r == (Waypoint { cell, heading, t_arrive, t_depart }),
    {
        Waypoint { cell, heading, t_arrive, t_depart }
    }
}

/// A step of the search: `b` is a successor of `a` (with the standard rotation
/// table) and the window `b` enters is free in the table.
pub open spec fn state_step<R: ReservationLookup>(
    a: KinematicState,
    b: KinematicState,
    g: &SpatialGraph,
    table: &R,
) -> bool {
    &&& spec_successors(a, standard_lookup(), g).contains(b)
    &&& table.spec_slot_free(b.cell, b.interval)
}

pub open spec fn step_at<R: ReservationLookup>(
    states: Seq<KinematicState>,
    i: int,
    g: &SpatialGraph,
    table: &R,
) -> bool {
    state_step(states[i], states[i + 1], g, table)
}

/// A chain of search states from `start` to the goal (facing `goal_heading` when
/// one is asked), each a free successor of the one before, none starting after
/// the horizon.
pub open spec fn valid_search_path<R: ReservationLookup>(
    states: Seq<KinematicState>,
    start: KinematicState,
    goal: CellID,
    goal_heading: Option<Heading>,
    g: &SpatialGraph,
    table: &R,
) -> bool {
    &&& states.len() >= 1
    &&& states[0] == start
    &&& states.last().cell == goal
    &&& (goal_heading matches Some(h) ==> states.last().heading == h)
    &&& forall|i: int| 0 <= i < states.len() ==> #[trigger] states[i].interval.t_start <= MAX_HORIZON
    &&& forall|i: int| 0 <= i < states.len() - 1 ==> #[trigger] step_at(states, i, g, table)
}

/// The start state already is the goal (facing the asked heading) and starts
/// within the horizon.
pub open spec fn starts_at_goal(start: KinematicState, goal: CellID, goal_heading: Option<Heading>) -> bool {
    &&& start.cell == goal
    &&& (goal_heading matches Some(h) ==> start.heading == h)
    &&& start.interval.t_start <= MAX_HORIZON
}

/// Waypoints of a chain of states: the robot arrives at the start of each state's
/// window and leaves when it arrives at the next; it stays at the last one until
/// the end of its window.
pub open spec fn waypoints_of(states: Seq<KinematicState>) -> Seq<Waypoint> {
    Seq::new(
        states.len(),
        |i: int|
            Waypoint {
                cell: states[i].cell,
                heading: states[i].heading,
                t_arrive: states[i].interval.t_start,
                t_depart: if i + 1 < states.len() {
                    states[i + 1].interval.t_start
                } else {
                    states[i].interval.t_end
                },
            },
    )
}

/// Lower bound on the ticks to the goal: Manhattan distance plus the final turn.
pub open spec fn spec_heuristic(
    state: KinematicState,
    goal: CellID,
    goal_heading: Option<Heading>,
    g: &SpatialGraph,
) -> int {
    spec_manhattan(g, state.cell, goal) + match goal_heading {
        Some(gh) => spec_rotation_ticks(state.heading, gh) as int,
        None => 0,
    }
}

/// A node of the search tree; `parent` is the index of the node it came from.
#[derive(Debug, Clone, Copy)]
struct SearchNode {
    state: KinematicState,
    g_cost: Tick,
    f_cost: Tick,
    parent: Option<usize>,
}

/// Node `i` is the start (the root) or a free successor of an earlier node that
/// was expanded; its cost is the tick at which its window starts.
spec fn node_ok<R: ReservationLookup>(
    nodes: Seq<SearchNode>,
    i: int,
    start: KinematicState,
    g: &SpatialGraph,
    table: &R,
) -> bool {
    let n = nodes[i];
    &&& n.g_cost == n.state.interval.t_start
    &&& match n.parent {
        None => n.state == start,
        Some(p) => {
            &&& 0 <= p < i
            &&& n.state.interval.t_start <= MAX_HORIZON
            &&& nodes[p as int].state.interval.t_start <= MAX_HORIZON
            &&& state_step(nodes[p as int].state, n.state, g, table)
        },
    }
}

spec fn nodes_ok<R: ReservationLookup>(
    nodes: Seq<SearchNode>,
    start: KinematicState,
    g: &SpatialGraph,
    table: &R,
) -> bool {
    forall|i: int| 0 <= i < nodes.len() ==> #[trigger] node_ok(nodes, i, start, g, table)
}

/// States from the root down to node `i`, following the parents.
spec fn path_to(nodes: Seq<SearchNode>, i: int) -> Seq<KinematicState>
    decreases i,
{
    if 0 <= i < nodes.len() {
        match nodes[i].parent {
            None => seq![nodes[i].state],
            Some(p) => if 0 <= p < i {
                path_to(nodes, p as int).push(nodes[i].state)
            } else {
                seq![nodes[i].state]
            },
        }
    } else {
        Seq::empty()
    }
}

proof fn lemma_path_valid<R: ReservationLookup>(
    nodes: Seq<SearchNode>,
    i: int,
    start: KinematicState,
    g: &SpatialGraph,
    table: &R,
)
    requires
        0 <= i < nodes.len(),
        nodes_ok(nodes, start, g, table),
        nodes[i].state.interval.t_start <= MAX_HORIZON,
    ensures
        ({
            let p = path_to(nodes, i);
            &&& p.len() >= 1
            &&& p[0] == start
            &&& p.last() == nodes[i].state
            &&& forall|k: int| 0 <= k < p.len() ==> #[trigger] p[k].interval.t_start <= MAX_HORIZON
            &&& forall|k: int| 0 <= k < p.len() - 1 ==> #[trigger] step_at(p, k, g, table)
        }),
    decreases i,
{
    assert(node_ok(nodes, i, start, g, table));
    match nodes[i].parent {
        None => {},
        Some(par) => {
            lemma_path_valid(nodes, par as int, start, g, table);
            let prev = path_to(nodes, par as int);
            let p = path_to(nodes, i);
            assert(p == prev.push(nodes[i].state));
            assert forall|k: int| 0 <= k < p.len() - 1 implies #[trigger] step_at(p, k, g, table) by {
                if k < prev.len() - 1 {
                    assert(step_at(prev, k, g, table));
                }
            }
            assert forall|k: int| 0 <= k < p.len() implies #[trigger] p[k].interval.t_start
                <= MAX_HORIZON by {
                if k < prev.len() {
                    assert(prev[k].interval.t_start <= MAX_HORIZON);
                }
            }
        },
    }
}

/// The search tree has a well-formed parent chain below node `i`.
spec fn chain_ok(nodes: Seq<SearchNode>) -> bool {
    forall|i: int|
        0 <= i < nodes.len() ==> match #[trigger] nodes[i].parent {
            None => true,
            Some(p) => 0 <= p < i,
        }
}

/// Heap order of the open list: `a` comes no earlier than `b` when `b` has a
/// smaller total cost, or the same total cost and a cost so far no larger.
spec fn spec_heap_le(nodes: Seq<SearchNode>, a: usize, b: usize) -> bool {
    let na = nodes[a as int];
    let nb = nodes[b as int];
    nb.f_cost < na.f_cost || (nb.f_cost == na.f_cost && nb.g_cost <= na.g_cost)
}

fn heap_le(nodes: &Vec<SearchNode>, a: usize, b: usize) -> (r: bool)
    requires
        a < nodes@.len(),
        b < nodes@.len(),
    ensures
        r == spec_heap_le(nodes@, a, b),
{
    let na = nodes[a];
    let nb = nodes[b];
    nb.f_cost < na.f_cost || (nb.f_cost == na.f_cost && nb.g_cost <= na.g_cost)
}

spec fn heap_in_range(heap: Seq<usize>, n: int) -> bool {
    forall|j: int| 0 <= j < heap.len() ==> #[trigger] heap[j] < n
}

/// The heap after moving the entry at `pos` up: while it does not come after
/// its parent's entry, the two trade places.
spec fn sift_up_spec(heap: Seq<usize>, nodes: Seq<SearchNode>, pos: int) -> Seq<usize>
    decreases pos,
{
    if pos <= 0 || pos >= heap.len() {
        heap
    } else {
        let parent = (pos - 1) / 2;
        if spec_heap_le(nodes, heap[pos], heap[parent]) {
            heap
        } else {
            sift_up_spec(heap.update(pos, heap[parent]).update(parent, heap[pos]), nodes, parent)
        }
    }
}

/// Moves the entry at `pos` up while it comes before its parent.
fn sift_up(heap: &mut Vec<usize>, nodes: &Vec<SearchNode>, pos: usize)
    requires
        pos < old(heap)@.len(),
        heap_in_range(old(heap)@, nodes@.len() as int),
    ensures
        final(heap)@ == sift_up_spec(old(heap)@, nodes@, pos as int),
        final(heap)@.len() == old(heap)@.len(),
        heap_in_range(final(heap)@, nodes@.len() as int),
{
    let elem = heap[pos];
    let mut hole: usize = pos;
    assert(heap@.update(pos as int, elem) =~= heap@);
    while hole > 0
        invariant
            hole < heap@.len(),
            heap@.len() == old(heap)@.len(),
            heap_in_range(heap@, nodes@.len() as int),
            elem < nodes@.len(),
            sift_up_spec(old(heap)@, nodes@, pos as int) == sift_up_spec(
                heap@.update(hole as int, elem),
                nodes@,
                hole as int,
            ),
        ensures
            hole < heap@.len(),
            heap@.len() == old(heap)@.len(),
            heap_in_range(heap@, nodes@.len() as int),
            elem < nodes@.len(),
            sift_up_spec(old(heap)@, nodes@, pos as int) == heap@.update(hole as int, elem),
        decreases hole,
    {
        let parent: usize = (hole - 1) / 2;
        let ghost c = heap@.update(hole as int, elem);
        assert(c[hole as int] == elem && c[parent as int] == heap@[parent as int]);
        if heap_le(nodes, elem, heap[parent]) {
            break;
        }
        let moved = heap[parent];
        heap.set(hole, moved);
        proof {
            assert(heap@.update(parent as int, elem) =~= c.update(hole as int, c[parent as int]).update(
                parent as int,
                c[hole as int],
            ));
        }
        hole = parent;
    }
    heap.set(hole, elem);
}

/// Heap order: every entry comes no earlier than its parent's.
spec fn heap_ok(heap: Seq<usize>, nodes: Seq<SearchNode>) -> bool {
    forall|i: int| 0 < i < heap.len() ==> spec_heap_le(nodes, #[trigger] heap[i], heap[(i - 1) / 2])
}

/// Heap order except on the edge from `pos` up to its parent; the children of
/// `pos` come no earlier than the parent of `pos`.
spec fn heap_ok_except(heap: Seq<usize>, nodes: Seq<SearchNode>, pos: int) -> bool {
    &&& forall|i: int|
        0 < i < heap.len() && i != pos ==> spec_heap_le(nodes, #[trigger] heap[i], heap[(i - 1) / 2])
    &&& pos > 0 ==> forall|j: int|
        0 < j < heap.len() && (j - 1) / 2 == pos ==> spec_heap_le(
            nodes,
            #[trigger] heap[j],
            heap[(pos - 1) / 2],
        )
}

/// Moving an entry up restores heap order when only its own edge was broken.
proof fn lemma_sift_up_heap(heap: Seq<usize>, nodes: Seq<SearchNode>, pos: int)
    requires
        0 <= pos < heap.len(),
        heap_ok_except(heap, nodes, pos),
    ensures
        heap_ok(sift_up_spec(heap, nodes, pos), nodes),
    decreases pos,
{
    if pos == 0 {
    } else {
        let p = (pos - 1) / 2;
        if spec_heap_le(nodes, heap[pos], heap[p]) {
            assert forall|i: int| 0 < i < heap.len() implies spec_heap_le(
                nodes,
                #[trigger] heap[i],
                heap[(i - 1) / 2],
            ) by {
                if i == pos {
                }
            }
        } else {
            let h2 = heap.update(pos, heap[p]).update(p, heap[pos]);
            assert forall|i: int| 0 < i < h2.len() && i != p implies spec_heap_le(
                nodes,
                #[trigger] h2[i],
                h2[(i - 1) / 2],
            ) by {
                let q = (i - 1) / 2;
                if i == pos {
                } else if q == pos {
                    assert(h2[i] == heap[i]);
                    assert(spec_heap_le(nodes, heap[i], heap[p]));
                } else if q == p {
                    assert(h2[i] == heap[i]);
                    assert(spec_heap_le(nodes, heap[i], heap[p]));
                } else {
                    assert(h2[i] == heap[i]);
                    assert(spec_heap_le(nodes, heap[i], heap[q]));
                }
            }
            if p > 0 {
                let gp = (p - 1) / 2;
                assert(spec_heap_le(nodes, heap[p], heap[gp]));
                assert forall|j: int| 0 < j < h2.len() && (j - 1) / 2 == p implies spec_heap_le(
                    nodes,
                    #[trigger] h2[j],
                    h2[(p - 1) / 2],
                ) by {
                    if j != pos {
                        assert(spec_heap_le(nodes, heap[j], heap[p]));
                    }
                }
            }
            lemma_sift_up_heap(h2, nodes, p);
        }
    }
}

/// The root of a heap comes no later than any entry.
proof fn lemma_heap_root_min(heap: Seq<usize>, nodes: Seq<SearchNode>, i: int)
    requires
        heap_ok(heap, nodes),
        0 <= i < heap.len(),
    ensures
        spec_heap_le(nodes, heap[i], heap[0]),
    decreases i,
{
    if i > 0 {
        lemma_heap_root_min(heap, nodes, (i - 1) / 2);
        assert(spec_heap_le(nodes, heap[i], heap[(i - 1) / 2]));
    }
}

/// Trading two entries leaves the same entries.
proof fn lemma_swap_multiset(s: Seq<usize>, i: int, j: int)
    requires
        0 <= i < s.len(),
        0 <= j < s.len(),
    ensures
        s.update(i, s[j]).update(j, s[i]).to_multiset() =~= s.to_multiset(),
{
    broadcast use vstd::seq_lib::to_multiset_update;
    broadcast use vstd::multiset::group_multiset_properties;

    let t = s.update(i, s[j]);
    if i == j {
        assert(t =~= s);
        assert(t.update(j, s[i]) =~= s);
    } else {
        let m = s.to_multiset();
        let m1 = m.insert(s[j]).remove(s[i]);
        assert(t.to_multiset() == m1);
        assert(t[j] == s[j]);
        assert(t.update(j, s[i]).to_multiset() == m1.insert(s[i]).remove(s[j]));
        assert(m.count(s[i]) > 0) by {
            broadcast use vstd::seq_lib::to_multiset_contains;

            assert(s.contains(s[i]));
        }
        assert forall|x: usize| #[trigger] m1.insert(s[i]).remove(s[j]).count(x) == m.count(x) by {
        }
        assert(m1.insert(s[i]).remove(s[j]) =~= m);
    }
}

/// Moving an entry up only trades entries.
proof fn lemma_sift_up_multiset(heap: Seq<usize>, nodes: Seq<SearchNode>, pos: int)
    ensures
        sift_up_spec(heap, nodes, pos).to_multiset() =~= heap.to_multiset(),
    decreases pos,
{
    if pos <= 0 || pos >= heap.len() {
    } else {
        let parent = (pos - 1) / 2;
        if !spec_heap_le(nodes, heap[pos], heap[parent]) {
            lemma_swap_multiset(heap, pos, parent);
            lemma_sift_up_multiset(
                heap.update(pos, heap[parent]).update(parent, heap[pos]),
                nodes,
                parent,
            );
        }
    }
}

fn heap_push(heap: &mut Vec<usize>, nodes: &Vec<SearchNode>, idx: usize)
    requires
        idx < nodes@.len(),
        heap_in_range(old(heap)@, nodes@.len() as int),
    ensures
        final(heap)@.len() == old(heap)@.len() + 1,
        heap_in_range(final(heap)@, nodes@.len() as int),
        final(heap)@.to_multiset() =~= old(heap)@.to_multiset().insert(idx),
        heap_ok(old(heap)@, nodes@) ==> heap_ok(final(heap)@, nodes@),
{
    broadcast use vstd::seq_lib::to_multiset_build;

    let old_len = heap.len();
    heap.push(idx);
    let ghost pushed = heap@;
    sift_up(heap, nodes, old_len);
    proof {
        lemma_sift_up_multiset(pushed, nodes@, old_len as int);
        if heap_ok(old(heap)@, nodes@) {
            assert forall|i: int| 0 < i < pushed.len() && i != old_len implies spec_heap_le(
                nodes@,
                #[trigger] pushed[i],
                pushed[(i - 1) / 2],
            ) by {
                assert(pushed[i] == old(heap)@[i]);
            }
            lemma_sift_up_heap(pushed, nodes@, old_len as int);
        }
    }
}

/// Takes the first entry off: the last entry fills the root, sinks to the bottom
/// along the preferred children, then rises back into place.
fn heap_pop(heap: &mut Vec<usize>, nodes: &Vec<SearchNode>) -> (r: usize)
    requires
        old(heap)@.len() > 0,
        old(heap)@.len() <= 1000000,
        heap_in_range(old(heap)@, nodes@.len() as int),
    ensures
        final(heap)@.len() == old(heap)@.len() - 1,
        heap_in_range(final(heap)@, nodes@.len() as int),
        r < nodes@.len(),
        r == old(heap)@[0],
        final(heap)@.to_multiset() =~= old(heap)@.to_multiset().remove(r),
        heap_ok(old(heap)@, nodes@) ==> heap_ok(final(heap)@, nodes@),
        heap_ok(old(heap)@, nodes@) ==> forall|j: int|
            0 <= j < old(heap)@.len() ==> spec_heap_le(nodes@, #[trigger] old(heap)@[j], r),
{
    broadcast use vstd::seq_lib::to_multiset_update;
    broadcast use vstd::seq_lib::to_multiset_remove;
    broadcast use vstd::seq_lib::to_multiset_contains;
    broadcast use vstd::multiset::group_multiset_properties;

    let ghost s0 = heap@;
    let ghost ok = heap_ok(s0, nodes@);
    proof {
        if ok {
            assert forall|j: int| 0 <= j < s0.len() implies spec_heap_le(nodes@, #[trigger] s0[j], s0[0]) by {
                lemma_heap_root_min(s0, nodes@, j);
            }
        }
    }
    let last = heap.pop().unwrap();
    proof {
        assert(s0.remove(s0.len() - 1) =~= heap@);
        assert(heap@.to_multiset() =~= s0.to_multiset().remove(last));
    }
    if heap.len() == 0 {
        proof {
            assert(s0.to_multiset().count(last) > 0) by {
                assert(s0.contains(last)) by {
                    assert(s0[s0.len() - 1] == last);
                }
            }
        }
        return last;
    }
    let top = heap[0];
    heap.set(0, last);
    let ghost base = heap@;
    proof {
        assert(s0.contains(last)) by {
            assert(s0[s0.len() - 1] == last);
        }
        assert(base.to_multiset() =~= s0.to_multiset().remove(top));
    }
    let end: usize = heap.len();
    let elem = heap[0];
    let mut hole: usize = 0;
    let mut child: usize = 1;
    assert(heap@.update(0, elem) =~= base);
    proof {
        if ok {
            assert forall|i: int| 0 < i < end && i != 0 && (i - 1) / 2 != 0 implies spec_heap_le(
                nodes@,
                #[trigger] heap@[i],
                heap@[(i - 1) / 2],
            ) by {
                assert(heap@[i] == s0[i]);
                assert(heap@[(i - 1) / 2] == s0[(i - 1) / 2]);
            }
        }
    }
    while end >= 2 && child <= end - 2
        invariant
            heap@.len() == end,
            end >= 1,
            hole < end,
            end <= 1000000,
            child == 2 * hole + 1,
            heap_in_range(heap@, nodes@.len() as int),
            elem < nodes@.len(),
            heap@.update(hole as int, elem).to_multiset() =~= base.to_multiset(),
            ok ==> forall|i: int|
                0 < i < end && i != hole && (i - 1) / 2 != hole ==> spec_heap_le(
                    nodes@,
                    #[trigger] heap@[i],
                    heap@[(i - 1) / 2],
                ),
            ok && hole > 0 ==> forall|j: int|
                0 < j < end && (j - 1) / 2 == hole ==> spec_heap_le(
                    nodes@,
                    #[trigger] heap@[j],
                    heap@[(hole - 1) / 2],
                ),
        decreases end - hole,
    {
        if heap_le(nodes, heap[child], heap[child + 1]) {
            child = child + 1;
        }
        let ghost before = heap@;
        let ghost old_hole = hole;
        let ghost c = heap@.update(hole as int, elem);
        let moved = heap[child];
        heap.set(hole, moved);
        proof {
            assert(heap@.update(child as int, elem) =~= c.update(hole as int, c[child as int]).update(
                child as int,
                c[hole as int],
            ));
            lemma_swap_multiset(c, hole as int, child as int);
            if ok {
                let sib: int = if child as int == 2 * old_hole + 1 {
                    2 * old_hole + 2
                } else {
                    2 * old_hole + 1
                };
                assert(spec_heap_le(nodes@, before[sib], before[child as int]));
                assert forall|i: int|
                    0 < i < end && i != child && (i - 1) / 2 != child implies spec_heap_le(
                    nodes@,
                    #[trigger] heap@[i],
                    heap@[(i - 1) / 2],
                ) by {
                    let q = (i - 1) / 2;
                    if i == old_hole {
                        assert(spec_heap_le(nodes@, before[child as int], before[(old_hole - 1) / 2]));
                    } else if q == old_hole {
                        assert(i == sib);
                    } else {
                        assert(heap@[i] == before[i]);
                        assert(heap@[q] == before[q]);
                    }
                }
                assert forall|j: int| 0 < j < end && (j - 1) / 2 == child implies spec_heap_le(
                    nodes@,
                    #[trigger] heap@[j],
                    heap@[(child - 1) / 2],
                ) by {
                    assert(heap@[j] == before[j]);
                    assert(spec_heap_le(nodes@, before[j], before[child as int]));
                }
            }
        }
        hole = child;
        child = 2 * hole + 1;
    }
    if child == end - 1 {
        let ghost before = heap@;
        let ghost old_hole = hole;
        let ghost c = heap@.update(hole as int, elem);
        let moved = heap[child];
        heap.set(hole, moved);
        proof {
            assert(heap@.update(child as int, elem) =~= c.update(hole as int, c[child as int]).update(
                child as int,
                c[hole as int],
            ));
            lemma_swap_multiset(c, hole as int, child as int);
            if ok {
                assert forall|i: int|
                    0 < i < end && i != child && (i - 1) / 2 != child implies spec_heap_le(
                    nodes@,
                    #[trigger] heap@[i],
                    heap@[(i - 1) / 2],
                ) by {
                    let q = (i - 1) / 2;
                    if i == old_hole {
                        assert(spec_heap_le(nodes@, before[child as int], before[(old_hole - 1) / 2]));
                    } else {
                        assert(heap@[i] == before[i]);
                        assert(heap@[q] == before[q]);
                    }
                }
            }
        }
        hole = child;
    }
    assert(2 * hole + 1 >= end);
    heap.set(hole, elem);
    let ghost placed = heap@;
    proof {
        if ok {
            assert forall|i: int| 0 < i < placed.len() && i != hole implies spec_heap_le(
                nodes@,
                #[trigger] placed[i],
                placed[(i - 1) / 2],
            ) by {
                assert((i - 1) / 2 != hole);
            }
        }
    }
    sift_up(heap, nodes, hole);
    proof {
        lemma_sift_up_multiset(placed, nodes@, hole as int);
        if ok {
            lemma_sift_up_heap(placed, nodes@, hole as int);
        }
    }
    top
}

/// Key of a visited state: cell, heading code and window start packed into one
/// integer (start in the low 32 bits, heading code in the next 2, cell above).
spec fn spec_state_key(state: KinematicState) -> int {
    state.cell as int * 17179869184 + heading_code(state.heading) as int * 4294967296
        + state.interval.t_start as int
}

/// Key of a visited state (cell, heading, window start) as one integer.
fn state_key(state: &KinematicState) -> (k: u64)
    ensures
        k == spec_state_key(*state),
{
    let cell: u64 = state.cell as u64;
    let code: u64 = state.heading.to_u8() as u64;
    cell * 17179869184u64 + code * 4294967296u64 + state.interval.t_start as u64
}

/// Manhattan distance to the goal, plus the turn to the goal heading if one is asked.
fn heuristic(
    state: &KinematicState,
    goal: CellID,
    goal_heading: Option<Heading>,
    graph: &SpatialGraph,
) -> (h: Tick)
    requires
        graph.width > 0,
    ensures
        h == spec_heuristic(*state, goal, goal_heading, graph),
        h <= 65545,
{
    let d: Tick = graph.manhattan_distance(state.cell, goal) as Tick;
    let mut h: Tick = d;
    match goal_heading {
        Some(gh) => {
            let lookup = HeadingLookup::new();
            let rot: Tick = lookup.rotation_ticks(state.heading, gh) as Tick;
            h = h + rot;
        },
        None => {},
    }
    h
}

/// Waypoints along the parent chain from the root to node `idx`.
fn reconstruct_path(nodes: &Vec<SearchNode>, idx: usize) -> (t: Trajectory)
    requires
        idx < nodes@.len(),
        chain_ok(nodes@),
    ensures
        t.waypoints@ == waypoints_of(path_to(nodes@, idx as int)),
        t.total_ticks == path_to(nodes@, idx as int).last().interval.t_end,
{
    let mut back: Vec<KinematicState> = Vec::new();
    let mut cur: usize = idx;
    loop
        invariant_except_break
            path_to(nodes@, idx as int) == path_to(nodes@, cur as int) + back@.reverse(),
        invariant
            cur < nodes@.len(),
            chain_ok(nodes@),
        ensures
            path_to(nodes@, idx as int) == back@.reverse(),
        decreases cur,
    {
        let n = nodes[cur];
        assert(match nodes@[cur as int].parent {
            None => true,
            Some(p) => 0 <= p < cur,
        });
        let ghost prev_back = back@;
        back.push(n.state);
        proof {
            assert(back@.reverse() =~= seq![n.state] + prev_back.reverse());
        }
        match n.parent {
            None => {
                assert(path_to(nodes@, cur as int) == seq![n.state]);
                assert(path_to(nodes@, idx as int) =~= back@.reverse());
                break;
            },
            Some(p) => {
                assert(path_to(nodes@, cur as int) == path_to(nodes@, p as int).push(n.state));
                assert(path_to(nodes@, idx as int) =~= path_to(nodes@, p as int) + back@.reverse());
                cur = p;
            },
        }
    }
    let ghost states = back@.reverse();
    let n: usize = back.len();
    assert(n >= 1) by {
        assert(states.len() == back@.len());
        assert(path_to(nodes@, idx as int).len() >= 1) by {
            lemma_path_nonempty(nodes@, idx as int);
        }
    }
    let mut waypoints: Vec<Waypoint> = Vec::new();
    let mut k: usize = 0;
    while k < n
        invariant
            n == back@.len(),
            n >= 1,
            states == back@.reverse(),
            k <= n,
            waypoints@ == waypoints_of(states).take(k as int),
        decreases n - k,
    {
        let s = back[n - 1 - k];
        assert(s == states[k as int]);
        let t_depart: Tick = if k + 1 < n {
            let next = back[n - 2 - k];
            assert(next == states[k + 1]);
            next.interval.t_start
        } else {
            s.interval.t_end
        };
        waypoints.push(Waypoint::new(s.cell, s.heading, s.interval.t_start, t_depart));
        proof {
            assert(waypoints@ =~= waypoints_of(states).take(k + 1));
        }
        k = k + 1;
    }
    assert(waypoints_of(states).take(n as int) =~= waypoints_of(states));
    let total_ticks: Tick = back[0].interval.t_end;
    assert(back@[0] == states.last());
    Trajectory { waypoints, total_ticks }
}

proof fn lemma_successors_at_most_nine(state: KinematicState, lookup: HeadingLookup, g: &SpatialGraph)
    ensures
        spec_successors(state, lookup, g).len() <= 9,
{
    let ns = spec_neighbors(g, state.cell);
    crate::planner::graph::lemma_neighbors_len(g, state.cell, direction_offsets(g.connectivity).len() as int);
    crate::planner::heading::lemma_moves_len(state, lookup, g, ns, ns.len() as int);
}

proof fn lemma_path_nonempty(nodes: Seq<SearchNode>, i: int)
    requires
        0 <= i < nodes.len(),
    ensures
        path_to(nodes, i).len() >= 1,
    decreases i,
{
    match nodes[i].parent {
        None => {},
        Some(p) => {
            if 0 <= p < i {
                lemma_path_nonempty(nodes, p as int);
            }
        },
    }
}

/// The state is the goal cell, facing the asked heading when one is asked.
pub open spec fn at_goal(s: KinematicState, goal: CellID, goal_heading: Option<Heading>) -> bool {
    &&& s.cell == goal
    &&& (goal_heading matches Some(h) ==> s.heading == h)
}

/// The search fits its expansion budget: the start lies in the grid, and nine
/// pushes for each (cell, heading, window start) triple within the horizon stay
/// within the expansions allowed.
pub open spec fn fits_budget(start: KinematicState, g: &SpatialGraph) -> bool {
    &&& (start.cell as int) < g.width * g.height
    &&& 1 + 9 * (4 * (MAX_HORIZON + 1)) * (g.width * g.height) <= MAX_EXPANSIONS
}

/// Position of a state among all (cell, heading, window start) triples whose
/// window starts within the horizon.
pub open spec fn state_slot(s: KinematicState) -> int {
    s.cell as int * 804 + heading_code(s.heading) as int * 201 + s.interval.t_start as int
}

/// Every free successor of `s` that starts within the horizon has a node.
spec fn expanded_ok<R: ReservationLookup>(
    s: KinematicState,
    index_of: Map<KinematicState, int>,
    g: &SpatialGraph,
    table: &R,
) -> bool {
    forall|s2: KinematicState|
        #[trigger] spec_successors(s, standard_lookup(), g).contains(s2) && table.spec_slot_free(
            s2.cell,
            s2.interval,
        ) && s2.interval.t_start <= MAX_HORIZON ==> index_of.dom().contains(s2)
}

/// A node taken off the open list and not returned: it started after the
/// horizon, or it is not the goal and its state was expanded.
spec fn settled(n: SearchNode, closed: Set<u64>, goal: CellID, goal_heading: Option<Heading>) -> bool {
    ||| n.g_cost > MAX_HORIZON
    ||| closed.contains(spec_state_key(n.state) as u64) && !at_goal(n.state, goal, goal_heading)
}

/// Equal keys come from equal cells, headings and window starts.
proof fn lemma_key_injective(a: KinematicState, b: KinematicState)
    requires
        spec_state_key(a) as u64 == spec_state_key(b) as u64,
    ensures
        a.cell == b.cell,
        a.heading == b.heading,
        a.interval.t_start == b.interval.t_start,
{
    let qa = a.cell as int * 4 + heading_code(a.heading) as int;
    let qb = b.cell as int * 4 + heading_code(b.heading) as int;
    assert(spec_state_key(a) == qa * 4294967296 + a.interval.t_start as int);
    assert(spec_state_key(b) == qb * 4294967296 + b.interval.t_start as int);
    assert(0 <= spec_state_key(a) < 18446744073709551616);
    assert(0 <= spec_state_key(b) < 18446744073709551616);
    vstd::arithmetic::div_mod::lemma_fundamental_div_mod_converse(
        spec_state_key(a),
        4294967296,
        qa,
        a.interval.t_start as int,
    );
    vstd::arithmetic::div_mod::lemma_fundamental_div_mod_converse(
        spec_state_key(b),
        4294967296,
        qb,
        b.interval.t_start as int,
    );
    vstd::arithmetic::div_mod::lemma_fundamental_div_mod_converse(
        qa,
        4,
        a.cell as int,
        heading_code(a.heading) as int,
    );
    vstd::arithmetic::div_mod::lemma_fundamental_div_mod_converse(
        qb,
        4,
        b.cell as int,
        heading_code(b.heading) as int,
    );
}

/// Equal slots of states within the horizon come from equal cells, headings and
/// window starts.
proof fn lemma_slot_injective(a: KinematicState, b: KinematicState)
    requires
        state_slot(a) == state_slot(b),
        a.interval.t_start <= MAX_HORIZON,
        b.interval.t_start <= MAX_HORIZON,
    ensures
        a.cell == b.cell,
        a.heading == b.heading,
        a.interval.t_start == b.interval.t_start,
{
    let qa = a.cell as int * 4 + heading_code(a.heading) as int;
    let qb = b.cell as int * 4 + heading_code(b.heading) as int;
    assert(state_slot(a) == qa * 201 + a.interval.t_start as int);
    assert(state_slot(b) == qb * 201 + b.interval.t_start as int);
    vstd::arithmetic::div_mod::lemma_fundamental_div_mod_converse(
        state_slot(a),
        201,
        qa,
        a.interval.t_start as int,
    );
    vstd::arithmetic::div_mod::lemma_fundamental_div_mod_converse(
        state_slot(b),
        201,
        qb,
        b.interval.t_start as int,
    );
    vstd::arithmetic::div_mod::lemma_fundamental_div_mod_converse(
        qa,
        4,
        a.cell as int,
        heading_code(a.heading) as int,
    );
    vstd::arithmetic::div_mod::lemma_fundamental_div_mod_converse(
        qb,
        4,
        b.cell as int,
        heading_code(b.heading) as int,
    );
}

/// A state in a grid of `cells` cells, starting within the horizon, has a slot
/// below `804 * cells`.
proof fn lemma_slot_range(s: KinematicState, cells: int)
    requires
        (s.cell as int) < cells,
        s.interval.t_start <= MAX_HORIZON,
    ensures
        0 <= state_slot(s) < 804 * cells,
{
    assert(0 <= state_slot(s) < 804 * cells) by (nonlinear_arith)
        requires
            (s.cell as int) < cells,
            0 <= s.interval.t_start <= 200,
            0 <= heading_code(s.heading) <= 3,
            state_slot(s) == s.cell as int * 804 + heading_code(s.heading) as int * 201
                + s.interval.t_start as int,
    ;
}

/// A successor keeps the end of the window and stays in the grid.
proof fn lemma_successor_keeps(state: KinematicState, g: &SpatialGraph, s2: KinematicState)
    requires
        g.width > 0,
        spec_successors(state, standard_lookup(), g).contains(s2),
        state.interval.t_start + 257 <= u32::MAX,
    ensures
        s2.interval.t_end == state.interval.t_end,
        (state.cell as int) < g.width * g.height ==> (s2.cell as int) < g.width * g.height,
{
    let succ = spec_successors(state, standard_lookup(), g);
    let i = choose|i: int| 0 <= i < succ.len() && succ[i] == s2;
    lemma_successor_shape(state, standard_lookup(), g, i);
    if s2.cell != state.cell {
        let ns = spec_neighbors(g, state.cell);
        let j = choose|j: int| 0 <= j < ns.len() && ns[j] == s2.cell;
        crate::planner::graph::lemma_neighbors_traversable(
            g,
            state.cell,
            direction_offsets(g.connectivity).len() as int,
            j,
        );
        let c = s2.cell as int;
        let w = g.width as int;
        let h = g.height as int;
        assert(c < w * h) by (nonlinear_arith)
            requires
                w > 0,
                c >= 0,
                c / w < h,
        {
            vstd::arithmetic::div_mod::lemma_fundamental_div_mod(c, w);
        }
    }
}

/// Heading of the code used in slots: N = 0, E = 1, S = 2, W = 3.
pub open spec fn heading_from_slot(c: int) -> Heading {
    if c == 0 {
        Heading::N
    } else if c == 1 {
        Heading::E
    } else if c == 2 {
        Heading::S
    } else {
        Heading::W
    }
}

/// The (cell, heading, window start) triple at slot `x`, as a state.
pub open spec fn slot_state(x: int) -> KinematicState {
    KinematicState {
        cell: (x / 804) as u16,
        heading: heading_from_slot((x % 804) / 201),
        interval: SafeInterval { t_start: (x % 201) as u32, t_end: 0 },
    }
}

/// Slots of the grid's (cell, heading, window start) triples, the start within
/// the horizon, whose window start plus heuristic is at most `bound`: the states
/// a best-first search can take off its open list before it reaches a goal at
/// tick `bound`.
pub open spec fn cheap_slots(
    g: &SpatialGraph,
    goal: CellID,
    goal_heading: Option<Heading>,
    bound: int,
) -> Set<int> {
    Set::new(
        |x: int|
            0 <= x < 804 * (g.width * g.height) && slot_state(x).interval.t_start + spec_heuristic(
                slot_state(x),
                goal,
                goal_heading,
                g,
            ) <= bound,
    )
}

/// A state within the horizon is found again at its slot.
proof fn lemma_slot_decode(s: KinematicState)
    requires
        s.interval.t_start <= MAX_HORIZON,
    ensures
        slot_state(state_slot(s)).cell == s.cell,
        slot_state(state_slot(s)).heading == s.heading,
        slot_state(state_slot(s)).interval.t_start == s.interval.t_start,
{
    let x = state_slot(s);
    let code = heading_code(s.heading) as int;
    let t = s.interval.t_start as int;
    let q = s.cell as int * 4 + code;
    assert(x == q * 201 + t);
    vstd::arithmetic::div_mod::lemma_fundamental_div_mod_converse(x, 201, q, t);
    vstd::arithmetic::div_mod::lemma_fundamental_div_mod_converse(x, 804, s.cell as int, code * 201 + t);
    vstd::arithmetic::div_mod::lemma_fundamental_div_mod_converse(code * 201 + t, 201, code, t);
}

/// Every state of a search path ends its window where the start does.
proof fn lemma_path_ends<R: ReservationLookup>(
    states: Seq<KinematicState>,
    start: KinematicState,
    goal: CellID,
    goal_heading: Option<Heading>,
    g: &SpatialGraph,
    table: &R,
    i: int,
)
    requires
        g.width > 0,
        valid_search_path(states, start, goal, goal_heading, g, table),
        0 <= i < states.len(),
    ensures
        states[i].interval.t_end == start.interval.t_end,
    decreases i,
{
    if i > 0 {
        lemma_path_ends(states, start, goal, goal_heading, g, table, i - 1);
        assert(step_at(states, i - 1, g, table));
        assert(states[i - 1].interval.t_start <= MAX_HORIZON);
        lemma_successor_keeps(states[i - 1], g, states[i]);
    }
}

/// Along a search path on a 4-connected grid, the window start of any state plus
/// its heuristic is at most the tick at which the path reaches the goal.
proof fn lemma_path_f_bound<R: ReservationLookup>(
    states: Seq<KinematicState>,
    start: KinematicState,
    goal: CellID,
    goal_heading: Option<Heading>,
    g: &SpatialGraph,
    table: &R,
    j: int,
)
    requires
        g.width > 0,
        g.width * g.height <= 65536,
        g.connectivity != 8,
        valid_search_path(states, start, goal, goal_heading, g, table),
        0 <= j < states.len(),
    ensures
        states[j].interval.t_start + spec_heuristic(states[j], goal, goal_heading, g)
            <= states.last().interval.t_start,
{
    lemma_suffix_cost(states, start, goal, goal_heading, g, table, j);
    lemma_manhattan_exact(g, states[j].cell, goal);
    match goal_heading {
        Some(gh) => {
            assert(spec_rotation_ticks(states[j].heading, gh) == T_90 * quarter_turns(
                states[j].heading,
                gh,
            ));
        },
        None => {},
    }
}

/// The heuristic of a goal state is zero.
proof fn lemma_goal_heuristic(s: KinematicState, goal: CellID, goal_heading: Option<Heading>, g: &SpatialGraph)
    requires
        g.width > 0,
        g.width * g.height <= 65536,
        at_goal(s, goal, goal_heading),
    ensures
        spec_heuristic(s, goal, goal_heading, g) == 0,
{
    lemma_manhattan_exact(g, s.cell, goal);
    crate::planner::heading::lemma_rotation_symmetric(s.heading, s.heading);
}

/// While the search runs, a node on any search path that has not been expanded
/// sits in the open list: the first state of the path whose key is not closed.
proof fn lemma_frontier<R: ReservationLookup>(
    nodes: Seq<SearchNode>,
    heap: Seq<usize>,
    start: KinematicState,
    goal: CellID,
    goal_heading: Option<Heading>,
    g: &SpatialGraph,
    table: &R,
    index_of: Map<KinematicState, int>,
    popped: Set<usize>,
    closed: Set<u64>,
    states: Seq<KinematicState>,
    i: int,
) -> (r: (usize, int))
    requires
        g.width > 0,
        nodes_ok(nodes, start, g, table),
        nodes.len() <= usize::MAX,
        nodes.len() >= 1,
        nodes[0].state == start,
        forall|s: KinematicState| #[trigger]
            index_of.dom().contains(s) ==> 0 <= index_of[s] < nodes.len() && nodes[index_of[s]].state
                == s,
        forall|k: int| 0 <= k < nodes.len() ==> index_of.dom().contains((#[trigger] nodes[k]).state),
        forall|k: usize|
            #![trigger popped.contains(k)]
            #![trigger heap.to_multiset().count(k)]
            (k as int) < nodes.len() ==> heap.to_multiset().count(k) > 0 || popped.contains(k),
        forall|k: usize| #[trigger]
            popped.contains(k) ==> (k as int) < nodes.len() && settled(
                nodes[k as int],
                closed,
                goal,
                goal_heading,
            ),
        forall|s: KinematicState| #[trigger]
            closed.contains(spec_state_key(s) as u64) && s.interval.t_end == start.interval.t_end
                ==> expanded_ok(s, index_of, g, table),
        forall|s: KinematicState| #[trigger]
            closed.contains(spec_state_key(s) as u64) ==> !at_goal(s, goal, goal_heading),
        valid_search_path(states, start, goal, goal_heading, g, table),
        0 <= i < states.len(),
        forall|j: int| 0 <= j < i ==> closed.contains(spec_state_key(#[trigger] states[j]) as u64),
    ensures
        (r.0 as int) < nodes.len(),
        heap.to_multiset().count(r.0) > 0,
        i <= r.1 < states.len(),
        nodes[r.0 as int].state == states[r.1],
    decreases states.len() - i,
{
    let s = states[i];
    if i == 0 {
        assert(index_of.dom().contains(nodes[0].state));
    } else {
        let prev = states[i - 1];
        assert(closed.contains(spec_state_key(prev) as u64));
        lemma_path_ends(states, start, goal, goal_heading, g, table, i - 1);
        assert(expanded_ok(prev, index_of, g, table));
        assert(step_at(states, i - 1, g, table));
        assert(spec_successors(prev, standard_lookup(), g).contains(s));
        assert(s.interval.t_start <= MAX_HORIZON);
    }
    assert(index_of.dom().contains(s));
    let j = index_of[s];
    assert(node_ok(nodes, j, start, g, table));
    assert(s.interval.t_start <= MAX_HORIZON);
    if !closed.contains(spec_state_key(s) as u64) {
        assert(!popped.contains(j as usize)) by {
            if popped.contains(j as usize) {
                assert(settled(nodes[j], closed, goal, goal_heading));
            }
        }
        assert(heap.to_multiset().count(j as usize) > 0);
        (j as usize, i)
    } else if i == states.len() - 1 {
        assert(!at_goal(s, goal, goal_heading));
        assert(false);
        (0usize, i)
    } else {
        lemma_frontier(
            nodes,
            heap,
            start,
            goal,
            goal_heading,
            g,
            table,
            index_of,
            popped,
            closed,
            states,
            i + 1,
        )
    }
}

/// When every node has been taken off the open list, no chain of free states
/// leads from the start to the goal.
proof fn lemma_exhausted_no_path<R: ReservationLookup>(
    nodes: Seq<SearchNode>,
    start: KinematicState,
    goal: CellID,
    goal_heading: Option<Heading>,
    g: &SpatialGraph,
    table: &R,
    index_of: Map<KinematicState, int>,
    popped: Set<usize>,
    closed: Set<u64>,
    states: Seq<KinematicState>,
    i: int,
)
    requires
        g.width > 0,
        nodes_ok(nodes, start, g, table),
        nodes.len() <= usize::MAX,
        forall|s: KinematicState| #[trigger]
            index_of.dom().contains(s) ==> 0 <= index_of[s] < nodes.len() && nodes[index_of[s]].state
                == s,
        index_of.dom().contains(start),
        forall|k: usize| (k as int) < nodes.len() ==> #[trigger] popped.contains(k),
        forall|k: usize| #[trigger]
            popped.contains(k) ==> (k as int) < nodes.len() && settled(
                nodes[k as int],
                closed,
                goal,
                goal_heading,
            ),
        forall|s: KinematicState| #[trigger]
            closed.contains(spec_state_key(s) as u64) && s.interval.t_end == start.interval.t_end
                ==> expanded_ok(s, index_of, g, table),
        valid_search_path(states, start, goal, goal_heading, g, table),
        0 <= i < states.len(),
        start.interval.t_start <= MAX_HORIZON,
    ensures
        index_of.dom().contains(states[i]),
        states[i].interval.t_end == start.interval.t_end,
        i == states.len() - 1 ==> false,
    decreases i,
{
    if i > 0 {
        lemma_exhausted_no_path(
            nodes,
            start,
            goal,
            goal_heading,
            g,
            table,
            index_of,
            popped,
            closed,
            states,
            i - 1,
        );
        let prev = states[i - 1];
        let j = index_of[prev];
        assert(popped.contains(j as usize));
        assert(node_ok(nodes, j, start, g, table));
        assert(prev.interval.t_start <= MAX_HORIZON);
        assert(step_at(states, i - 1, g, table));
        assert(closed.contains(spec_state_key(prev) as u64));
        assert(expanded_ok(prev, index_of, g, table));
        assert(spec_successors(prev, standard_lookup(), g).contains(states[i]));
        assert(states[i].interval.t_start <= MAX_HORIZON);
        lemma_successor_keeps(prev, g, states[i]);
    }
    if i == states.len() - 1 {
        let j = index_of[states[i]];
        assert(popped.contains(j as usize));
        assert(node_ok(nodes, j, start, g, table));
        assert(states[i].interval.t_start <= MAX_HORIZON);
        assert(at_goal(states[i], goal, goal_heading));
    }
}

/// Plans a path from `start` to `goal`, facing `goal_heading` at the end when one
/// is given, through windows that are free in `reservation_table`.
///
/// Best-first on total cost (cost so far, that is the tick reached, plus the
/// heuristic), ties to the lower cost so far. States that start after the
/// horizon are dropped; after 50 000 expansions the search gives up.
///
/// On a 4-connected grid the heuristic is admissible, so a returned path reaches
/// the goal no later than any other search path, and a path is found whenever
/// one exists and nine pushes for each state with total cost up to its arrival
/// fit in the expansion budget.
pub fn d_sipp<R: ReservationLookup>(
    start: KinematicState,
    goal: CellID,
    goal_heading: Option<Heading>,
    graph: &SpatialGraph,
    reservation_table: &R,
) -> (r: Option<Trajectory>)
    requires
        graph.width > 0,
        graph.width * graph.height <= 65536,
        reservation_table.lookup_ready(),
    ensures
        r matches Some(traj) ==> exists|states: Seq<KinematicState>|
            {
                &&& #[trigger] valid_search_path(
                    states,
                    start,
                    goal,
                    goal_heading,
                    graph,
                    reservation_table,
                )
                &&& traj.waypoints@ == waypoints_of(states)
                &&& traj.total_ticks == states.last().interval.t_end
            },
        fits_budget(start, graph) && (exists|states: Seq<KinematicState>|
            #[trigger] valid_search_path(states, start, goal, goal_heading, graph, reservation_table))
            ==> r is Some,
        r matches Some(traj) ==> (graph.connectivity != 8 ==> forall|states: Seq<KinematicState>|
            #[trigger] valid_search_path(states, start, goal, goal_heading, graph, reservation_table)
                ==> traj.waypoints@.last().t_arrive <= states.last().interval.t_start),
        (start.cell as int) < graph.width * graph.height && graph.connectivity != 8 && (exists|
            states: Seq<KinematicState>,
        |
            #[trigger] valid_search_path(states, start, goal, goal_heading, graph, reservation_table)
                && 1 + 9 * cheap_slots(graph, goal, goal_heading, states.last().interval.t_start as int).len()
                <= MAX_EXPANSIONS) ==> r is Some,
        start.interval.t_start > MAX_HORIZON ==> r is None,
        starts_at_goal(start, goal, goal_heading) ==> (r matches Some(traj)
            && traj.waypoints@ == waypoints_of(seq![start]) && traj.total_ticks
            == start.interval.t_end),
{
    broadcast use vstd::seq_lib::to_multiset_contains;
    broadcast use vstd::multiset::group_multiset_properties;

    if start.interval.t_start > MAX_HORIZON {
        return None;
    }
    let lookup = HeadingLookup::new();
    let mut nodes: Vec<SearchNode> = Vec::new();
    let mut heap: Vec<usize> = Vec::new();
    let mut closed: HashSet<u64> = HashSet::new();
    let mut expansions: usize = 0;
    let h = heuristic(&start, goal, goal_heading, graph);
    nodes.push(
        SearchNode {
            state: start,
            g_cost: start.interval.t_start,
            f_cost: start.interval.t_start + h,
            parent: None,
        },
    );
    heap_push(&mut heap, &nodes, 0);
    let ghost mut index_of: Map<KinematicState, int> = map![start => 0int];
    let ghost mut popped: Set<usize> = Set::empty();
    let ghost mut slots: Set<int> = Set::empty();
    let ghost cells: int = graph.width * graph.height;
    proof {
        assert(heap@.to_multiset().count(0usize) > 0) by {
            assert(heap@.len() == 1);
            assert(heap@.contains(heap@[0]));
        }
    }
    while heap.len() > 0
        invariant
            graph.width > 0,
            graph.width * graph.height <= 65536,
            cells == graph.width * graph.height,
            reservation_table.lookup_ready(),
            lookup == standard_lookup(),
            nodes@.len() >= 1,
            nodes@[0].state == start,
            nodes_ok(nodes@, start, graph, reservation_table),
            chain_ok(nodes@),
            heap_in_range(heap@, nodes@.len() as int),
            expansions <= MAX_EXPANSIONS,
            heap@.len() <= nodes@.len(),
            nodes@.len() <= 1 + 9 * expansions,
            expansions + heap@.len() == nodes@.len(),
            start.interval.t_start <= MAX_HORIZON,
            heap_ok(heap@, nodes@),
            forall|i: int|
                0 <= i < nodes@.len() ==> (#[trigger] nodes@[i]).f_cost == nodes@[i].g_cost
                    + spec_heuristic(nodes@[i].state, goal, goal_heading, graph),
            forall|s: KinematicState| #[trigger]
                closed@.contains(spec_state_key(s) as u64) ==> !at_goal(s, goal, goal_heading),
            (start.cell as int) < cells && graph.connectivity != 8 ==> forall|states: Seq<KinematicState>|
                #[trigger] valid_search_path(states, start, goal, goal_heading, graph, reservation_table)
                    ==> slots.subset_of(
                    cheap_slots(graph, goal, goal_heading, states.last().interval.t_start as int),
                ),
            starts_at_goal(start, goal, goal_heading) ==> expansions == 0 && nodes@.len() == 1
                && heap@.len() == 1,
            forall|i: int|
                0 <= i < nodes@.len() ==> (#[trigger] nodes@[i]).state.interval.t_end
                    == start.interval.t_end,
            (start.cell as int) < cells ==> forall|i: int|
                0 <= i < nodes@.len() ==> ((#[trigger] nodes@[i]).state.cell as int) < cells,
            forall|s: KinematicState| #[trigger]
                index_of.dom().contains(s) ==> 0 <= index_of[s] < nodes@.len()
                    && nodes@[index_of[s]].state == s,
            forall|i: int|
                0 <= i < nodes@.len() ==> index_of.dom().contains((#[trigger] nodes@[i]).state),
            forall|k: usize|
                #![trigger popped.contains(k)]
                #![trigger heap@.to_multiset().count(k)]
                (k as int) < nodes@.len() ==> heap@.to_multiset().count(k) > 0 || popped.contains(k),
            forall|k: usize| #[trigger]
                popped.contains(k) ==> (k as int) < nodes@.len() && settled(
                    nodes@[k as int],
                    closed@,
                    goal,
                    goal_heading,
                ),
            forall|s: KinematicState| #[trigger]
                closed@.contains(spec_state_key(s) as u64) && s.interval.t_end
                    == start.interval.t_end ==> expanded_ok(s, index_of, graph, reservation_table),
            slots.finite(),
            nodes@.len() <= 1 + 9 * slots.len(),
            forall|s: KinematicState| #[trigger]
                slots.contains(state_slot(s)) && s.interval.t_start <= MAX_HORIZON
                    ==> closed@.contains(spec_state_key(s) as u64),
            (start.cell as int) < cells ==> slots.subset_of(vstd::set_lib::set_int_range(0, 804 * cells)),
        decreases MAX_EXPANSIONS - expansions,
    {
        let ghost heap_before = heap@;
        let ghost popped_before = popped;
        let cur_idx = heap_pop(&mut heap, &nodes);
        expansions = expansions + 1;
        proof {
            if graph.connectivity != 8 {
                assert forall|states: Seq<KinematicState>|
                    #[trigger] valid_search_path(
                        states,
                        start,
                        goal,
                        goal_heading,
                        graph,
                        reservation_table,
                    ) implies nodes@[cur_idx as int].f_cost <= states.last().interval.t_start by {
                    let (k, m) = lemma_frontier(
                        nodes@,
                        heap_before,
                        start,
                        goal,
                        goal_heading,
                        graph,
                        reservation_table,
                        index_of,
                        popped_before,
                        closed@,
                        states,
                        0,
                    );
                    vstd::seq_lib::to_multiset_contains(heap_before, k);
                    assert(heap_before.contains(k));
                    let idx = choose|idx: int| 0 <= idx < heap_before.len() && heap_before[idx] == k;
                    assert(spec_heap_le(nodes@, heap_before[idx], cur_idx));
                    lemma_path_f_bound(states, start, goal, goal_heading, graph, reservation_table, m);
                    assert(nodes@[k as int].f_cost == nodes@[k as int].g_cost + spec_heuristic(
                        nodes@[k as int].state,
                        goal,
                        goal_heading,
                        graph,
                    ));
                    assert(node_ok(nodes@, k as int, start, graph, reservation_table));
                }
            }
            assert(heap_before.contains(heap_before[0]));
            assert forall|k: usize|
                (k as int) < nodes@.len() && k != cur_idx implies heap@.to_multiset().count(k)
                > 0 || popped.contains(k) by {
                assert(heap@.to_multiset().count(k) == heap_before.to_multiset().count(k));
            }
            popped = popped.insert(cur_idx);
        }
        if expansions > MAX_EXPANSIONS {
            proof {
                vstd::set_lib::lemma_int_range(0, 804 * cells);
                if (start.cell as int) < cells && graph.connectivity != 8 && (exists|
                    states: Seq<KinematicState>,
                |
                    #[trigger] valid_search_path(states, start, goal, goal_heading, graph, reservation_table)
                        && 1 + 9 * cheap_slots(graph, goal, goal_heading, states.last().interval.t_start as int).len()
                        <= MAX_EXPANSIONS) {
                    let states = choose|states: Seq<KinematicState>|
                        #[trigger] valid_search_path(states, start, goal, goal_heading, graph, reservation_table)
                            && 1 + 9 * cheap_slots(graph, goal, goal_heading, states.last().interval.t_start as int).len()
                            <= MAX_EXPANSIONS;
                    let cheap = cheap_slots(graph, goal, goal_heading, states.last().interval.t_start as int);
                    vstd::set_lib::lemma_len_subset(cheap, vstd::set_lib::set_int_range(0, 804 * cells));
                    vstd::set_lib::lemma_len_subset(slots, cheap);
                }
                if fits_budget(start, graph) {
                    vstd::set_lib::lemma_len_subset(slots, vstd::set_lib::set_int_range(0, 804 * cells));
                    assert(9 * (4 * (MAX_HORIZON + 1)) * cells == 9 * (804 * cells)) by (nonlinear_arith)
                        requires
                            MAX_HORIZON == 200,
                    ;
                }
            }
            return None;
        }
        let current = nodes[cur_idx];
        assert(node_ok(nodes@, cur_idx as int, start, graph, reservation_table));
        proof {
            if starts_at_goal(start, goal, goal_heading) {
                assert(cur_idx == 0);
                assert(current.state == start);
                assert(path_to(nodes@, 0) == seq![start]);
            }
        }
        if current.g_cost > MAX_HORIZON {
            continue;
        }
        if current.state.cell == goal {
            let heading_ok: bool = match goal_heading {
                None => true,
                Some(gh) => gh == current.state.heading,
            };
            if heading_ok {
                let traj = reconstruct_path(&nodes, cur_idx);
                proof {
                    lemma_path_valid(nodes@, cur_idx as int, start, graph, reservation_table);
                    lemma_goal_heuristic(current.state, goal, goal_heading, graph);
                    let found = path_to(nodes@, cur_idx as int);
                    assert(traj.waypoints@.last().t_arrive == current.g_cost) by {
                        assert(traj.waypoints@.len() == found.len());
                        assert(traj.waypoints@[found.len() - 1].t_arrive == found[found.len() - 1].interval.t_start);
                    }
                    let states = path_to(nodes@, cur_idx as int);
                    assert(valid_search_path(
                        states,
                        start,
                        goal,
                        goal_heading,
                        graph,
                        reservation_table,
                    ));
                }
                return Some(traj);
            }
        }
        assert(!at_goal(current.state, goal, goal_heading));
        let key = state_key(&current.state);
        if closed.contains(&key) {
            continue;
        }
        let ghost closed_before = closed@;
        closed.insert(key);
        proof {
            assert(!slots.contains(state_slot(current.state)));
            slots = slots.insert(state_slot(current.state));
            assert forall|s: KinematicState| #[trigger]
                slots.contains(state_slot(s)) && s.interval.t_start <= MAX_HORIZON implies closed@.contains(
                spec_state_key(s) as u64,
            ) by {
                if state_slot(s) == state_slot(current.state) {
                    lemma_slot_injective(s, current.state);
                }
            }
            if (start.cell as int) < cells {
                assert(nodes@[cur_idx as int].state.cell < cells);
                lemma_slot_range(current.state, cells);
            }
            assert forall|s: KinematicState| #[trigger]
                closed@.contains(spec_state_key(s) as u64) implies !at_goal(s, goal, goal_heading) by {
                if !closed_before.contains(spec_state_key(s) as u64) {
                    lemma_key_injective(s, current.state);
                }
            }
            if (start.cell as int) < cells && graph.connectivity != 8 {
                lemma_slot_decode(current.state);
                assert forall|states: Seq<KinematicState>|
                    #[trigger] valid_search_path(
                        states,
                        start,
                        goal,
                        goal_heading,
                        graph,
                        reservation_table,
                    ) implies slots.subset_of(
                    cheap_slots(graph, goal, goal_heading, states.last().interval.t_start as int),
                ) by {
                    let x = state_slot(current.state);
                    assert(nodes@[cur_idx as int].f_cost <= states.last().interval.t_start);
                    assert(spec_heuristic(slot_state(x), goal, goal_heading, graph) == spec_heuristic(
                        current.state,
                        goal,
                        goal_heading,
                        graph,
                    ));
                    assert(cheap_slots(graph, goal, goal_heading, states.last().interval.t_start as int).contains(x));
                }
            }
        }
        let successors = expand_successors(&current.state, &lookup, graph);
        proof {
            lemma_successors_at_most_nine(current.state, lookup, graph);
        }
        let ghost expanded_len = nodes@.len();
        let mut k: usize = 0;
        while k < successors.len()
            invariant
                graph.width > 0,
                graph.width * graph.height <= 65536,
                cells == graph.width * graph.height,
                reservation_table.lookup_ready(),
                lookup == standard_lookup(),
                cur_idx < nodes@.len(),
                nodes@[cur_idx as int] == current,
                nodes@[0].state == start,
                current.g_cost == current.state.interval.t_start,
                current.g_cost <= MAX_HORIZON,
                current.state.interval.t_end == start.interval.t_end,
                (start.cell as int) < cells ==> (current.state.cell as int) < cells,
                successors@ == spec_successors(current.state, lookup, graph),
                nodes@.len() >= 1,
                nodes_ok(nodes@, start, graph, reservation_table),
                chain_ok(nodes@),
                heap_in_range(heap@, nodes@.len() as int),
                expansions <= MAX_EXPANSIONS,
                k <= successors@.len(),
                successors@.len() <= 9,
                heap@.len() <= nodes@.len(),
                nodes@.len() <= expanded_len + k,
                expanded_len <= 1 + 9 * (expansions - 1),
                expanded_len <= 1 + 9 * (slots.len() - 1),
                expanded_len <= nodes@.len(),
                expansions + heap@.len() == nodes@.len(),
                1 <= expansions,
                start.interval.t_start <= MAX_HORIZON,
                heap_ok(heap@, nodes@),
                forall|i: int|
                    0 <= i < nodes@.len() ==> (#[trigger] nodes@[i]).f_cost == nodes@[i].g_cost
                        + spec_heuristic(nodes@[i].state, goal, goal_heading, graph),
                forall|s: KinematicState| #[trigger]
                    closed@.contains(spec_state_key(s) as u64) ==> !at_goal(s, goal, goal_heading),
                (start.cell as int) < cells && graph.connectivity != 8 ==> forall|
                    states: Seq<KinematicState>,
                |
                    #[trigger] valid_search_path(states, start, goal, goal_heading, graph, reservation_table)
                        ==> slots.subset_of(
                        cheap_slots(graph, goal, goal_heading, states.last().interval.t_start as int),
                    ),
                closed@ == closed_before.insert(spec_state_key(current.state) as u64),
                !at_goal(current.state, goal, goal_heading),
                forall|i: int|
                    0 <= i < nodes@.len() ==> (#[trigger] nodes@[i]).state.interval.t_end
                        == start.interval.t_end,
                (start.cell as int) < cells ==> forall|i: int|
                    0 <= i < nodes@.len() ==> ((#[trigger] nodes@[i]).state.cell as int) < cells,
                forall|s: KinematicState| #[trigger]
                    index_of.dom().contains(s) ==> 0 <= index_of[s] < nodes@.len()
                        && nodes@[index_of[s]].state == s,
                forall|i: int|
                    0 <= i < nodes@.len() ==> index_of.dom().contains((#[trigger] nodes@[i]).state),
                forall|k: usize|
                    #![trigger popped.contains(k)]
                    #![trigger heap@.to_multiset().count(k)]
                    (k as int) < nodes@.len() ==> heap@.to_multiset().count(k) > 0 || popped.contains(
                        k,
                    ),
                forall|k: usize| #[trigger]
                    popped.contains(k) ==> (k as int) < nodes@.len() && settled(
                        nodes@[k as int],
                        closed@,
                        goal,
                        goal_heading,
                    ),
                forall|s: KinematicState| #[trigger]
                    closed_before.contains(spec_state_key(s) as u64) && s.interval.t_end
                        == start.interval.t_end ==> expanded_ok(
                        s,
                        index_of,
                        graph,
                        reservation_table,
                    ),
                forall|j: int|
                    0 <= j < k ==> (reservation_table.spec_slot_free(
                        (#[trigger] successors@[j]).cell,
                        successors@[j].interval,
                    ) && successors@[j].interval.t_start <= MAX_HORIZON ==> index_of.dom().contains(
                        successors@[j],
                    )),
                slots.finite(),
            decreases successors@.len() - k,
        {
            let succ = successors[k];
            proof {
                assert(successors@.contains(succ)) by {
                    assert(successors@[k as int] == succ);
                }
                lemma_successor_keeps(current.state, graph, succ);
            }
            if reservation_table.slot_is_free(succ.cell, &succ.interval) {
                proof {
                    lemma_successor_shape(current.state, lookup, graph, k as int);
                    if succ.cell != current.state.cell {
                    } else {
                        if spec_neighbors(graph, current.state.cell).contains(succ.cell) {
                            let ns = spec_neighbors(graph, current.state.cell);
                            let j = choose|j: int| 0 <= j < ns.len() && ns[j] == succ.cell;
                            lemma_neighbor_not_self(
                                graph,
                                current.state.cell,
                                direction_offsets(graph.connectivity).len() as int,
                                j,
                            );
                        }
                    }
                }
                let move_cost = transition_cost(
                    current.state.cell,
                    succ.cell,
                    current.state.heading,
                    succ.heading,
                    &lookup,
                );
                let g: Tick = current.g_cost + move_cost as Tick;
                assert(g == succ.interval.t_start);
                if g <= MAX_HORIZON {
                    let h = heuristic(&succ, goal, goal_heading, graph);
                    let f: Tick = g + h;
                    let ghost before = nodes@;
                    let ghost heap_before = heap@;
                    nodes.push(SearchNode { state: succ, g_cost: g, f_cost: f, parent: Some(cur_idx) });
                    proof {
                        assert(state_step(current.state, succ, graph, reservation_table));
                        assert forall|i: int| 0 <= i < nodes@.len() implies #[trigger] node_ok(
                            nodes@,
                            i,
                            start,
                            graph,
                            reservation_table,
                        ) by {
                            if i < before.len() {
                                assert(node_ok(before, i, start, graph, reservation_table));
                                assert(nodes@[i] == before[i]);
                                match before[i].parent {
                                    Some(p) => {
                                        assert(nodes@[p as int] == before[p as int]);
                                    },
                                    None => {},
                                }
                            } else {
                                assert(nodes@[cur_idx as int] == current);
                            }
                        }
                        assert forall|i: int| 0 <= i < nodes@.len() implies match #[trigger] nodes@[i].parent {
                            None => true,
                            Some(p) => 0 <= p < i,
                        } by {
                            if i < before.len() {
                                assert(nodes@[i] == before[i]);
                            }
                        }
                        assert forall|j: int| 0 <= j < heap@.len() implies #[trigger] heap@[j]
                            < nodes@.len() by {}
                        assert forall|i: int| 0 < i < heap@.len() implies spec_heap_le(
                            nodes@,
                            #[trigger] heap@[i],
                            heap@[(i - 1) / 2],
                        ) by {
                            assert(spec_heap_le(before, heap@[i], heap@[(i - 1) / 2]));
                            assert(nodes@[heap@[i] as int] == before[heap@[i] as int]);
                            assert(nodes@[heap@[(i - 1) / 2] as int] == before[heap@[(i - 1) / 2] as int]);
                        }
                        assert forall|i: int|
                            0 <= i < nodes@.len() implies (#[trigger] nodes@[i]).f_cost == nodes@[i].g_cost
                            + spec_heuristic(nodes@[i].state, goal, goal_heading, graph) by {
                            if i < before.len() {
                                assert(nodes@[i] == before[i]);
                            }
                        }
                    }
                    let new_idx = nodes.len() - 1;
                    heap_push(&mut heap, &nodes, new_idx);
                    proof {
                        index_of = index_of.insert(succ, new_idx as int);
                        assert forall|i: int|
                            0 <= i < nodes@.len() implies index_of.dom().contains(
                            (#[trigger] nodes@[i]).state,
                        ) by {
                            if i < before.len() {
                                assert(nodes@[i] == before[i]);
                            }
                        }
                        assert forall|s: KinematicState| #[trigger]
                            index_of.dom().contains(s) implies 0 <= index_of[s] < nodes@.len()
                            && nodes@[index_of[s]].state == s by {
                            if s != succ {
                                assert(nodes@[index_of[s]] == before[index_of[s]]);
                            }
                        }
                        assert forall|i: int|
                            0 <= i < nodes@.len() implies (#[trigger] nodes@[i]).state.interval.t_end
                            == start.interval.t_end by {
                            if i < before.len() {
                                assert(nodes@[i] == before[i]);
                            }
                        }
                        if (start.cell as int) < cells {
                            assert forall|i: int|
                                0 <= i < nodes@.len() implies ((#[trigger] nodes@[i]).state.cell as int)
                                < cells by {
                                if i < before.len() {
                                    assert(nodes@[i] == before[i]);
                                }
                            }
                        }
                        assert forall|kk: usize|
                            (kk as int) < nodes@.len() implies heap@.to_multiset().count(kk) > 0
                            || popped.contains(kk) by {
                            assert(heap@.to_multiset().count(kk) >= heap_before.to_multiset().count(kk));
                        }
                        assert forall|kk: usize| #[trigger]
                            popped.contains(kk) implies (kk as int) < nodes@.len() && settled(
                            nodes@[kk as int],
                            closed@,
                            goal,
                            goal_heading,
                        ) by {
                            assert(nodes@[kk as int] == before[kk as int]);
                        }
                        assert forall|s: KinematicState| #[trigger]
                            closed_before.contains(spec_state_key(s) as u64) && s.interval.t_end
                            == start.interval.t_end implies expanded_ok(
                            s,
                            index_of,
                            graph,
                            reservation_table,
                        ) by {
                            let old_map = index_of.remove(succ);
                            assert forall|s2: KinematicState|
                                #[trigger] spec_successors(s, standard_lookup(), graph).contains(s2)
                                && reservation_table.spec_slot_free(s2.cell, s2.interval)
                                && s2.interval.t_start <= MAX_HORIZON implies index_of.dom().contains(
                                s2,
                            ) by {
                                if s2 != succ {
                                }
                            }
                        }
                    }
                }
            }
            k = k + 1;
        }
        proof {
            assert forall|s: KinematicState| #[trigger]
                closed@.contains(spec_state_key(s) as u64) && s.interval.t_end
                    == start.interval.t_end implies expanded_ok(s, index_of, graph, reservation_table) by {
                if !closed_before.contains(spec_state_key(s) as u64) {
                    lemma_key_injective(s, current.state);
                    assert(s.interval == current.state.interval);
                    assert(s == current.state);
                    assert forall|s2: KinematicState|
                        #[trigger] spec_successors(s, standard_lookup(), graph).contains(s2)
                        && reservation_table.spec_slot_free(s2.cell, s2.interval)
                        && s2.interval.t_start <= MAX_HORIZON implies index_of.dom().contains(s2) by {
                        let j = choose|j: int| 0 <= j < successors@.len() && successors@[j] == s2;
                        assert(successors@[j] == s2);
                    }
                }
            }
        }
    }
    proof {
        if exists|states: Seq<KinematicState>|
            #[trigger] valid_search_path(states, start, goal, goal_heading, graph, reservation_table) {
            let states = choose|states: Seq<KinematicState>|
                #[trigger] valid_search_path(states, start, goal, goal_heading, graph, reservation_table);
            assert forall|k: usize| (k as int) < nodes@.len() implies #[trigger] popped.contains(k) by {
                assert(!heap@.contains(k));
                assert(heap@.to_multiset().count(k) == 0);
            }
            assert(index_of.dom().contains(nodes@[0].state));
            assert(states[0] == start);
            assert(states[0].interval.t_start <= MAX_HORIZON);
            lemma_exhausted_no_path(
                nodes@,
                start,
                goal,
                goal_heading,
                graph,
                reservation_table,
                index_of,
                popped,
                closed@,
                states,
                states.len() - 1,
            );
        }
    }
    None
}

/// Hop `i` goes to a neighbour or stays, and does not arrive before the robot leaves.
pub open spec fn hop_ok(wps: Seq<Waypoint>, i: int, g: &SpatialGraph) -> bool {
    &&& (spec_neighbors(g, wps[i].cell).contains(wps[i + 1].cell) || wps[i].cell == wps[i + 1].cell)
    &&& wps[i].t_depart <= wps[i + 1].t_arrive
}

pub open spec fn spec_trajectory_valid(wps: Seq<Waypoint>, g: &SpatialGraph) -> bool {
    forall|i: int| 0 <= i < wps.len() - 1 ==> #[trigger] hop_ok(wps, i, g)
}

/// Checks that every hop goes to a neighbour (or stays) and leaves no earlier than
/// it arrives at the next waypoint.
pub fn validate_trajectory(traj: &Trajectory, graph: &SpatialGraph) -> (r: bool)
    requires
        traj.waypoints@.len() >= 1,
        graph.width > 0,
    ensures
        r == spec_trajectory_valid(traj.waypoints@, graph),
{
    let wps = &traj.waypoints;
    let n: usize = wps.len() - 1;
    let mut i: usize = 0;
    while i < n
        invariant
            n == wps@.len() - 1,
            wps@ == traj.waypoints@,
            i <= n,
            graph.width > 0,
            forall|j: int| 0 <= j < i ==> #[trigger] hop_ok(wps@, j, graph),
        decreases n - i,
    {
        let a = wps[i];
        let b = wps[i + 1];
        let neighbors = graph.neighbors(a.cell);
        let mut found: bool = false;
        let mut k: usize = 0;
        while k < neighbors.len()
            invariant
                k <= neighbors@.len(),
                found == neighbors@.take(k as int).contains(b.cell),
            decreases neighbors@.len() - k,
        {
            proof {
                assert(neighbors@.take(k + 1) =~= neighbors@.take(k as int).push(neighbors@[k as int]));
            }
            if neighbors[k] == b.cell {
                found = true;
            }
            proof {
                if neighbors@[k as int] == b.cell {
                    assert(neighbors@.take(k + 1)[k as int] == b.cell);
                } else if neighbors@.take(k + 1).contains(b.cell) {
                    let t = neighbors@.take(k + 1);
                    let j = choose|j: int| 0 <= j < t.len() && #[trigger] t[j] == b.cell;
                    assert(neighbors@.take(k as int)[j] == b.cell);
                }
            }
            k = k + 1;
        }
        assert(neighbors@.take(neighbors@.len() as int) =~= neighbors@);
        if !found && a.cell != b.cell {
            assert(!hop_ok(wps@, i as int, graph));
            return false;
        }
        if a.t_depart > b.t_arrive {
            assert(!hop_ok(wps@, i as int, graph));
            return false;
        }
        assert(hop_ok(wps@, i as int, graph));
        i = i + 1;
    }
    true
}

/// Every trajectory the search returns passes `validate_trajectory`: it starts at
/// the start cell and ends at the goal (facing the asked heading), every hop stays
/// or goes to a neighbour, the arrival ticks strictly increase and stay within the
/// horizon, and every state entered after the start was free in the table.
pub proof fn lemma_search_path_validates<R: ReservationLookup>(
    states: Seq<KinematicState>,
    start: KinematicState,
    goal: CellID,
    goal_heading: Option<Heading>,
    g: &SpatialGraph,
    table: &R,
)
    requires
        valid_search_path(states, start, goal, goal_heading, g, table),
    ensures
        waypoints_of(states).len() >= 1,
        waypoints_of(states)[0].cell == start.cell,
        waypoints_of(states).last().cell == goal,
        goal_heading matches Some(h) ==> waypoints_of(states).last().heading == h,
        forall|i: int|
            0 <= i < states.len() ==> #[trigger] waypoints_of(states)[i].t_arrive <= MAX_HORIZON,
        forall|i: int|
            0 < i < states.len() ==> table.spec_slot_free(
                (#[trigger] states[i]).cell,
                states[i].interval,
            ),
        spec_trajectory_valid(waypoints_of(states), g),
        forall|i: int|
            0 <= i < states.len() - 1 ==> #[trigger] waypoints_of(states)[i].t_arrive
                < waypoints_of(states)[i + 1].t_arrive,
{
    let wps = waypoints_of(states);
    assert forall|i: int| 0 <= i < states.len() - 1 implies #[trigger] hop_ok(wps, i, g)
        && wps[i].t_arrive < wps[i + 1].t_arrive by {
        assert(step_at(states, i, g, table));
        assert(states[i].interval.t_start <= MAX_HORIZON);
        let succs = spec_successors(states[i], standard_lookup(), g);
        let j = choose|j: int| 0 <= j < succs.len() && succs[j] == states[i + 1];
        lemma_successor_shape(states[i], standard_lookup(), g, j);
    }
    assert forall|i: int| 0 <= i < states.len() - 1 implies #[trigger] waypoints_of(states)[i].t_arrive
        < waypoints_of(states)[i + 1].t_arrive by {
        assert(hop_ok(wps, i, g));
    }
    assert forall|i: int| 0 < i < states.len() implies table.spec_slot_free(
        (#[trigger] states[i]).cell,
        states[i].interval,
    ) by {
        assert(step_at(states, i - 1, g, table));
    }
    assert forall|i: int| 0 <= i < states.len() implies #[trigger] waypoints_of(states)[i].t_arrive
        <= MAX_HORIZON by {
        assert(states[i].interval.t_start <= MAX_HORIZON);
    }
}

/// Along a search path that starts with a non-empty window, every waypoint
/// leaves no earlier than it arrives.
pub proof fn lemma_waypoint_windows<R: ReservationLookup>(
    states: Seq<KinematicState>,
    start: KinematicState,
    goal: CellID,
    goal_heading: Option<Heading>,
    g: &SpatialGraph,
    table: &R,
)
    requires
        valid_search_path(states, start, goal, goal_heading, g, table),
        start.interval.t_start <= start.interval.t_end,
    ensures
        forall|i: int|
            0 <= i < states.len() ==> #[trigger] waypoints_of(states)[i].t_arrive
                <= waypoints_of(states)[i].t_depart,
{
    lemma_search_path_validates(states, start, goal, goal_heading, g, table);
    lemma_state_windows(states, start, goal, goal_heading, g, table, states.len() - 1);
    assert forall|i: int| 0 <= i < states.len() implies #[trigger] waypoints_of(states)[i].t_arrive
        <= waypoints_of(states)[i].t_depart by {
        if i + 1 < states.len() {
            assert(waypoints_of(states)[i].t_arrive < waypoints_of(states)[i + 1].t_arrive);
        } else {
            lemma_state_windows(states, start, goal, goal_heading, g, table, i);
        }
    }
}

proof fn lemma_state_windows<R: ReservationLookup>(
    states: Seq<KinematicState>,
    start: KinematicState,
    goal: CellID,
    goal_heading: Option<Heading>,
    g: &SpatialGraph,
    table: &R,
    i: int,
)
    requires
        valid_search_path(states, start, goal, goal_heading, g, table),
        start.interval.t_start <= start.interval.t_end,
        0 <= i < states.len(),
    ensures
        states[i].interval.t_start <= states[i].interval.t_end,
    decreases i,
{
    if i > 0 {
        lemma_state_windows(states, start, goal, goal_heading, g, table, i - 1);
        assert(step_at(states, i - 1, g, table));
        assert(states[i - 1].interval.t_start <= MAX_HORIZON);
        let succs = spec_successors(states[i - 1], standard_lookup(), g);
        let j = choose|j: int| 0 <= j < succs.len() && succs[j] == states[i];
        lemma_successor_shape(states[i - 1], standard_lookup(), g, j);
    }
}

/// Grid distance between two cells: the Manhattan distance, untruncated.
pub open spec fn grid_dist(g: &SpatialGraph, a: CellID, b: CellID) -> int {
    spec_abs(cell_x(g, a as int) - cell_x(g, b as int)) + spec_abs(
        cell_y(g, a as int) - cell_y(g, b as int),
    )
}

/// In a grid whose cells all fit in a `CellID`, the Manhattan distance of two
/// cells fits in 16 bits, so `spec_manhattan` is the grid distance.
proof fn lemma_manhattan_exact(g: &SpatialGraph, a: CellID, b: CellID)
    requires
        g.width > 0,
        g.width * g.height <= 65536,
    ensures
        spec_manhattan(g, a, b) == grid_dist(g, a, b),
{
    let w = g.width as int;
    let q = 65535int / w;
    let ai = a as int;
    let bi = b as int;
    assert(ai / w <= q && bi / w <= q) by (nonlinear_arith)
        requires
            w > 0,
            0 <= ai <= 65535,
            0 <= bi <= 65535,
            q == 65535int / w,
    ;
    assert(w * q <= 65535) by (nonlinear_arith)
        requires
            w > 0,
            q == 65535int / w,
    ;
    assert(w - 1 + q <= 65535) by (nonlinear_arith)
        requires
            1 <= w <= 65535,
            0 <= q,
            w * q <= 65535,
    ;
    assert(0 <= cell_x(g, a as int) < w && 0 <= cell_x(g, b as int) < w);
    assert(0 <= cell_y(g, a as int) && 0 <= cell_y(g, b as int));
}

/// A neighbour in a 4-connected grid is one step from its cell: the grid
/// distance from the cell to any other is at most one more than from the
/// neighbour.
proof fn lemma_neighbor_one_step(g: &SpatialGraph, cell: CellID, k: int, i: int, target: CellID)
    requires
        g.width > 0,
        g.width * g.height <= 65536,
        g.connectivity != 8,
        0 <= k <= 4,
        0 <= i < neighbors_upto(g, cell, k).len(),
    ensures
        grid_dist(g, cell, target) <= grid_dist(g, neighbors_upto(g, cell, k)[i], target) + 1,
    decreases k,
{
    let rest = neighbors_upto(g, cell, k - 1);
    if i < rest.len() {
        lemma_neighbor_one_step(g, cell, k - 1, i, target);
    } else {
        let d = direction_offsets(g.connectivity)[k - 1];
        let w = g.width as int;
        let h = g.height as int;
        let nx = cell_x(g, cell as int) + d.0;
        let ny = cell_y(g, cell as int) + d.1;
        let n = neighbors_upto(g, cell, k)[i];
        assert(spec_abs(d.0) + spec_abs(d.1) == 1);
        assert(0 <= nx < w && 0 <= ny < h);
        assert(0 <= ny * w + nx < 65536) by (nonlinear_arith)
            requires
                0 <= nx < w,
                0 <= ny < h,
                w * h <= 65536,
        ;
        assert(n as int == ny * w + nx);
        vstd::arithmetic::div_mod::lemma_fundamental_div_mod_converse(n as int, w, ny, nx);
    }
}

/// Quarter turns obey the triangle inequality.
proof fn lemma_quarter_turns_triangle(a: Heading, b: Heading, c: Heading)
    ensures
        quarter_turns(a, c) <= quarter_turns(a, b) + quarter_turns(b, c),
{
}

/// Along a search path on a 4-connected grid, the ticks from state `j` to the
/// last state are at least the grid distance between their cells plus the
/// time to turn from the one heading to the other.
proof fn lemma_suffix_cost<R: ReservationLookup>(
    states: Seq<KinematicState>,
    start: KinematicState,
    goal: CellID,
    goal_heading: Option<Heading>,
    g: &SpatialGraph,
    table: &R,
    j: int,
)
    requires
        g.width > 0,
        g.width * g.height <= 65536,
        g.connectivity != 8,
        valid_search_path(states, start, goal, goal_heading, g, table),
        0 <= j < states.len(),
    ensures
        states.last().interval.t_start - states[j].interval.t_start >= grid_dist(
            g,
            states[j].cell,
            states.last().cell,
        ) + T_90 * quarter_turns(states[j].heading, states.last().heading),
    decreases states.len() - j,
{
    if j + 1 < states.len() {
        lemma_suffix_cost(states, start, goal, goal_heading, g, table, j + 1);
        assert(step_at(states, j, g, table));
        assert(states[j].interval.t_start <= MAX_HORIZON);
        let succs = spec_successors(states[j], standard_lookup(), g);
        let k = choose|k: int| 0 <= k < succs.len() && succs[k] == states[j + 1];
        lemma_successor_shape(states[j], standard_lookup(), g, k);
        lemma_quarter_turns_triangle(states[j].heading, states[j + 1].heading, states.last().heading);
        let ns = spec_neighbors(g, states[j].cell);
        if ns.contains(states[j + 1].cell) && states[j + 1].heading == crate::planner::heading::spec_direction_in(
            g,
            states[j].cell,
            states[j + 1].cell,
        ) && states[j + 1].interval.t_start == states[j].interval.t_start + lookup_cost(
            standard_lookup(),
            states[j].heading,
            states[j + 1].heading,
        ) + 1 {
            let i = choose|i: int| 0 <= i < ns.len() && ns[i] == states[j + 1].cell;
            lemma_neighbor_one_step(g, states[j].cell, 4, i, states.last().cell);
            assert(lookup_cost(standard_lookup(), states[j].heading, states[j + 1].heading)
                == T_90 * quarter_turns(states[j].heading, states[j + 1].heading));
        }
    }
}

/// The search heuristic never overestimates: along any valid search path on a
/// 4-connected grid, the ticks from the start to reaching the goal are at least
/// the heuristic of the start.
pub proof fn lemma_heuristic_admissible<R: ReservationLookup>(
    states: Seq<KinematicState>,
    start: KinematicState,
    goal: CellID,
    goal_heading: Option<Heading>,
    g: &SpatialGraph,
    table: &R,
)
    requires
        g.width > 0,
        g.width * g.height <= 65536,
        g.connectivity != 8,
        valid_search_path(states, start, goal, goal_heading, g, table),
    ensures
        states.last().interval.t_start - start.interval.t_start >= spec_heuristic(
            start,
            goal,
            goal_heading,
            g,
        ),
{
    lemma_suffix_cost(states, start, goal, goal_heading, g, table, 0);
    lemma_manhattan_exact(g, start.cell, goal);
    match goal_heading {
        Some(gh) => {
            assert(spec_rotation_ticks(start.heading, gh) == T_90 * quarter_turns(start.heading, gh));
        },
        None => {},
    }
}

} // verus!

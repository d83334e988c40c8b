//! Compressed trajectories: straight segments per agent, and their expansion
//! into cell reservations.
use crate::collections::{
    keys_of, lemma_sum_lens_is_total, sum_lens, total_len, total_len_of, vec_values,
};
use crate::planner::d_sipp::Trajectory;
use crate::space_time::reservation::Reservation;
use crate::space_time::{CellID, Heading, Tick};
use std::collections::HashMap;
use vstd::prelude::*;

verus! {

broadcast use vstd::std_specs::hash::group_hash_axioms;

/// A stretch of a trajectory: from `start` at `t_enter` to `end` at `t_exit`.
#[derive(Debug, Clone, Copy, PartialEq, Eq, Structural)]
pub struct Segment {
    pub start: CellID,
    pub end: CellID,
    pub t_enter: Tick,
    pub t_exit: Tick,
    pub heading: Heading,
    pub agent_id: u8,
}

/// The reservation a segment stands for: its start cell over its whole time span.
pub open spec fn segment_reservation(seg: Segment) -> (CellID, Reservation) {
    (
        seg.start,
        Reservation {
            agent_id: seg.agent_id,
            t_start: seg.t_enter,
            t_end: seg.t_exit,
            trajectory_hash: 0,
        },
    )
}

/// The lists of the keys `ks`, one after the other.
pub open spec fn concat_lists(m: Map<u8, Seq<Segment>>, ks: Seq<u8>) -> Seq<Segment>
    decreases ks.len(),
{
    if ks.len() == 0 {
        Seq::empty()
    } else {
        concat_lists(m, ks.drop_last()) + m[ks.last()]
    }
}

/// Segments of each agent.
#[derive(Debug)]
pub struct SegmentTable {
    agents: HashMap<u8, Vec<Segment>>,
}

impl SegmentTable {
    pub closed spec fn segments(&self) -> Map<u8, Seq<Segment>> {
        vec_values(self.agents@)
    }

    pub fn new() -> (r: Self)
        ensures
            r.segments() == Map::<u8, Seq<Segment>>::empty(),
    {
        let r = SegmentTable { agents: HashMap::new() };
        assert(r.segments() =~= Map::<u8, Seq<Segment>>::empty());
        r
    }

    /// Replaces the agent's segments.
    pub fn insert_agent_segments(&mut self, agent_id: u8, segments: Vec<Segment>)
        ensures
            final(self).segments() == old(self).segments().insert(agent_id, segments@),
    {
        let ghost before = self.segments();
        let ghost segs = segments@;
        self.agents.insert(agent_id, segments);
        assert(self.segments() =~= before.insert(agent_id, segs));
    }

    /// A copy of the agent's segments; empty for an unknown agent.
    pub fn get_agent_segments(&self, agent_id: u8) -> (r: Vec<Segment>)
        ensures
            r@ == (if self.segments().contains_key(agent_id) {
                self.segments()[agent_id]
            } else {
                Seq::empty()
            }),
    {
        let mut out: Vec<Segment> = Vec::new();
        match self.agents.get(&agent_id) {
            Some(v) => {
                let mut i: usize = 0;
                while i < v.len()
                    invariant
                        i <= v@.len(),
                        out@ == v@.take(i as int),
                    decreases v@.len() - i,
                {
                    out.push(v[i]);
                    proof {
                        assert(out@ =~= v@.take(i + 1));
                    }
                    i = i + 1;
                }
                assert(v@.take(v@.len() as int) =~= v@);
            },
            None => {},
        }
        out
    }

    pub fn remove_agent(&mut self, agent_id: u8)
        ensures
            final(self).segments() == old(self).segments().remove(agent_id),
    {
        let ghost before = self.segments();
        self.agents.remove(&agent_id);
        assert(self.segments() =~= before.remove(agent_id));
    }

    /// One reservation per segment of the agent: its start cell, from entry to exit.
    pub fn expand_to_reservations(&self, agent_id: u8) -> (r: Vec<(CellID, Reservation)>)
        ensures
            r@ == (if self.segments().contains_key(agent_id) {
                self.segments()[agent_id]
            } else {
                Seq::empty()
            }).map_values(|s: Segment| segment_reservation(s)),
    {
        let segments = self.get_agent_segments(agent_id);
        let mut reservations: Vec<(CellID, Reservation)> = Vec::new();
        let mut i: usize = 0;
        while i < segments.len()
            invariant
                i <= segments@.len(),
                reservations@ == segments@.take(i as int).map_values(
                    |s: Segment| segment_reservation(s),
                ),
            decreases segments@.len() - i,
        {
            let seg = segments[i];
            reservations.push(
                (
                    seg.start,
                    Reservation {
                        agent_id: seg.agent_id,
                        t_start: seg.t_enter,
                        t_end: seg.t_exit,
                        trajectory_hash: 0,
                    },
                ),
            );
            proof {
                assert(reservations@ =~= segments@.take(i + 1).map_values(
                    |s: Segment| segment_reservation(s),
                ));
            }
            i = i + 1;
        }
        assert(segments@.take(segments@.len() as int) =~= segments@);
        reservations
    }

    pub fn clear_all(&mut self)
        ensures
            final(self).segments() == Map::<u8, Seq<Segment>>::empty(),
    {
        self.agents.clear();
        assert(self.segments() =~= Map::<u8, Seq<Segment>>::empty());
    }

    /// Number of segments over all agents.
    pub fn total_segments(&self) -> (r: usize)
        requires
            total_len(self.segments()) <= usize::MAX,
        ensures
            r == total_len(self.segments()),
    {
        total_len_of(&self.agents)
    }

    /// Every agent's segments, agent after agent in the map's order.
    pub fn all_segments(&self) -> (r: Vec<Segment>)
        ensures
            exists|ks: Seq<u8>|
                {
                    &&& ks.no_duplicates()
                    &&& ks.to_set() == self.segments().dom()
                    &&& r@ == #[trigger] concat_lists(self.segments(), ks)
                },
            r@.len() == total_len(self.segments()),
    {
        let ks = keys_of(&self.agents);
        let ghost m = self.segments();
        let mut out: Vec<Segment> = Vec::new();
        let mut i: usize = 0;
        while i < ks.len()
            invariant
                i <= ks@.len(),
                ks@.to_set() == self.agents@.dom(),
                m == self.segments(),
                out@ == concat_lists(m, ks@.take(i as int)),
                out@.len() == sum_lens(m, ks@.take(i as int)),
            decreases ks@.len() - i,
        {
            let k = ks[i];
            assert(ks@.to_set().contains(k)) by {
                assert(ks@.contains(k));
            }
            assert(ks@.take(i + 1).drop_last() =~= ks@.take(i as int));
            match self.agents.get(&k) {
                Some(v) => {
                    let mut j: usize = 0;
                    let ghost prefix = out@;
                    while j < v.len()
                        invariant
                            j <= v@.len(),
                            out@ == prefix + v@.take(j as int),
                        decreases v@.len() - j,
                    {
                        out.push(v[j]);
                        proof {
                            assert(out@ =~= prefix + v@.take(j + 1));
                        }
                        j = j + 1;
                    }
                    assert(v@.take(v@.len() as int) =~= v@);
                    assert(out@ =~= concat_lists(m, ks@.take(i + 1)));
                },
                None => {
                    assert(false);
                },
            }
            i = i + 1;
        }
        proof {
            assert(ks@.take(ks@.len() as int) =~= ks@);
            lemma_sum_lens_is_total(m, ks@);
            assert(m.dom() =~= ks@.to_set());
        }
        out
    }
}

impl Default for SegmentTable {
    fn default() -> (r: Self)
        ensures
            r.segments() == Map::<u8, Seq<Segment>>::empty(),
    {
        Self::new()
    }
}

/// The whole trajectory as one segment: first cell and arrival to last cell and
/// departure, facing the first heading; nothing for an empty trajectory.
pub fn compress_trajectory_to_segments(trajectory: &Trajectory, agent_id: u8) -> (r: Vec<Segment>)
    ensures
        trajectory.waypoints@.len() == 0 ==> r@ == Seq::<Segment>::empty(),
        trajectory.waypoints@.len() > 0 ==> r@ == seq![
            Segment {
                start: trajectory.waypoints@[0].cell,
                end: trajectory.waypoints@.last().cell,
                t_enter: trajectory.waypoints@[0].t_arrive,
                t_exit: trajectory.waypoints@.last().t_depart,
                heading: trajectory.waypoints@[0].heading,
                agent_id,
            },
        ],
{
    let mut segments: Vec<Segment> = Vec::new();
    if trajectory.waypoints.len() == 0 {
        return segments;
    }
    let first = trajectory.waypoints[0];
    let last = trajectory.waypoints[trajectory.waypoints.len() - 1];
    segments.push(
        Segment {
            start: first.cell,
            end: last.cell,
            t_enter: first.t_arrive,
            t_exit: last.t_depart,
            heading: first.heading,
            agent_id,
        },
    );
    assert(segments@ =~= seq![
        Segment {
            start: first.cell,
            end: last.cell,
            t_enter: first.t_arrive,
            t_exit: last.t_depart,
            heading: first.heading,
            agent_id,
        },
    ]);
    segments
}

/// One tick per cell.
pub fn compute_duration_ticks(distance_cells: u16) -> (r: Tick)
    ensures
        r == distance_cells as Tick,
{
    distance_cells as Tick
}

} // verus!

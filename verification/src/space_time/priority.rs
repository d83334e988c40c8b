//! Priority function used to decide which agent yields at a conflict.
use vstd::prelude::*;

verus! {

/// Inputs of the priority function of one agent.
#[derive(Debug, Clone, Copy, PartialEq, Eq, Structural)]
pub struct PriorityState {
    pub yield_count: u8,
    /// Task urgency class U_task, 0 (idle) to 4 (emergency).
    pub urgency: u8,
    /// Manhattan distance to the goal in cells.
    pub d_goal: u16,
    /// Battery percentage.
    pub battery: u8,
    /// Agent identifier (final tie-break).
    pub id: u8,
}

/// Yield term: 10000 per yield, capped at 20000, so that no yield count lets a
/// less urgent agent overtake a more urgent one.
pub open spec fn yield_term(yield_count: u8) -> int {
    if 10000 * yield_count as int <= 20000 {
        10000 * yield_count as int
    } else {
        20000
    }
}

/// P = 50000 * U_task + min(10000 * T_yield, 20000) + 50 * 100 / (D_goal + 1)
///     + 10 / (B + 1) + ID
pub open spec fn spec_priority(s: PriorityState) -> int {
    50000 * s.urgency as int + yield_term(s.yield_count) + 5000int / (s.d_goal as int + 1)
        + 10int / (s.battery as int + 1) + s.id as int
}

impl PriorityState {
    pub fn compute(&self) -> (p: u32)
        ensures
            p == spec_priority(*self),
    {
        let urgency_term: u32 = 50000u32 * (self.urgency as u32);
        let yield_term: u32 = if self.yield_count >= 2 {
            20000
        } else {
            10000u32 * (self.yield_count as u32)
        };
        let d: u32 = (self.d_goal as u32) + 1;
        let distance_term: u32 = 5000 / d;
        let battery_term: u32 = 10 / ((self.battery as u32) + 1);
        let id_term: u32 = self.id as u32;
        assert(distance_term <= 5000) by (nonlinear_arith)
            requires
                distance_term as int == 5000int / d as int,
                d >= 1,
        ;
        urgency_term + yield_term + distance_term + battery_term + id_term
    }
}

/// `p1` strictly outranks `p2`.
pub fn dominates(p1: u32, p2: u32) -> (r: bool)
    ensures
        r == (p1 > p2),
{
    p1 > p2
}

/// Priority after one more yield, for an agent still below the yield cap.
pub fn priority_after_yield(current: u32) -> (r: u32)
    requires
        current + 10000 <= u32::MAX,
    ensures
        r == current + 10000,
{
    current + 10000
}

/// Yield part of the priority at the largest yield count: the cap.
pub fn priority_at_max_yield() -> (r: u32)
    ensures
        r == yield_term(255),
{
    20000
}

/// Yield dominance: below the cap, one more yield, all else equal, raises the
/// priority by exactly the yield step; past it, more yields change nothing.
pub proof fn lemma_yield_raises_priority(s: PriorityState)
    requires
        s.yield_count < 255,
    ensures
        s.yield_count < 2 ==> spec_priority(
            PriorityState { yield_count: (s.yield_count + 1) as u8, ..s },
        ) == spec_priority(s) + 10000,
        s.yield_count >= 2 ==> spec_priority(
            PriorityState { yield_count: (s.yield_count + 1) as u8, ..s },
        ) == spec_priority(s),
{
}

/// Total ordering: two agents that differ only in their identifier never tie,
/// and the larger identifier wins.
pub proof fn lemma_priority_id_tiebreak(s: PriorityState, other_id: u8)
    requires
        s.id < other_id,
    ensures
        spec_priority(s) < spec_priority(PriorityState { id: other_id, ..s }),
{
}

/// The priority fits in 32 bits, and its yield part never exceeds the cap.
pub proof fn lemma_priority_bounds(s: PriorityState)
    ensures
        0 <= yield_term(s.yield_count) <= 20000,
        0 <= spec_priority(s) <= 50000 * 255 + 20000 + 5000 + 10 + 255,
{
    assert(5000int / (s.d_goal as int + 1) <= 5000) by (nonlinear_arith)
        requires
            s.d_goal >= 0,
    ;
    assert(10int / (s.battery as int + 1) <= 10) by (nonlinear_arith)
        requires
            s.battery >= 0,
    ;
}

/// One urgency class outranks everything the other terms can add: a more
/// urgent agent always outranks a less urgent one.
pub proof fn lemma_urgency_dominates(a: PriorityState, b: PriorityState)
    requires
        a.urgency > b.urgency,
    ensures
        spec_priority(a) > spec_priority(b),
{
    lemma_priority_parts(a);
    lemma_priority_parts(b);
}

proof fn lemma_priority_parts(s: PriorityState)
    ensures
        0 <= 5000int / (s.d_goal as int + 1) <= 5000,
        0 <= 10int / (s.battery as int + 1) <= 10,
{
    assert(0 <= 5000int / (s.d_goal as int + 1) <= 5000) by (nonlinear_arith)
        requires
            s.d_goal >= 0,
    ;
    assert(0 <= 10int / (s.battery as int + 1) <= 10) by (nonlinear_arith)
        requires
            s.battery >= 0,
    ;
}

/// An emergency task (urgency 4) is never overridden by an idle agent
/// (urgency 0), whatever either has yielded.
pub proof fn lemma_emergency_outranks_idle(emergency: PriorityState, idle: PriorityState)
    requires
        emergency.urgency == 4,
        idle.urgency == 0,
    ensures
        spec_priority(emergency) > spec_priority(idle),
{
    lemma_urgency_dominates(emergency, idle);
}

} // verus!

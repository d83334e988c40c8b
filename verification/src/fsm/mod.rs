//! The agent's finite-state machine: its states and its runtime context.
use crate::planner::d_sipp::Trajectory;
use crate::space_time::{CellID, Tick};
use vstd::prelude::*;


pub mod control_loop;
pub mod pullover;

verus! {

/// States of the control loop.
#[derive(Debug, Clone, Copy, PartialEq, Eq, Structural)]
pub enum AgentState {
    /// No active task; listening for TASK_AWARD.
    Idle,
    /// Running D-SIPP to find a path to the goal.
    Planning,
    /// Following a trajectory waypoint by waypoint.
    Executing,
    /// Pausing before replanning.
    Yielding,
    /// Pulling over to a side cell.
    YieldingPullover,
    /// Stopped at the pull-over cell, waiting for the other agent to pass.
    YieldingParked,
    /// Planning again after yielding, blocking or pulling over.
    Replanning,
    /// An unmapped obstacle was detected.
    Blocked,
    /// Backing up to clear a conflict.
    KinematicReverse,
    /// Battery low; heading to the charger.
    Charging,
}

/// Wire code of a state.
pub open spec fn state_code(s: AgentState) -> u8 {
    match s {
        AgentState::Idle => 0,
        AgentState::Planning => 1,
        AgentState::Executing => 2,
        AgentState::Yielding => 3,
        AgentState::YieldingPullover => 4,
        AgentState::YieldingParked => 5,
        AgentState::Replanning => 6,
        AgentState::Blocked => 7,
        AgentState::Charging => 8,
        AgentState::KinematicReverse => 9,
    }
}

/// State with a given wire code, for the codes 0..=9.
pub open spec fn state_of_code(v: u8) -> Option<AgentState> {
    if v == 0 {
        Some(AgentState::Idle)
    } else if v == 1 {
        Some(AgentState::Planning)
    } else if v == 2 {
        Some(AgentState::Executing)
    } else if v == 3 {
        Some(AgentState::Yielding)
    } else if v == 4 {
        Some(AgentState::YieldingPullover)
    } else if v == 5 {
        Some(AgentState::YieldingParked)
    } else if v == 6 {
        Some(AgentState::Replanning)
    } else if v == 7 {
        Some(AgentState::Blocked)
    } else if v == 8 {
        Some(AgentState::Charging)
    } else if v == 9 {
        Some(AgentState::KinematicReverse)
    } else {
        None
    }
}

/// Display name of a state.
pub open spec fn state_name(s: AgentState) -> Seq<char> {
    match s {
        AgentState::Idle => "IDLE"@,
        AgentState::Planning => "PLANNING"@,
        AgentState::Executing => "EXECUTING"@,
        AgentState::Yielding => "YIELDING"@,
        AgentState::YieldingPullover => "YIELDING_PULLOVER"@,
        AgentState::YieldingParked => "YIELDING_PARKED"@,
        AgentState::Replanning => "REPLANNING"@,
        AgentState::Blocked => "BLOCKED"@,
        AgentState::KinematicReverse => "KINEMATIC_REVERSE"@,
        AgentState::Charging => "CHARGING"@,
    }
}

impl AgentState {
    pub fn to_u8(self) -> (r: u8)
        ensures
            r == state_code(self),
    {
        match self {
            AgentState::Idle => 0,
            AgentState::Planning => 1,
            AgentState::Executing => 2,
            AgentState::Yielding => 3,
            AgentState::YieldingPullover => 4,
            AgentState::YieldingParked => 5,
            AgentState::Replanning => 6,
            AgentState::Blocked => 7,
            AgentState::KinematicReverse => 9,
            AgentState::Charging => 8,
        }
    }

    pub fn from_u8(v: u8) -> (r: Option<Self>)
        ensures
            r == state_of_code(v),
    {
        match v {
            0 => Some(AgentState::Idle),
            1 => Some(AgentState::Planning),
            2 => Some(AgentState::Executing),
            3 => Some(AgentState::Yielding),
            4 => Some(AgentState::YieldingPullover),
            5 => Some(AgentState::YieldingParked),
            6 => Some(AgentState::Replanning),
            7 => Some(AgentState::Blocked),
            8 => Some(AgentState::Charging),
            9 => Some(AgentState::KinematicReverse),
            _ => None,
        }
    }

    /// The state's display name, such as `IDLE` or `YIELDING_PULLOVER`.
    pub fn display_name(&self) -> (r: String)
        ensures
            r@ == state_name(*self),
    {
        match self {
            AgentState::Idle => "IDLE".to_owned(),
            AgentState::Planning => "PLANNING".to_owned(),
            AgentState::Executing => "EXECUTING".to_owned(),
            AgentState::Yielding => "YIELDING".to_owned(),
            AgentState::YieldingPullover => "YIELDING_PULLOVER".to_owned(),
            AgentState::YieldingParked => "YIELDING_PARKED".to_owned(),
            AgentState::Replanning => "REPLANNING".to_owned(),
            AgentState::Blocked => "BLOCKED".to_owned(),
            AgentState::KinematicReverse => "KINEMATIC_REVERSE".to_owned(),
            AgentState::Charging => "CHARGING".to_owned(),
        }
    }
}

/// Decoding the code of a state gives the state back.
pub proof fn lemma_state_code_roundtrip(s: AgentState)
    ensures
        state_of_code(state_code(s)) == Some(s),
{
}

/// Per-agent runtime context of the control loop.
#[derive(Debug)]
pub struct AgentContext {
    pub agent_id: u8,
    pub state: AgentState,
    /// Current cell in the grid.
    pub cell: CellID,
    /// Goal cell of the current task (None when idle).
    pub goal_cell: Option<CellID>,
    /// Identifier of the active task.
    pub task_id: Option<u16>,
    /// Trajectory being followed.
    pub trajectory: Option<Trajectory>,
    /// Index of the next waypoint to execute.
    pub wp_index: usize,
    /// Local tick counter.
    pub tick: Tick,
    /// Yields so far (reset on reaching the goal).
    pub yield_count: u8,
    /// Ticks spent in the current waiting state.
    pub yield_wait: u8,
    /// Planning attempts in the current planning cycle.
    pub plan_attempts: u8,
    /// Battery percentage, 0 to 100.
    pub battery_pct: u8,
    /// Nearest charger cell.
    pub charger_cell: CellID,
}

/// Deterministic jitter seed: the agent id XOR the tick times 2654435761 (mod 2^32).
pub open spec fn jitter_seed(agent_id: u8, tick: Tick) -> u32 {
    (agent_id as u32) ^ (((tick as nat * 2654435761nat) % 0x1_0000_0000nat) as u32)
}

impl AgentContext {
    pub fn new(agent_id: u8, start_cell: CellID, charger_cell: CellID) -> (r: Self)
        ensures
            r.agent_id == agent_id,
            r.state == AgentState::Idle,
            r.cell == start_cell,
            r.goal_cell is None,
            r.task_id is None,
            r.trajectory is None,
            r.wp_index == 0,
            r.tick == 0,
            r.yield_count == 0,
            r.yield_wait == 0,
            r.plan_attempts == 0,
            r.battery_pct == 100,
            r.charger_cell == charger_cell,
    {
        AgentContext {
            agent_id,
            state: AgentState::Idle,
            cell: start_cell,
            goal_cell: None,
            task_id: None,
            trajectory: None,
            wp_index: 0,
            tick: 0,
            yield_count: 0,
            yield_wait: 0,
            plan_attempts: 0,
            battery_pct: 100,
            charger_cell,
        }
    }

    /// Moves to the next state; nothing else changes.
    pub fn transition(&mut self, next: AgentState)
        ensures
            *final(self) == (AgentContext { state: next, ..*old(self) }),
    {
        self.state = next;
    }

    /// More than 10 yields: wait a random time before replanning.
    pub fn needs_random_wait(&self) -> (r: bool)
        ensures
            r == (self.yield_count > 10),
    {
        self.yield_count > 10
    }

    /// More than 25 yields: broadcast an emergency halt.
    pub fn needs_emergency_halt(&self) -> (r: bool)
        ensures
            r == (self.yield_count > 25),
    {
        self.yield_count > 25
    }

    /// A number of ticks in `lo..=hi` drawn from the agent id and the tick.
    pub fn jitter_ticks(&self, lo: Tick, hi: Tick) -> (r: Tick)
        requires
            lo <= hi,
            hi - lo < u32::MAX,
        ensures
            r == lo + (jitter_seed(self.agent_id, self.tick) as int) % (hi - lo + 1),
            lo <= r <= hi,
    {
        let seed: u32 = (self.agent_id as u32) ^ self.tick.wrapping_mul(2654435761);
        let m: u32 = hi - lo + 1;
        lo + seed % m
    }
}

} // verus!

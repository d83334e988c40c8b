//! Decentralized coordination and collision avoidance for a fleet of
//! autonomous mobile robots on a warehouse grid.
//!
//! - `space_time`: cells, ticks, headings, safe intervals, fixed-point numbers,
//!   the priority function and the per-cell reservation table
//! - `planner`: the grid graph, heading costs, the bitset reservation table,
//!   D-SIPP and trajectory segments
//! - `fsm`: the agent state machine and one tick of its control loop
//! - `network`: wire payloads, two-phase trajectory locking, the task auction,
//!   duplicate filtering and rate limiting of the transport, forward error
//!   correction of payloads
//! - `hal`: fixed-point PID control
//! - `sensor`: pose, heading quantization and the localization mode
//! - `tasks`: task announcement bursts and blocked-edge piggybacking
//! - `telemetry`: status snapshots, their pacing and the fleet-wide view
pub mod collections;
pub mod fsm;
pub mod hal;
pub mod network;
pub mod planner;
pub mod sensor;
pub mod space_time;
pub mod tasks;
pub mod telemetry;

pub use fsm::{AgentContext, AgentState};
pub use hal::{CascadedController, PidController};
pub use network::{CnpBidder, CnpManager, TransportLayer};
pub use planner::{SpatialGraph, Trajectory, Waypoint};
pub use sensor::Pose;
pub use space_time::reservation::ReservationTable;
pub use space_time::{CellID, Heading, Q16_16, Q8_8, SafeInterval, Tick};
pub use telemetry::{FleetTelemetry, TelemetryBroadcaster, TelemetrySnapshot};

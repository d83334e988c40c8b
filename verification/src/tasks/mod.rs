//! Task announcement bursts and the blocked-edge piggyback on heartbeats.
pub mod cfp;

//! Space-time path planning: the grid graph, kinematic heading costs, the
//! bitset reservation table and the D-SIPP search.
pub mod graph;
pub mod heading;
pub mod reservation;
pub mod d_sipp;
pub mod segments;

pub use d_sipp::{Trajectory, Waypoint};
pub use graph::SpatialGraph;
pub use heading::{HeadingLookup, KinematicState};
pub use segments::{Segment, SegmentTable};

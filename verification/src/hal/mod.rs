//! Hardware abstraction: fixed-point motion controllers.
pub mod pid;

pub use pid::{CascadedController, PidController};

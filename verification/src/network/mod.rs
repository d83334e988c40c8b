//! Wire payloads, the two-phase trajectory locking protocol and the task auction.
pub mod consensus;
pub mod fec;
pub mod implicit_cnp;
pub mod payloads;
pub mod transport;
pub mod wire;

pub use implicit_cnp::{CnpBidder, CnpManager};
pub use transport::TransportLayer;

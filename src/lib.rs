//! A two-party relay: connections name a room in their request target, the
//! registry pairs up to `CAPACITY` of them per room, and each connection's
//! state machine decides whom to forward to and whom to close.
pub mod connection;
pub mod registry;
pub mod target;

pub use connection::{ConnState, Connection, OpenOutcome};
pub use registry::{JoinResult, RoomRegistry, CAPACITY};
pub use target::room_from_target;

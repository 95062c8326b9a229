//! A decentralized peer-to-peer overlay library: peers discover each other
//! inside named groups, track liveness with TTL-based expiry, and exchange
//! short text messages over unreliable datagrams.
//!
//! The crate provides the binary wire codec for the protocol's messages, the
//! per-group neighbour directory with expiry-based failure detection, and the
//! pure protocol state machine that drives a running peer. Socket I/O,
//! threads and channels live outside the library; every function here is a
//! plain computation from values to values.

pub mod errors;
pub mod addr;
pub mod message;
pub mod directory;
pub mod runtime;
pub mod router;

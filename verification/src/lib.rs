//! Verified core of a floor-sensor streaming system.
//!
//! The system acquires time-stamped, grid-shaped sensor readings — replayed
//! from a recorded log or assembled live from a grid of serial hardware
//! modules — and fans each reading out verbatim to subscribers over a
//! text-message transport and a datagram transport.
//!
//! This crate holds the logic that carries the engineering risk, fully
//! verified: orientation permutations and floor-matrix stitching, the ASCII
//! wire format (decimal parsing and serialization), replay-timing
//! reconstruction, and the broker's connection-pruning broadcast decisions.
//! The I/O itself (sockets, TLS, serial ports, files, clocks) lives outside
//! the library and hands plain values in and out.

pub mod broker;
pub mod errors;
pub mod floor;
pub mod orientation;
pub mod replay;
pub mod wire;

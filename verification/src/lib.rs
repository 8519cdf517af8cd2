//! Core of a single-threaded chat relay: per-connection line framing over a
//! fixed-capacity buffer, a registry of live connections, and best-effort
//! broadcast fan-out decisions. All I/O (accepting connections, readiness
//! waiting, reads and writes) is left to the surrounding program; this crate
//! holds the logic that decides what those reads and writes mean.
use vstd::prelude::*;

pub mod buffer;
pub mod framing;
pub mod server;

verus! {

/// Capacity of each connection's receive buffer. A line longer than this
/// (with no newline) is dropped rather than broadcast.
pub const BUFFER_SIZE: usize = 256;

} // verus!

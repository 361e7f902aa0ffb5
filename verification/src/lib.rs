//! Event-driven server core for a Raft consensus node.
//!
//! The library is the decision-making half of a single-threaded TCP reactor:
//! a bounded connection table keyed by small integer tokens, per-connection
//! framing buffers and outbound queues, a timer registry with replace
//! semantics, and the dispatch rules that turn readiness events, received
//! frames and timer expirations into state updates plus a list of effects
//! (socket registrations, connects, timer arms and cancels, replica
//! deliveries) for an unverified I/O shell to carry out.

use vstd::prelude::*;

pub mod clientmap;
pub mod connection;
pub mod frame;
pub mod idmap;
pub mod preamble;
pub mod server;
pub mod table;
pub mod timer;

verus! {

/// Fault classes visible at the core's boundary.
#[derive(Clone, Copy, Debug, PartialEq, Eq, Structural)]
pub enum Error {
    /// The connection table is full; the offending socket is dropped.
    ConnectionLimitReached,
    /// A network fault, recovered per connection by the I/O shell.
    Io,
    /// A malformed frame or preamble; closes the offending connection.
    Decode,
    /// An internal invariant was violated; the process must abort.
    Fatal,
}

} // verus!

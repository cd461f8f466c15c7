//! Core of a minimal text relay: clients register a nickname, and every
//! message a registered client sends is fanned out to all registered clients.
//!
//! The crate is the sequential heart of such a server. The [`registry`]
//! module keeps the nickname-to-send-handle table with its uniqueness
//! invariant; the [`session`] module is the per-connection state machine
//! that decides, for each inbound transport event, how the registry changes
//! and which messages must be written to which clients. Performing the
//! actual socket reads and writes, spawning one task per connection, and
//! serializing steps under a lock are left to the embedding program: it
//! holds the lock for the whole of each [`session::session_step`] call, so
//! the verified contracts describe exactly one serialized step.
//!
//! The [`laws`] module states and proves the system-wide guarantees:
//! uniqueness of registration, fan-out completeness, and serialized
//! ordering of broadcasts.

pub mod laws;
pub mod registry;
pub mod session;

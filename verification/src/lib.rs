//! Core of an in-memory message-queue broker: named FIFO queues of opaque
//! byte payloads behind a length-prefixed binary wire protocol.
//!
//! The crate verifies the broker's logic: the codec for requests and
//! responses, the queue collection with its single-threaded (unbounded,
//! requeue-to-front) and concurrent (bounded, requeue-to-tail)
//! configurations, the per-connection dispatch loop with request
//! pipelining, the unconfirmed-delivery tracker that races a redelivery
//! timer against client confirmation, and the client-side pipelining
//! bookkeeping. Socket handling, the reactor and timers live outside the
//! library and drive it with plain byte buffers and events.

pub mod msg;
pub mod codec;
pub mod queue;
pub mod error;
pub mod connection;
pub mod client;
pub mod laws;

//! A verified core for a priority-aware, chunk-capable transport client.
//!
//! The crate models the protocol logic of a client that moves binary payloads
//! of arbitrary size to a remote service: oversized payloads are fragmented
//! into tagged chunks that the peer reassembles by id, producers submit
//! payloads through a priority-ordered, capacity-bounded mailbox, and a
//! self-healing pump drains the mailbox into a long-lived outbound stream,
//! retrying after transient failures.
//!
//! Network transport, TLS material, task scheduling and locking are the
//! embedding's concern; this crate holds the data model and every decision
//! rule, each with a proved contract.

pub mod chunk;
pub mod config;
pub mod dequemap;
pub mod error;
pub mod mailbox;
pub mod message;
pub mod pump;
pub mod queue;
pub mod unary;

pub use message::IdGen;
pub use message::Message;

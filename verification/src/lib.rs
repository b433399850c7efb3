//! Peer-to-peer synchronisation of key/value stores.
//!
//! Nodes keep stores of records under fixed-length keys and bring them into
//! agreement pair by pair, without sending what both already hold: ranges
//! of keys are compared by the number of keys in them, cut in two where the
//! numbers differ, and compared key by key once they are small.
//!
//! - [`key`], [`range`]: keys as numbers, ranges of keys and their halves.
//! - [`store`]: an in-memory store with range queries as of a watermark.
//! - [`bisect`], [`cursor`], [`exchange`], [`reconcile`]: the
//!   reconciliation, a budgeted turn at a time; [`pass`] holds its laws.
//! - [`session`], [`peers`]: the life of a connection and the table of
//!   peers.
//! - [`scheduler`]: which reconciliation runs next.
//! - [`frame`], [`service`]: length framing and the answering side of the
//!   protocol.
//! - [`node`]: a store, its peers and their schedule kept in step.
//! - [`random`]: a counter-driven byte generator.
//!
//! Nothing here does I/O or reads a clock: times are handed in, and what is
//! to be sent or told to the host is handed back.

pub mod key;
pub mod range;
pub mod store;
pub mod bisect;
pub mod cursor;
pub mod exchange;
pub mod reconcile;
pub mod pass;
pub mod session;
pub mod peers;
pub mod scheduler;
pub mod frame;
pub mod service;
pub mod node;
pub mod random;

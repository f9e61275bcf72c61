//! A small durable key-value store: an append-only journal of commands behind
//! an in-memory index, with a group-commit pipeline in front of the journal.
//!
//! The library decides and computes; it never touches a file, a lock or a
//! thread. A driver reads the journal and hands its bytes in, takes the bytes
//! to append out, and reports how the write went.
//!
//! - [`command`]: the two mutations, and what a run of them does to a mapping.
//! - [`json`]: JSON string literals, written and read by `serde_json`.
//! - [`record`]: the line of text that stands for one command.
//! - [`journal`]: lines, torn tails, replay.
//! - [`index`]: the in-memory mapping.
//! - [`model`]: the store as a state machine, and the laws of its runs.
//! - [`db`]: the store itself.
//! - [`error`]: what can go wrong.
//! - [`fault`]: fault injection for crash tests.

pub mod command;
pub mod db;
pub mod error;
pub mod fault;
pub mod index;
pub mod journal;
pub mod json;
pub mod model;
pub mod record;

//! A points store: per-channel, per-user unsigned 64-bit counters behind a
//! binary wire protocol, with a snapshot format for durable persistence.
//!
//! The library holds the store itself, the update primitives, the wire codec,
//! the per-connection protocol state machine and the snapshot encoding; the
//! surrounding server (sockets, files, signals) lives outside and hands the
//! library plain values.

pub mod atomic;
pub mod codec;
pub mod common;
pub mod db;
pub mod parse;
pub mod session;
pub mod snapshot;
mod text;
pub mod utils;

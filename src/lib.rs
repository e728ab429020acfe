//! Core of a small in-memory key-value server speaking a subset of RESP:
//! byte framing, the frame decoder and array cursor, the expiring store,
//! the command handlers and the replica side of the replication handshake.
use vstd::prelude::*;

pub mod util;
pub mod data_types;
pub mod store;
pub mod cmds;
pub mod config;
pub mod connection;
pub mod handshake;

verus! {

} // verus!

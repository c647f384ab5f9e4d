//! A verified core for a small object-store server: the binary wire protocol
//! (validate, decode, encode), the request field parser, and the sharded
//! in-memory key-value store. Transport I/O lives outside this crate and
//! exchanges plain byte buffers and messages with it.
pub mod client_model;
pub mod connection;
pub mod message;
pub mod models;
pub mod operations;
pub mod parser;
pub mod sharded_db;
pub mod wire;

use vstd::prelude::*;

verus! {

} // verus!

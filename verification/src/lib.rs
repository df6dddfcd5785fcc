//! A small Redis-compatible server's logic: reading requests and carrying
//! out their commands against a key-value store, and the replication link
//! by which a replica follows its master.
//!
//! - `command`: requests, commands, their replies and their effect on the store.
//! - `store`: the key-value store.
//! - `lines`: request text split into lines.
//! - `resp`: reading the RESP messages that a master streams.
//! - `replica`: the replica's side of the replication link.
//! - `handshake`: a replica's setup and handshake with its master.
//! - `transfer`: the snapshot a master sends to a new replica.
//! - `config`: command-line configuration.
//! - `text`: numbers and strings as the protocol reads and writes them.
//! - `laws`: properties that hold across these operations.

pub mod command;
pub mod config;
pub mod handshake;
pub mod laws;
pub mod lines;
pub mod replica;
pub mod resp;
pub mod store;
pub mod text;
pub mod transfer;

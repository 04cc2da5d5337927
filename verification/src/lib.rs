//! Persistent state machine core of a durable key-value service.
//!
//! A stream of mutations is given consecutive epochs, journaled as
//! length-prefixed blobs, applied in epoch order to a pluggable [`Machine`],
//! and periodically dumped into snapshots that bound both recovery time and
//! journal growth. Nothing here touches the file system or a channel: every
//! function maps plain values to plain values, and the effects it asks for
//! (bytes to append, files to create or remove, replies to deliver) come back
//! as data for the caller to carry out.
//!
//! [`Machine`]: machine_service::Machine

pub mod config;
pub mod directory_journal;
pub mod directory_snapshot_storage;
pub mod errors;
pub mod journal_service;
pub mod laws;
pub mod machine_service;
pub mod proto;
pub mod server;
pub mod snapshot_service;
pub mod storage_machine;
pub mod util;
pub mod wire;


//! A log-structured key-value store.
//!
//! Every change of the store is a record at the end of a log; an index in
//! memory says where the value of each key stands; compaction copies what is
//! live into a new log when too much of the logs has become useless. The
//! store works on the logs as bytes in memory, and journals each change it
//! makes to them, so that a program can keep the files of a directory in
//! step.

pub mod accounting;
pub mod cli;
pub mod client;
pub mod codec;
pub mod command;
pub mod consistency;
pub mod engine;
pub mod error;
pub mod index;
pub mod laws;
pub mod log_dir;
pub mod model;
pub mod naming;
pub mod protocol;
pub mod replay;
pub mod server;
pub mod sled_adapter;
pub mod store;

pub use crate::engine::KvsEngine;
pub use crate::error::KvsError;
pub use crate::store::KvStore;

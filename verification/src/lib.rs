//! Core of a distributed time-series storage engine: write-ahead-log (WAL)
//! replay, which rebuilds in-memory table state at startup, and the cluster
//! shard-lifecycle subsystem, which decides which tables a node owns and
//! guards that ownership with leased locks.
//!
//! The verified model works on plain values: WAL entries, table state and
//! coordinator responses are data handed in by the surrounding process, and
//! every state change the engine performs on them is specified and proved
//! here. Network and disk I/O (the etcd coordinator, the meta RPC channel,
//! the physical log) live outside this crate and hand their results in as
//! arguments.

pub mod cluster;
pub mod config;
pub mod errors;
pub mod memtable;
pub mod replay;
pub mod shard_lock;
pub mod shard_set;
pub mod table;
pub mod topology;
pub mod wal;

pub use errors::Error;

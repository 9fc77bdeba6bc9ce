//! A sharded metrics store whose writes are ordered by a replicated log.
//!
//! * [`partitioning`] maps a metric name to the shard that owns it.
//! * [`raft`] holds the per-replica log store, the node driver that runs
//!   leader election and log replication, and one turn of the replication
//!   loop.
//! * [`metrics`] is the state machine that committed operations are applied to.
//! * [`api`], [`error`] and [`models`] hold what the request routing layer
//!   shares with the core.

pub mod api;
pub mod error;
pub mod metrics;
pub mod models;
pub mod partitioning;
pub mod raft;

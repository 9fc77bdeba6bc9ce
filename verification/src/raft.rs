//! The consensus replication engine of one shard replica: the log entries and
//! durable records it works on, the log store, and the node driver.

pub mod confchange;
pub mod driver;
pub mod entry;
pub mod log;
pub mod message;
pub mod model;
pub mod node;
pub mod storage;

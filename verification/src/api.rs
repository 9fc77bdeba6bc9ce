//! What the request routing layer asks of the core.

pub mod control;
pub mod worker;

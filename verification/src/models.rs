//! Plain records that the store exchanges with its callers.

use vstd::prelude::*;

verus! {

/// The answer to a computation.
#[derive(Debug)]
pub struct ComputeResponse {
    pub result: String,
}

/// A question about one metric over a stretch of time.
#[derive(Debug)]
pub struct MetricQuery {
    pub metric_name: String,
    pub start_time: i64,
    pub end_time: i64,
    pub aggregation: String,
}

impl MetricQuery {
    /// Whether the stretch of time is one: it does not end before it begins.
    pub open spec fn spec_is_ordered(&self) -> bool {
        self.start_time <= self.end_time
    }

    /// Whether the stretch of time is one: it does not end before it begins.
    pub fn is_ordered(&self) -> (ordered: bool)
        ensures
            ordered == self.spec_is_ordered(),
    {
        self.start_time <= self.end_time
    }
}

} // verus!

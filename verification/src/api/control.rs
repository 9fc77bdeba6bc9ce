//! The control node's share of routing: which worker owns a metric.

use crate::error::joined;
use crate::partitioning::{get_partition, key_digest, shard_for};
use vstd::prelude::*;

verus! {

/// What the control node answers to a write.
#[derive(Debug)]
pub struct MetricResponse {
    pub success: bool,
    pub message: String,
}

/// Whether a text begins with another.
pub open spec fn begins_with(text: Seq<char>, prefix: Seq<char>) -> bool {
    prefix.len() <= text.len() && text.subrange(0, prefix.len() as int) == prefix
}

/// Calls the standard library's `str::starts_with` with a text as pattern.
///
/// Trusted: the result is taken to say whether the characters of `prefix`
/// are the first characters of `text`.
#[verifier::external_body]
fn starts_with(text: &str, prefix: &str) -> (found: bool)
    ensures
        found == begins_with(text@, prefix@),
{
    text.starts_with(prefix)
}

/// The address of a worker as a URL: a host that names no scheme is reached
/// over `http`.
pub open spec fn spec_worker_url(host: Seq<char>) -> Seq<char> {
    if begins_with(host, "http://"@) {
        host
    } else {
        "http://"@ + host
    }
}

/// The address of a worker as a URL: a host that names no scheme is reached
/// over `http`.
pub fn normalize_worker_url(host: &str) -> (url: String)
    ensures
        url@ == spec_worker_url(host@),
{
    if starts_with(host, "http://") {
        host.to_owned()
    } else {
        joined("http://", host)
    }
}

/// The position, among `worker_count` workers, of the worker that owns a
/// metric; nothing when there are no workers.
pub open spec fn spec_worker_for(metric_name: Seq<char>, worker_count: nat) -> Option<nat> {
    if worker_count == 0 {
        None
    } else {
        Some(shard_for(key_digest(metric_name), worker_count))
    }
}

/// The position, in `worker_urls`, of the worker that owns a metric; nothing
/// when there are no workers.
pub fn worker_for(metric_name: &str, worker_urls: &Vec<String>) -> (position: Option<usize>)
    ensures
        position is Some <==> worker_urls.len() > 0,
        position matches Some(p) ==> p < worker_urls.len() && Some(p as nat) == spec_worker_for(
            metric_name@,
            worker_urls.len() as nat,
        ),
{
    let worker_count: usize = worker_urls.len();
    if worker_count == 0 {
        return None;
    }
    Some(get_partition(metric_name, worker_count))
}

} // verus!

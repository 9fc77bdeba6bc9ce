//! The worker node's share of starting a replica: the ids of the shard's
//! replicas.

use vstd::prelude::*;

verus! {

/// The ids of a shard's replicas, given how many addresses the cluster
/// names: the replica at the first address has id one, and so on.
pub fn replica_ids(address_count: usize) -> (ids: Vec<u64>)
    ensures
        ids.len() == address_count,
        forall|i: int| 0 <= i < ids.len() ==> ids[i] == i + 1,
{
    let mut ids: Vec<u64> = Vec::new();
    let mut i: usize = 0;
    while i < address_count
        invariant
            i <= address_count,
            ids.len() == i,
            forall|k: int| 0 <= k < i ==> ids[k] == k + 1,
        decreases address_count - i,
    {
        ids.push(i as u64 + 1);
        i = i + 1;
    }
    ids
}

} // verus!

//! Plain modulo placement of metric names on shards.
//!
//! The low 32 bits of a key's digest are reduced modulo the shard count. The
//! placement is uniform but not remap-stable: when the shard count changes,
//! most keys change their shard. Prefer the jump-consistent placement of the
//! parent module wherever shards may be added.

use crate::partitioning::{hash_key, key_digest};
use vstd::prelude::*;

verus! {

/// The shard of a digest among `num_shards` shards under modulo placement:
/// the low 32 bits of the digest modulo the shard count, and zero when there
/// are no shards.
pub open spec fn modulo_shard(digest: u64, num_shards: nat) -> nat {
    if num_shards == 0 {
        0
    } else {
        ((digest as nat % 0x1_0000_0000) % num_shards) as nat
    }
}

/// Reduces a digest modulo the shard count.
///
/// Returns zero when `buckets` is zero.
pub fn modulo_hash(digest: u64, buckets: usize) -> (shard: usize)
    ensures
        shard == modulo_shard(digest, buckets as nat),
        buckets > 0 ==> shard < buckets,
{
    if buckets == 0 {
        return 0;
    }
    let low: u64 = digest & 0xFFFF_FFFF;
    assert(low == digest % 0x1_0000_0000) by (bit_vector)
        requires
            low == digest & 0xFFFF_FFFF,
    ;
    let low_word: usize = low as usize;
    low_word % buckets
}

/// The shard that owns a key under modulo placement.
///
/// Deterministic: the result is a function of the key's digest and the shard
/// count. With no shards at all the result is zero.
pub fn get_partition(key: &str, num_partitions: usize) -> (partition: usize)
    ensures
        partition == modulo_shard(key_digest(key@), num_partitions as nat),
        num_partitions > 0 ==> partition < num_partitions,
        num_partitions == 0 ==> partition == 0,
{
    if num_partitions == 0 {
        return 0;
    }
    let digest = hash_key(key);
    modulo_hash(digest, num_partitions)
}

} // verus!

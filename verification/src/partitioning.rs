//! Jump-consistent placement of metric names on shards.
//!
//! A key is first reduced to a 64-bit digest by the standard library's default
//! hasher, and the digest is then walked through the jump-consistent-hash
//! recurrence. The recurrence is evaluated in exact integer arithmetic, so its
//! result is a mathematical function of the digest and the shard count, and
//! growing the shard count by one moves a key only onto the new shard.

use std::collections::hash_map::DefaultHasher;
use std::hash::Hasher;
use vstd::prelude::*;
use vstd::std_specs::hash::DefaultHasherAdditionalSpecFns;

pub mod modulo;

verus! {

/// Multiplier of the linear congruential step that drives the jump sequence.
pub const JUMP_MULTIPLIER: u64 = 2862933555777941757;

/// Numerator of the jump ratio: two to the power 31.
pub const JUMP_SCALE: u64 = 0x8000_0000;

/// The byte that closes a key in the hashed stream, so that no key is a prefix
/// of another.
pub const KEY_TERMINATOR: u8 = 0xff;

/// The digest of a key: what the default hasher returns after it was fed the
/// key's UTF-8 bytes followed by [`KEY_TERMINATOR`].
pub open spec fn key_digest(key: Seq<char>) -> u64 {
    DefaultHasher::spec_finish(seq![vstd::utf8::encode_utf8(key), seq![KEY_TERMINATOR]])
}

/// One step of the linear congruential generator, modulo two to the power 64.
pub open spec fn next_key(key: u64) -> u64 {
    ((key as int * JUMP_MULTIPLIER as int + 1) % 0x1_0000_0000_0000_0000) as u64
}

/// The bucket that the sequence jumps to from `bucket` under the generator
/// state `key`: `floor((bucket + 1) * 2^31 / ((key >> 33) + 1))`.
pub open spec fn jump_target(bucket: int, key: u64) -> int {
    ((bucket + 1) * (JUMP_SCALE as int)) / ((key as int / 0x2_0000_0000) + 1)
}

/// How many buckets lie at or beyond `candidate`, of `buckets` in all.
pub open spec fn buckets_left(candidate: int, buckets: int) -> nat {
    if candidate < buckets {
        (buckets - candidate) as nat
    } else {
        0
    }
}

/// The last bucket below `buckets` that the jump sequence visits, when it
/// stands at `current`, is about to visit `candidate`, and the generator is in
/// state `key`.
pub open spec fn jump_from(key: u64, current: int, candidate: int, buckets: int) -> int
    decreases buckets_left(candidate, buckets),
    when candidate >= 0
    via jump_from_decreases
{
    if candidate < buckets {
        let k = next_key(key);
        jump_from(k, candidate, jump_target(candidate, k), buckets)
    } else {
        current
    }
}

#[via_fn]
proof fn jump_from_decreases(key: u64, current: int, candidate: int, buckets: int) {
    if candidate < buckets {
        lemma_jump_advances(candidate, next_key(key));
    }
}

/// The shard of a digest among `num_shards` shards; zero when there are none.
pub open spec fn shard_for(digest: u64, num_shards: nat) -> nat {
    if num_shards == 0 {
        0
    } else {
        jump_from(digest, -1, 0, num_shards as int) as nat
    }
}

/// A jump always moves forward: the target lies strictly beyond the bucket it
/// starts from.
pub proof fn lemma_jump_advances(bucket: int, key: u64)
    requires
        bucket >= -1,
    ensures
        jump_target(bucket, key) > bucket,
{
    let d = (key as int / 0x2_0000_0000) + 1;
    let s = JUMP_SCALE as int;
    assert(1 <= d <= s);
    let num = (bucket + 1) * s;
    assert(num >= (bucket + 1) * d) by (nonlinear_arith)
        requires
            bucket + 1 >= 0,
            1 <= d <= s,
            num == (bucket + 1) * s,
    ;
    assert(num / d >= bucket + 1) by (nonlinear_arith)
        requires
            num >= (bucket + 1) * d,
            d >= 1,
    ;
}

/// The walk ends on a bucket that it has visited: one below `buckets`, and at
/// least the one it stands on.
pub proof fn lemma_jump_from_bounds(key: u64, current: int, candidate: int, buckets: int)
    requires
        -1 <= current < candidate,
        current < buckets,
    ensures
        current <= jump_from(key, current, candidate, buckets) < buckets,
        candidate < buckets ==> candidate <= jump_from(key, current, candidate, buckets),
    decreases buckets_left(candidate, buckets),
{
    if candidate < buckets {
        let k = next_key(key);
        lemma_jump_advances(candidate, k);
        lemma_jump_from_bounds(k, candidate, jump_target(candidate, k), buckets);
    }
}

/// With one more bucket the walk ends where it ended before, or on the new
/// bucket.
pub proof fn lemma_jump_from_growth(key: u64, current: int, candidate: int, buckets: int)
    requires
        -1 <= current < candidate,
        current < buckets,
    ensures
        jump_from(key, current, candidate, buckets + 1) == jump_from(
            key,
            current,
            candidate,
            buckets,
        ) || jump_from(key, current, candidate, buckets + 1) == buckets,
    decreases buckets_left(candidate, buckets),
{
    let k = next_key(key);
    if candidate < buckets {
        lemma_jump_advances(candidate, k);
        lemma_jump_from_growth(k, candidate, jump_target(candidate, k), buckets);
    } else if candidate == buckets {
        lemma_jump_advances(candidate, k);
        let t = jump_target(candidate, k);
        assert(jump_from(k, candidate, t, buckets + 1) == candidate);
    }
}

/// Adding one to a number adds one to its residue modulo two to the power 64,
/// and wraps the largest residue round to zero.
proof fn lemma_successor_residue(x: int)
    requires
        x >= 0,
    ensures
        (x + 1) % 0x1_0000_0000_0000_0000 == if x % 0x1_0000_0000_0000_0000
            == 0xffff_ffff_ffff_ffff {
            0
        } else {
            x % 0x1_0000_0000_0000_0000 + 1
        },
{
}

/// The generator step is a wrapping multiplication followed by a wrapping
/// increment.
pub proof fn lemma_next_key_wraps(key: u64)
    ensures
        key.wrapping_mul(JUMP_MULTIPLIER).wrapping_add(1) == next_key(key),
{
    let product: int = key as int * JUMP_MULTIPLIER as int;
    assert(product >= 0 && product == key as nat * JUMP_MULTIPLIER as nat) by (nonlinear_arith)
        requires
            product == key as int * JUMP_MULTIPLIER as int,
            key >= 0,
            JUMP_MULTIPLIER >= 0,
    ;
    lemma_successor_residue(product);
    let wrapped: u64 = key.wrapping_mul(JUMP_MULTIPLIER);
    assert(wrapped == product % 0x1_0000_0000_0000_0000);
}

/// Every digest is placed on one of the shards there are.
pub proof fn lemma_shard_in_range(digest: u64, num_shards: nat)
    requires
        num_shards > 0,
    ensures
        shard_for(digest, num_shards) < num_shards,
{
    lemma_jump_from_bounds(digest, -1, 0, num_shards as int);
}

/// Remap stability: when a shard is added to `num_shards >= 1` shards, a key
/// either keeps its shard or moves to the shard that was added. No key moves
/// between two shards that existed before.
pub proof fn lemma_growth_moves_only_to_new_shard(digest: u64, num_shards: nat)
    requires
        num_shards > 0,
    ensures
        shard_for(digest, num_shards + 1) == shard_for(digest, num_shards) || shard_for(
            digest,
            num_shards + 1,
        ) == num_shards,
{
    lemma_jump_from_bounds(digest, -1, 0, num_shards as int);
    lemma_jump_from_bounds(digest, -1, 0, num_shards as int + 1);
    lemma_jump_from_growth(digest, -1, 0, num_shards as int);
}

/// Feeds a key to a fresh default hasher and returns the digest.
pub fn hash_key(key: &str) -> (digest: u64)
    ensures
        digest == key_digest(key@),
{
    let mut hasher = DefaultHasher::new();
    hasher.write(key.as_bytes());
    let terminator: [u8; 1] = [KEY_TERMINATOR];
    let closing = terminator.as_slice();
    assert(closing@ =~= seq![KEY_TERMINATOR]);
    hasher.write(closing);
    assert(hasher@ =~= seq![vstd::utf8::encode_utf8(key@), seq![KEY_TERMINATOR]]);
    hasher.finish()
}

/// Advances the generator and computes the bucket that the walk jumps to
/// from `landed`.
fn jump_step(landed: usize, key: u64) -> (step: (u64, u128))
    ensures
        step.0 == next_key(key),
        step.1 == jump_target(landed as int, step.0),
        step.1 > landed,
{
    let advanced: u64 = key.wrapping_mul(JUMP_MULTIPLIER).wrapping_add(1);
    let shifted: u64 = advanced >> 33;
    proof {
        lemma_next_key_wraps(key);
        assert(shifted == advanced / 0x2_0000_0000 && shifted < 0x8000_0000) by (bit_vector)
            requires
                shifted == advanced >> 33,
        ;
        lemma_jump_advances(landed as int, advanced);
        assert((landed + 1) * 0x8000_0000 < 0x1_0000_0000_0000_0000_0000_0000_0000) by (nonlinear_arith)
            requires
                0 <= landed < 0x1_0000_0000_0000_0000,
        ;
    }
    let divisor: u128 = shifted as u128 + 1;
    let numerator: u128 = (landed as u128 + 1) * 0x8000_0000u128;
    (advanced, numerator / divisor)
}

/// Places a digest on one of `buckets` shards by jump-consistent hashing.
///
/// Returns zero when `buckets` is zero.
pub fn jump_hash(digest: u64, buckets: usize) -> (shard: usize)
    ensures
        shard == shard_for(digest, buckets as nat),
        buckets > 0 ==> shard < buckets,
{
    if buckets == 0 {
        return 0;
    }
    let n: u128 = buckets as u128;
    let mut key: u64 = digest;
    let mut shard: usize = 0;
    let mut candidate: u128 = 0;
    let ghost mut current: int = -1;
    while candidate < n
        invariant
            n == buckets,
            -1 <= current < candidate,
            current < n,
            current >= 0 ==> shard == current,
            jump_from(key, current, candidate as int, n as int) == jump_from(
                digest,
                -1,
                0,
                n as int,
            ),
        decreases buckets_left(candidate as int, n as int),
    {
        let landed: usize = candidate as usize;
        let step = jump_step(landed, key);
        proof {
            assert(jump_from(key, current, landed as int, n as int) == jump_from(
                step.0,
                landed as int,
                step.1 as int,
                n as int,
            ));
            current = landed as int;
        }
        key = step.0;
        candidate = step.1;
        shard = landed;
    }
    proof {
        lemma_jump_from_bounds(digest, -1, 0, n as int);
    }
    shard
}

/// The shard that owns a metric name.
///
/// Deterministic: the result is a function of the name's digest and the shard
/// count. With no shards at all the result is zero.
pub fn get_partition(metric_name: &str, num_partitions: usize) -> (partition: usize)
    ensures
        partition == shard_for(key_digest(metric_name@), num_partitions as nat),
        num_partitions > 0 ==> partition < num_partitions,
        num_partitions == 0 ==> partition == 0,
{
    if num_partitions == 0 {
        return 0;
    }
    let digest = hash_key(metric_name);
    jump_hash(digest, num_partitions)
}

} // verus!

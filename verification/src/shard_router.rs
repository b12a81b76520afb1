//! Key-to-shard assignment: a key is owned by the shard at `hash(key) mod N`.
//! The hash comes from `ahash`; its keys are drawn once per process, so the
//! assignment is stable for the process lifetime but nothing can be said of
//! the hash value itself. The reduction modulo the shard count is verified.

use vstd::prelude::*;

verus! {

/// Relies on `ahash::AHasher` (its `Default` and `std::hash::Hasher` impls):
/// hashes the key bytes to 64 bits. The hasher's keys are generated once per
/// process, so nothing is stated of the value.
#[verifier::external_body]
fn hash_key(key: &Vec<u8>) -> u64 {
    let mut hasher = ahash::AHasher::default();
    std::hash::Hash::hash(key.as_slice(), &mut hasher);
    std::hash::Hasher::finish(&hasher)
}

/// The shard owning a hash: the hash reduced modulo the shard count. This is
/// a pure function of the hash and the count, so equal hashes always land on
/// the same shard.
pub fn shard_of_hash(hash: u64, num_shards: usize) -> (shard: usize)
    requires
        num_shards > 0,
    ensures
        shard == hash as int % num_shards as int,
{
    (hash % (num_shards as u64)) as usize
}

/// The shard owning a key: its hash reduced modulo the shard count. The
/// result is always a valid shard index.
pub fn shard_for_key(key: &Vec<u8>, num_shards: usize) -> (shard: usize)
    requires
        num_shards > 0,
    ensures
        shard < num_shards,
{
    let hash = hash_key(key);
    shard_of_hash(hash, num_shards)
}

} // verus!

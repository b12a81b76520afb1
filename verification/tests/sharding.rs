use rdkv::shard_router::shard_for_key;
use rdkv::shard_router::shard_of_hash;

#[test]
fn shard_index_is_stable_for_a_key() {
    let key = b"hot-key".to_vec();
    let first = shard_for_key(&key, 6);
    for _ in 0..100 {
        assert_eq!(shard_for_key(&key, 6), first);
    }
}

#[test]
fn shard_index_is_in_range() {
    for n in 1..=16usize {
        for i in 0..64u8 {
            let key = vec![i, i.wrapping_mul(7), b'k'];
            assert!(shard_for_key(&key, n) < n);
        }
    }
}

#[test]
fn shard_of_hash_is_the_hash_modulo_the_count() {
    assert_eq!(shard_of_hash(0, 6), 0);
    assert_eq!(shard_of_hash(13, 6), 1);
    assert_eq!(shard_of_hash(u64::MAX, 6), (u64::MAX % 6) as usize);
    assert_eq!(shard_of_hash(12345, 1), 0);
}

#[test]
fn equal_keys_land_on_the_same_shard() {
    let a = b"same".to_vec();
    let b = b"same".to_vec();
    assert_eq!(shard_for_key(&a, 6), shard_for_key(&b, 6));
}

use kulupu_pow::{ResourceCache, CACHE_CAPACITY, H256};

fn key(byte: u8) -> H256 {
    H256::from_bytes([byte; 32])
}

#[test]
fn new_cache_is_empty() {
    let mut cache = ResourceCache::new();
    assert_eq!(cache.len(), 0);
    assert_eq!(cache.lookup(&key(1)), None);
    assert_eq!(cache.len(), 0);
}

#[test]
fn capacity_is_two() {
    assert_eq!(CACHE_CAPACITY, 2);
}

#[test]
fn insert_then_lookup_finds_the_dataset() {
    let mut cache = ResourceCache::new();
    assert_eq!(cache.insert(&key(1), 10), None);
    assert_eq!(cache.len(), 1);
    assert_eq!(cache.lookup(&key(1)), Some(10));
    assert_eq!(cache.lookup(&key(1)), Some(10));
    assert_eq!(cache.lookup(&key(2)), None);
    assert_eq!(cache.len(), 1);
}

#[test]
fn cache_never_exceeds_capacity() {
    let mut cache = ResourceCache::new();
    for i in 0..50u8 {
        cache.insert(&key(i), u64::from(i));
        assert!(cache.len() <= CACHE_CAPACITY);
        if i >= 1 {
            assert_eq!(cache.len(), 2);
        }
    }
}

#[test]
fn third_key_evicts_least_recently_used() {
    let mut cache = ResourceCache::new();
    assert_eq!(cache.insert(&key(1), 10), None);
    assert_eq!(cache.insert(&key(2), 20), None);
    assert_eq!(cache.insert(&key(3), 30), Some((key(1), 10)));
    assert_eq!(cache.len(), 2);
    assert_eq!(cache.lookup(&key(1)), None);
    assert_eq!(cache.lookup(&key(2)), Some(20));
    assert_eq!(cache.lookup(&key(3)), Some(30));
}

#[test]
fn lookup_refreshes_recency() {
    let mut cache = ResourceCache::new();
    cache.insert(&key(1), 10);
    cache.insert(&key(2), 20);
    assert_eq!(cache.lookup(&key(1)), Some(10));
    assert_eq!(cache.insert(&key(3), 30), Some((key(2), 20)));
    assert_eq!(cache.lookup(&key(2)), None);
    assert_eq!(cache.lookup(&key(1)), Some(10));
    assert_eq!(cache.lookup(&key(3)), Some(30));
}

#[test]
fn missed_lookup_does_not_change_recency() {
    let mut cache = ResourceCache::new();
    cache.insert(&key(1), 10);
    cache.insert(&key(2), 20);
    assert_eq!(cache.lookup(&key(9)), None);
    assert_eq!(cache.insert(&key(3), 30), Some((key(1), 10)));
}

#[test]
fn insert_under_a_held_key_replaces_its_dataset() {
    let mut cache = ResourceCache::new();
    cache.insert(&key(1), 10);
    cache.insert(&key(2), 20);
    assert_eq!(cache.insert(&key(1), 11), Some((key(1), 10)));
    assert_eq!(cache.len(), 2);
    // Key 1 is now the most recently used, so key 2 leaves next.
    assert_eq!(cache.insert(&key(3), 30), Some((key(2), 20)));
    assert_eq!(cache.lookup(&key(1)), Some(11));
}

#[test]
fn evicted_key_can_come_back() {
    let mut cache = ResourceCache::new();
    cache.insert(&key(1), 10);
    cache.insert(&key(2), 20);
    cache.insert(&key(3), 30);
    assert_eq!(cache.lookup(&key(1)), None);
    assert_eq!(cache.insert(&key(1), 40), Some((key(2), 20)));
    assert_eq!(cache.lookup(&key(1)), Some(40));
}

#[test]
fn keys_differing_in_one_byte_are_distinct() {
    let mut a = [0u8; 32];
    let mut b = [0u8; 32];
    a[31] = 1;
    b[31] = 2;
    let mut cache = ResourceCache::new();
    cache.insert(&H256::from_bytes(a), 1);
    assert_eq!(cache.lookup(&H256::from_bytes(b)), None);
    assert_eq!(cache.lookup(&H256::from_bytes(a)), Some(1));
    assert!(H256::from_bytes(a) != H256::from_bytes(b));
    assert_eq!(H256::zero(), H256::from_bytes([0u8; 32]));
    assert_eq!(H256::from_bytes(a).as_bytes(), &a);
}

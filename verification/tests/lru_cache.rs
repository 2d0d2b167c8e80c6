use concurrency_kit::lru_cache::{Cache, LRUCache};
use std::sync::Arc;

const SECOND: u64 = 1_000;

#[test]
fn test_basic_put_get() {
    let mut cache = LRUCache::new(2);
    let data = Arc::new(vec![1, 2, 3]);
    cache.put("key1", Arc::clone(&data), SECOND, 0);
    assert_eq!(cache.get("key1", 0), Some(data));
}

#[test]
fn test_expiration() {
    let mut cache = LRUCache::new(2);
    let data = Arc::new(vec![1, 2, 3]);
    cache.put("key1", Arc::clone(&data), 10, 0);
    assert_eq!(cache.get("key1", 20), None);
}

#[test]
fn test_lru_eviction() {
    let mut cache = LRUCache::new(2);
    cache.put("key1", Arc::new(vec![1]), 10 * SECOND, 0);
    cache.put("key2", Arc::new(vec![2]), 10 * SECOND, 1);

    // Access key1 to make key2 the least recently used
    cache.get("key1", 2);

    // This should evict key2
    cache.put("key3", Arc::new(vec![3]), 10 * SECOND, 3);

    assert!(cache.get("key1", 4).is_some());
    assert!(cache.get("key2", 4).is_none());
    assert!(cache.get("key3", 4).is_some());
}

#[test]
fn test_evict_expired_first() {
    let mut cache = LRUCache::new(2);
    cache.put("key1", Arc::new(vec![1]), 10, 0);
    cache.put("key2", Arc::new(vec![2]), 10 * SECOND, 1);

    // key1 is expired. Even if it was used last, it should be removed first.
    cache.put("key3", Arc::new(vec![3]), 10 * SECOND, 20);

    assert!(cache.get("key1", 21).is_none());
    assert!(cache.get("key2", 21).is_some());
    assert!(cache.get("key3", 21).is_some());
}

#[test]
fn updating_a_key_evicts_nothing() {
    let mut cache = LRUCache::new(2);
    cache.put("a", Arc::new(vec![1]), SECOND, 0);
    cache.put("b", Arc::new(vec![2]), SECOND, 1);
    cache.put("a", Arc::new(vec![9]), SECOND, 2);
    assert_eq!(cache.get("a", 3), Some(Arc::new(vec![9])));
    assert_eq!(cache.get("b", 3), Some(Arc::new(vec![2])));
}

#[test]
fn an_entry_expires_at_its_deadline() {
    let mut cache = LRUCache::new(1);
    cache.put("a", Arc::new(vec![1]), 5, 10);
    assert!(cache.get("a", 14).is_some());
    assert!(cache.get("a", 15).is_none());
}

#[test]
fn a_cache_of_size_zero_keeps_the_last_key() {
    let mut cache = LRUCache::new(0);
    cache.put("a", Arc::new(vec![1]), SECOND, 0);
    assert!(cache.get("a", 1).is_some());
    cache.put("b", Arc::new(vec![2]), SECOND, 2);
    assert!(cache.get("a", 3).is_none());
    assert!(cache.get("b", 3).is_some());
}

#[test]
fn reading_refreshes_recency() {
    let mut cache = LRUCache::new(3);
    cache.put("a", Arc::new(vec![1]), SECOND, 0);
    cache.put("b", Arc::new(vec![2]), SECOND, 1);
    cache.put("c", Arc::new(vec![3]), SECOND, 2);
    cache.get("a", 3);
    cache.get("b", 4);
    cache.put("d", Arc::new(vec![4]), SECOND, 5);
    assert!(cache.get("c", 6).is_none());
    assert!(cache.get("a", 6).is_some());
    assert!(cache.get("b", 6).is_some());
    assert!(cache.get("d", 6).is_some());
}

#[test]
fn of_entries_read_equally_long_ago_the_smallest_key_goes() {
    let mut cache = LRUCache::new(2);
    cache.put("zeta", Arc::new(vec![1]), SECOND, 5);
    cache.put("alpha", Arc::new(vec![2]), SECOND, 5);
    cache.put("mid", Arc::new(vec![3]), SECOND, 6);
    assert!(cache.get("alpha", 7).is_none());
    assert!(cache.get("zeta", 7).is_some());
    assert!(cache.get("mid", 7).is_some());
}

#[test]
fn keys_are_ordered_by_their_bytes() {
    let mut cache = LRUCache::new(2);
    cache.put("b", Arc::new(vec![1]), SECOND, 0);
    cache.put("B", Arc::new(vec![2]), SECOND, 0);
    cache.put("c", Arc::new(vec![3]), SECOND, 1);
    assert!(cache.get("B", 2).is_none());
    assert!(cache.get("b", 2).is_some());
}

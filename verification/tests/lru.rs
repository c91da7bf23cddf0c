use std::sync::{Arc, Mutex};
use vnscope::lru::LruCache;

#[test]
fn test_lru_cache() {
    let mut cache = LruCache::new(2);
    cache.put(1, 10);
    cache.put(2, 20);
    assert_eq!(cache.get(&1), Some(10)); // Access 1, making it most recent
    assert_eq!(cache.get(&2), Some(20));
    cache.put(3, 30); // Cache full, evicts 1 (LRU)
    assert_eq!(cache.get(&1), None);
    assert_eq!(cache.get(&2), Some(20)); // Access 2
    assert_eq!(cache.get(&3), Some(30));
    cache.put(4, 40);
    assert_eq!(cache.get(&1), None);
    assert_eq!(cache.get(&2), None); // 2 is evicted
    assert_eq!(cache.get(&3), Some(30)); // Access 3
    assert_eq!(cache.get(&4), Some(40));
    cache.put(2, 20); // put 2 again, 3 is evicted
    assert_eq!(cache.get(&1), None);
    assert_eq!(cache.get(&3), None); // Access 3 fails
    assert_eq!(cache.get(&4), Some(40));
    assert_eq!(cache.get(&2), Some(20)); // Access 2
    cache.put(5, 50); // Cache is full, should evict 4
    assert_eq!(cache.get(&1), None);
    assert_eq!(cache.get(&3), None); // 3 is evicted
    assert_eq!(cache.get(&4), None); // 4 is evicted
    assert_eq!(cache.get(&2), Some(20));
    assert_eq!(cache.get(&5), Some(50));
    cache.put(1, 10); // Cache full, will evict 2
    assert_eq!(cache.get(&4), None); // 4 gets evicted
    assert_eq!(cache.get(&1), Some(10));
    assert_eq!(cache.get(&2), None); // 2 is evicted
    assert_eq!(cache.get(&5), Some(50));
}

#[test]
fn test_empty_cache() {
    let mut cache = LruCache::new(0);
    cache.put(1, 10);
    assert_eq!(cache.get(&1), None);
}

#[test]
fn test_update_existing_key() {
    let mut cache = LruCache::new(2);
    cache.put(1, 10);
    cache.put(1, 20);
    assert_eq!(cache.get(&1), Some(20));
    assert_eq!(cache.len(), 1); // Check that we still only have one entry for key 1
}

#[test]
fn test_lru_cache_remove_last() {
    let mut cache = LruCache::new(2);
    cache.put(1, 10);
    cache.put(2, 20);
    cache.put(3, 30); // Evict 1, check self.last
    assert_eq!(cache.get(&1), None);
    assert_eq!(cache.get(&2), Some(20));
    assert_eq!(cache.get(&3), Some(30));
}

#[test]
fn put_answers_false_only_for_zero_capacity() {
    let mut empty: LruCache<i64, i64> = LruCache::new(0);
    assert!(!empty.put(7, 70));
    assert_eq!(empty.len(), 0);
    let mut one: LruCache<i64, i64> = LruCache::new(1);
    assert!(one.put(7, 70));
    assert!(one.put(8, 80));
    assert_eq!(one.len(), 1);
    assert_eq!(one.get(&7), None);
    assert_eq!(one.get(&8), Some(80));
}

#[test]
fn get_after_put_returns_written_value() {
    let mut cache: LruCache<i64, Vec<u8>> = LruCache::new(3);
    cache.put(1, vec![1]);
    cache.put(2, vec![2]);
    cache.put(1, vec![9, 9]);
    assert_eq!(cache.get(&1), Some(vec![9, 9]));
    assert_eq!(cache.get(&2), Some(vec![2]));
    assert_eq!(cache.len(), 2);
}

#[test]
fn lookups_refresh_recency() {
    let mut cache = LruCache::new(3);
    cache.put(1, 1);
    cache.put(2, 2);
    cache.put(3, 3);
    assert_eq!(cache.get(&1), Some(1)); // order now 1, 3, 2
    cache.put(4, 4); // evicts 2
    assert_eq!(cache.get(&2), None);
    assert_eq!(cache.get(&3), Some(3));
    assert_eq!(cache.get(&1), Some(1));
    assert_eq!(cache.get(&4), Some(4));
    assert_eq!(cache.len(), 3);
}

#[test]
fn hooks_see_removed_inserted_and_updated_entries() {
    let log: Arc<Mutex<Vec<(String, i32, i32)>>> = Arc::new(Mutex::new(Vec::new()));
    let mut cache: LruCache<i32, i32> = LruCache::new(1);
    let l1 = log.clone();
    cache.set_on_removing_callback(move |k, v| l1.lock().unwrap().push(("removing".to_string(), k, v)));
    let l2 = log.clone();
    cache.set_on_inserting_callback(move |k, v| l2.lock().unwrap().push(("inserting".to_string(), k, v)));
    let l3 = log.clone();
    cache.set_on_updating_callback(move |k, v| l3.lock().unwrap().push(("updating".to_string(), k, v)));
    cache.put(1, 10);
    cache.put(1, 11);
    cache.put(2, 20);
    let seen = log.lock().unwrap().clone();
    assert_eq!(
        seen,
        vec![
            ("inserting".to_string(), 1, 10),
            ("updating".to_string(), 1, 11),
            ("removing".to_string(), 1, 11),
            ("inserting".to_string(), 2, 20),
        ]
    );
}

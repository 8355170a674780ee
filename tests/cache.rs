use std::sync::atomic::{AtomicIsize, Ordering};
use std::sync::Arc;

use lru_cache::LruCache;

fn k(s: &str) -> String {
    s.to_string()
}

struct Droppy(Arc<AtomicIsize>);

impl Drop for Droppy {
    fn drop(&mut self) {
        self.0.fetch_add(1, Ordering::SeqCst);
    }
}

#[test]
fn test_insert_with_zero_capacity() {
    let mut cache: LruCache<String, i32> = LruCache::new(0);
    cache.insert("test".to_string(), 42);
    assert_eq!(cache.get(&k("test")), None);
    assert_eq!(cache.len(), 0);
}

#[test]
fn test_get_with_zero_capacity() {
    let mut cache: LruCache<String, i32> = LruCache::new(0);
    assert_eq!(cache.get(&k("test")), None);
    assert_eq!(cache.len(), 0);
}

#[test]
fn test_construct_and_miss() {
    let mut cache: LruCache<String, i32> = LruCache::new(1);
    assert_eq!(cache.get(&k("test")), None);
    assert_eq!(cache.len(), 0);
}

#[test]
fn test_insert_and_get() {
    let mut cache: LruCache<String, i32> = LruCache::new(1);
    cache.insert("test".to_string(), 42);
    assert_eq!(cache.get(&k("test")), Some(&42));
    assert_eq!(cache.len(), 1);
}

#[test]
fn test_insert_twice_overflow() {
    let mut cache: LruCache<String, i32> = LruCache::new(1);
    cache.insert("old".to_string(), 123);
    cache.insert("test".to_string(), 42);
    assert_eq!(cache.get(&k("test")), Some(&42));
    assert_eq!(cache.get(&k("old")), None);
    assert_eq!(cache.len(), 1);
}

#[test]
fn test_least_recent_is_evicted() {
    let mut cache: LruCache<String, i32> = LruCache::new(2);
    cache.insert("old".to_string(), 123);
    cache.insert("test".to_string(), 42);
    assert_eq!(cache.get(&k("old")), Some(&123));
    assert_eq!(cache.len(), 2);

    cache.insert("new".to_string(), 13);
    assert_eq!(cache.get(&k("test")), None);
    assert_eq!(cache.get(&k("old")), Some(&123));
    assert_eq!(cache.get(&k("new")), Some(&13));
    assert_eq!(cache.len(), 2);
}

#[test]
fn test_drop_on_evict_works() {
    let counter = Arc::new(AtomicIsize::new(0));

    {
        let mut cache: LruCache<String, Droppy> = LruCache::new(1);
        cache.insert("old".to_string(), Droppy(counter.clone()));
        cache.insert("test".to_string(), Droppy(counter.clone()));

        assert_eq!(counter.load(Ordering::SeqCst), 1);
    }

    assert_eq!(counter.load(Ordering::SeqCst), 2);
}

#[test]
fn reinsert_replaces_value_and_keeps_len() {
    let mut cache: LruCache<String, i32> = LruCache::new(2);
    cache.insert(k("a"), 1);
    cache.insert(k("b"), 2);
    cache.insert(k("a"), 10);
    assert_eq!(cache.len(), 2);
    assert_eq!(cache.get(&k("a")), Some(&10));
    assert_eq!(cache.get(&k("b")), Some(&2));
}

#[test]
fn reinsert_makes_key_most_recent() {
    let mut cache: LruCache<String, i32> = LruCache::new(2);
    cache.insert(k("a"), 1);
    cache.insert(k("b"), 2);
    cache.insert(k("a"), 3);
    cache.insert(k("c"), 4);
    assert_eq!(cache.get(&k("b")), None);
    assert_eq!(cache.get(&k("a")), Some(&3));
    assert_eq!(cache.get(&k("c")), Some(&4));
    assert_eq!(cache.len(), 2);
}

#[test]
fn reinsert_at_full_capacity_evicts_nothing() {
    let mut cache: LruCache<String, i32> = LruCache::new(3);
    cache.insert(k("a"), 1);
    cache.insert(k("b"), 2);
    cache.insert(k("c"), 3);
    cache.insert(k("b"), 20);
    assert_eq!(cache.len(), 3);
    assert_eq!(cache.get(&k("a")), Some(&1));
    assert_eq!(cache.get(&k("b")), Some(&20));
    assert_eq!(cache.get(&k("c")), Some(&3));
}

#[test]
fn eviction_follows_recency_of_use() {
    let mut cache: LruCache<String, i32> = LruCache::new(3);
    cache.insert(k("a"), 1);
    cache.insert(k("b"), 2);
    cache.insert(k("c"), 3);
    assert_eq!(cache.get(&k("a")), Some(&1));
    cache.insert(k("d"), 4);
    assert_eq!(cache.get(&k("b")), None);
    cache.insert(k("e"), 5);
    assert_eq!(cache.get(&k("c")), None);
    assert_eq!(cache.get(&k("a")), Some(&1));
    assert_eq!(cache.get(&k("d")), Some(&4));
    assert_eq!(cache.get(&k("e")), Some(&5));
    assert_eq!(cache.len(), 3);
}

#[test]
fn miss_keeps_len_and_order() {
    let mut cache: LruCache<String, i32> = LruCache::new(2);
    cache.insert(k("a"), 1);
    cache.insert(k("b"), 2);
    assert_eq!(cache.get(&k("zz")), None);
    assert_eq!(cache.len(), 2);
    cache.insert(k("c"), 3);
    assert_eq!(cache.get(&k("a")), None);
    assert_eq!(cache.get(&k("b")), Some(&2));
    assert_eq!(cache.get(&k("c")), Some(&3));
}

#[test]
fn remove_present_and_absent() {
    let mut cache: LruCache<String, i32> = LruCache::new(2);
    cache.insert(k("a"), 1);
    cache.insert(k("b"), 2);
    cache.remove(&k("a"));
    assert_eq!(cache.len(), 1);
    assert_eq!(cache.get(&k("a")), None);
    cache.remove(&k("a"));
    assert_eq!(cache.len(), 1);
    assert_eq!(cache.get(&k("b")), Some(&2));
}

#[test]
fn removed_slot_is_reused() {
    let mut cache: LruCache<u64, u64> = LruCache::new(2);
    cache.insert(1, 10);
    cache.insert(2, 20);
    cache.remove(&1);
    cache.insert(3, 30);
    cache.insert(4, 40);
    assert_eq!(cache.len(), 2);
    assert_eq!(cache.get(&2), None);
    assert_eq!(cache.get(&3), Some(&30));
    assert_eq!(cache.get(&4), Some(&40));
}

#[test]
fn zero_capacity_stays_empty() {
    let mut cache: LruCache<u64, u64> = LruCache::new(0);
    for i in 0..10u64 {
        cache.insert(i, i * 2);
        assert_eq!(cache.len(), 0);
    }
    assert_eq!(cache.get(&3), None);
}

#[test]
fn len_never_exceeds_capacity() {
    let mut cache: LruCache<u64, u64> = LruCache::new(4);
    for i in 0..50u64 {
        cache.insert(i % 7, i);
        assert!(cache.len() <= 4);
        if i % 3 == 0 {
            let _ = cache.get(&(i % 5));
        }
        if i % 11 == 0 {
            cache.remove(&(i % 7));
        }
    }
    assert_eq!(cache.len(), 4);
}

#[test]
fn replaced_value_is_released_at_once() {
    let counter = Arc::new(AtomicIsize::new(0));
    let mut cache: LruCache<String, Droppy> = LruCache::new(2);
    cache.insert(k("a"), Droppy(counter.clone()));
    cache.insert(k("a"), Droppy(counter.clone()));
    assert_eq!(counter.load(Ordering::SeqCst), 1);
    cache.remove(&k("a"));
    assert_eq!(counter.load(Ordering::SeqCst), 2);
    assert_eq!(cache.len(), 0);
}

#[test]
fn teardown_releases_each_value_once() {
    let counter = Arc::new(AtomicIsize::new(0));
    {
        let mut cache: LruCache<u64, Droppy> = LruCache::new(5);
        for i in 0..8u64 {
            cache.insert(i, Droppy(counter.clone()));
        }
        assert_eq!(counter.load(Ordering::SeqCst), 3);
        assert_eq!(cache.len(), 5);
    }
    assert_eq!(counter.load(Ordering::SeqCst), 8);
}

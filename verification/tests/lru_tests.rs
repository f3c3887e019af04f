use blockcore::lru::LruCache;

#[test]
fn lru_starts_empty() {
    let mut cache: LruCache<u32> = LruCache::new(4);
    assert_eq!(cache.len(), 0);
    assert_eq!(cache.capacity(), 4);
    assert!(!cache.contains_key(0));
    assert!(cache.get_mut(0).is_none());
}

#[test]
fn lru_insert_and_get() {
    let mut cache: LruCache<u32> = LruCache::new(4);
    assert_eq!(cache.insert(7, 70), None);
    assert_eq!(cache.insert(8, 80), None);
    assert_eq!(cache.len(), 2);
    assert!(cache.contains_key(7));
    assert_eq!(cache.get_mut(7).copied(), Some(70));
    assert_eq!(cache.get_mut(8).copied(), Some(80));
    assert_eq!(cache.get_mut(9), None);
}

#[test]
fn lru_insert_returns_the_old_value() {
    let mut cache: LruCache<u32> = LruCache::new(2);
    assert_eq!(cache.insert(1, 10), None);
    assert_eq!(cache.insert(1, 11), Some(10));
    assert_eq!(cache.insert(1, 12), Some(11));
    assert_eq!(cache.len(), 1);
    assert_eq!(cache.get_mut(1).copied(), Some(12));
}

#[test]
fn lru_get_mut_writes_through() {
    let mut cache: LruCache<u32> = LruCache::new(2);
    cache.insert(1, 10);
    *cache.get_mut(1).unwrap() = 99;
    assert_eq!(cache.get_mut(1).copied(), Some(99));
    assert_eq!(cache.insert(1, 5), Some(99));
}

#[test]
fn lru_evicts_the_least_recently_used() {
    let mut cache: LruCache<u32> = LruCache::new(3);
    cache.insert(1, 10);
    cache.insert(2, 20);
    cache.insert(3, 30);
    cache.insert(4, 40);
    assert_eq!(cache.len(), 3);
    assert!(!cache.contains_key(1));
    assert!(cache.contains_key(2));
    assert!(cache.contains_key(3));
    assert!(cache.contains_key(4));
    cache.insert(5, 50);
    assert!(!cache.contains_key(2));
    assert_eq!(cache.get_mut(3).copied(), Some(30));
    assert_eq!(cache.get_mut(4).copied(), Some(40));
    assert_eq!(cache.get_mut(5).copied(), Some(50));
}

#[test]
fn lru_capacity_plus_one_drops_exactly_the_first() {
    for capacity in [1usize, 2, 5, 64] {
        let mut cache: LruCache<usize> = LruCache::new(capacity);
        for key in 0..=capacity {
            cache.insert(1000 + key as u64, key);
        }
        assert_eq!(cache.len(), capacity);
        assert!(!cache.contains_key(1000));
        for key in 1..=capacity {
            assert_eq!(cache.get_mut(1000 + key as u64).copied(), Some(key));
        }
    }
}

#[test]
fn lru_get_counts_as_use() {
    let mut cache: LruCache<u32> = LruCache::new(3);
    cache.insert(1, 10);
    cache.insert(2, 20);
    cache.insert(3, 30);
    assert!(cache.get_mut(1).is_some());
    cache.insert(4, 40);
    assert!(cache.contains_key(1));
    assert!(!cache.contains_key(2));
    assert!(cache.get_mut(3).is_some());
    cache.insert(5, 50);
    assert!(!cache.contains_key(1));
    assert!(cache.contains_key(3));
    assert!(cache.contains_key(4));
    assert!(cache.contains_key(5));
}

#[test]
fn lru_insert_of_a_held_key_counts_as_use() {
    let mut cache: LruCache<u32> = LruCache::new(2);
    cache.insert(1, 10);
    cache.insert(2, 20);
    cache.insert(1, 11);
    cache.insert(3, 30);
    assert!(cache.contains_key(1));
    assert!(!cache.contains_key(2));
    assert!(cache.contains_key(3));
}

#[test]
fn lru_contains_key_does_not_count_as_use() {
    let mut cache: LruCache<u32> = LruCache::new(2);
    cache.insert(1, 10);
    cache.insert(2, 20);
    assert!(cache.contains_key(1));
    cache.insert(3, 30);
    assert!(!cache.contains_key(1));
    assert!(cache.contains_key(2));
}

#[test]
fn lru_without_room_stores_nothing() {
    let mut cache: LruCache<u32> = LruCache::new(0);
    assert_eq!(cache.insert(1, 10), None);
    assert_eq!(cache.len(), 0);
    assert!(!cache.contains_key(1));
    assert!(cache.get_mut(1).is_none());
}

#[test]
fn lru_with_room_for_one() {
    let mut cache: LruCache<u32> = LruCache::new(1);
    cache.insert(1, 10);
    cache.insert(2, 20);
    assert!(!cache.contains_key(1));
    assert_eq!(cache.get_mut(2).copied(), Some(20));
    assert_eq!(cache.insert(2, 21), Some(20));
    cache.insert(3, 30);
    assert_eq!(cache.len(), 1);
    assert_eq!(cache.get_mut(3).copied(), Some(30));
}

#[test]
fn lru_long_run_keeps_the_latest() {
    let mut cache: LruCache<u64> = LruCache::new(16);
    for round in 0..1000u64 {
        cache.insert(round % 37, round);
        if round % 5 == 0 {
            cache.get_mut((round / 2) % 37);
        }
        assert!(cache.len() <= 16);
        assert_eq!(cache.get_mut(round % 37).copied(), Some(round));
    }
}

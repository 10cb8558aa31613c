use mini_canvas::cache::{LruCache, LruClock};

#[test]
fn clock_ticks_from_one() {
    let mut clock = LruClock::new();
    assert_eq!(clock.tick(), 1);
    assert_eq!(clock.tick(), 2);
}

#[test]
fn insert_then_get() {
    let mut clock = LruClock::new();
    let mut cache: LruCache<&str> = LruCache::new(4);
    cache.insert(7, "seven", &mut clock);
    assert_eq!(cache.get(7), Some(&"seven"));
    assert_eq!(cache.get(8), None);
    assert_eq!(cache.len(), 1);
}

#[test]
fn touch_reports_hits_and_only_ticks_on_hit() {
    let mut clock = LruClock::new();
    let mut cache: LruCache<u32> = LruCache::new(4);
    cache.insert(1, 10, &mut clock);
    assert!(cache.touch(1, &mut clock));
    assert!(!cache.touch(2, &mut clock));
    assert_eq!(clock.tick(), 3);
}

#[test]
fn eviction_keeps_recently_used_half() {
    let mut clock = LruClock::new();
    let mut cache: LruCache<u32> = LruCache::new(4);
    for k in 1..=4u128 {
        cache.insert(k, k as u32 * 10, &mut clock);
    }
    // Key 1 becomes the most recently used.
    assert!(cache.touch(1, &mut clock));
    cache.insert(5, 50, &mut clock);
    assert_eq!(cache.len(), 3);
    assert_eq!(cache.get(1), Some(&10));
    assert_eq!(cache.get(4), Some(&40));
    assert_eq!(cache.get(5), Some(&50));
    assert_eq!(cache.get(2), None);
    assert_eq!(cache.get(3), None);
}

#[test]
fn cache_never_exceeds_capacity() {
    let mut clock = LruClock::new();
    let mut cache: LruCache<u128> = LruCache::new(8);
    for k in 0..1000u128 {
        if k % 3 == 0 {
            cache.touch(k / 2, &mut clock);
        }
        cache.insert(k, k, &mut clock);
        assert!(cache.len() <= 8);
        assert_eq!(cache.get(k), Some(&k));
    }
    assert_eq!(cache.capacity_limit(), 8);
}

#[test]
fn hot_entry_survives_repeated_eviction() {
    let mut clock = LruClock::new();
    let mut cache: LruCache<u128> = LruCache::new(16);
    cache.insert(999, 1, &mut clock);
    for k in 0..200u128 {
        assert!(cache.touch(999, &mut clock));
        cache.insert(k, k, &mut clock);
    }
    assert_eq!(cache.get(999), Some(&1));
}

use recency_cache::error::ConfigError;
use recency_cache::gated::LruCache;

#[test]
fn it_works() {}

#[test]
fn gated_key_read_once_is_evicted_first() {
    let mut cache: LruCache<i32, i32> = LruCache::new(2, 2, 2).unwrap();
    assert_eq!(cache.put(1, 1), None);
    assert_eq!(cache.put(2, 2), None);
    assert_eq!(cache.get(&1), Some(&1));
    assert_eq!(cache.count(&1), 1);
    assert_eq!(cache.keys(), vec![2, 1]);
    assert_eq!(cache.put(3, 3), None);
    assert_eq!(cache.keys(), vec![3, 2]);
    assert_eq!(cache.get(&1), None);
    assert_eq!(cache.get(&2), Some(&2));
    assert_eq!(cache.get(&3), Some(&3));
}

#[test]
fn gated_rejects_zero_capacity() {
    assert_eq!(LruCache::<i32, i32>::new(0, 2, 2).err(), Some(ConfigError::InvalidCapacity));
    assert_eq!(LruCache::<i32, i32>::new(0, 0, 0).err(), Some(ConfigError::InvalidCapacity));
}

#[test]
fn gated_rejects_zero_counter_capacity() {
    assert_eq!(LruCache::<i32, i32>::new(2, 0, 2).err(), Some(ConfigError::InvalidCounterCapacity));
    assert_eq!(LruCache::<i32, i32>::new(2, 0, 0).err(), Some(ConfigError::InvalidCounterCapacity));
}

#[test]
fn gated_rejects_zero_threshold() {
    assert_eq!(LruCache::<i32, i32>::new(2, 2, 0).err(), Some(ConfigError::InvalidThreshold));
}

#[test]
fn gated_accepts_positive_configuration() {
    let cache = LruCache::<i32, i32>::new(1, 1, 1).unwrap();
    assert_eq!(cache.len(), 0);
    assert_eq!(cache.keys(), Vec::<i32>::new());
    assert_eq!(cache.counted_keys(), Vec::<i32>::new());
    assert!(LruCache::<i32, i32>::new(usize::MAX, usize::MAX, usize::MAX).is_ok());
}

#[test]
fn gated_first_read_does_not_promote_second_does() {
    let mut cache: LruCache<i32, i32> = LruCache::new(3, 3, 2).unwrap();
    cache.put(1, 10);
    cache.put(2, 20);
    cache.put(3, 30);
    assert_eq!(cache.keys(), vec![3, 2, 1]);
    assert_eq!(cache.get(&1), Some(&10));
    assert_eq!(cache.keys(), vec![3, 2, 1]);
    assert_eq!(cache.count(&1), 1);
    assert_eq!(cache.get(&1), Some(&10));
    assert_eq!(cache.keys(), vec![1, 3, 2]);
    assert_eq!(cache.count(&1), 2);
}

#[test]
fn gated_threshold_three_promotes_on_third_read() {
    let mut cache: LruCache<i32, i32> = LruCache::new(3, 3, 3).unwrap();
    cache.put(1, 10);
    cache.put(2, 20);
    cache.get(&1);
    cache.get(&1);
    assert_eq!(cache.keys(), vec![2, 1]);
    cache.get(&1);
    assert_eq!(cache.keys(), vec![1, 2]);
    assert_eq!(cache.count(&1), 3);
    cache.get(&2);
    assert_eq!(cache.keys(), vec![1, 2]);
}

#[test]
fn gated_threshold_one_promotes_on_every_read() {
    let mut cache: LruCache<i32, i32> = LruCache::new(3, 3, 1).unwrap();
    cache.put(1, 10);
    cache.put(2, 20);
    assert_eq!(cache.get(&1), Some(&10));
    assert_eq!(cache.keys(), vec![1, 2]);
    assert_eq!(cache.get(&2), Some(&20));
    assert_eq!(cache.keys(), vec![2, 1]);
}

#[test]
fn gated_put_returns_replaced_value_and_moves_to_front() {
    let mut cache: LruCache<i32, i32> = LruCache::new(3, 3, 2).unwrap();
    assert_eq!(cache.put(1, 10), None);
    assert_eq!(cache.put(2, 20), None);
    assert_eq!(cache.put(1, 11), Some(10));
    assert_eq!(cache.keys(), vec![1, 2]);
    assert_eq!(cache.len(), 2);
    assert_eq!(cache.get(&1), Some(&11));
}

#[test]
fn gated_put_leaves_counters_alone() {
    let mut cache: LruCache<i32, i32> = LruCache::new(2, 2, 2).unwrap();
    cache.put(1, 10);
    cache.get(&1);
    assert_eq!(cache.count(&1), 1);
    cache.put(1, 11);
    cache.put(2, 20);
    cache.put(3, 30);
    assert_eq!(cache.count(&1), 1);
    assert_eq!(cache.counted_keys(), vec![1]);
    assert_eq!(cache.count(&2), 0);
}

#[test]
fn gated_read_of_absent_key_is_counted() {
    let mut cache: LruCache<i32, i32> = LruCache::new(2, 2, 2).unwrap();
    assert_eq!(cache.get(&5), None);
    assert_eq!(cache.count(&5), 1);
    assert_eq!(cache.get(&5), None);
    assert_eq!(cache.count(&5), 2);
    assert_eq!(cache.len(), 0);
    assert_eq!(cache.keys(), Vec::<i32>::new());
}

#[test]
fn gated_counter_list_evicts_its_own_tail_only() {
    let mut cache: LruCache<i32, i32> = LruCache::new(3, 2, 2).unwrap();
    cache.put(1, 10);
    cache.put(2, 20);
    cache.put(3, 30);
    cache.get(&1);
    cache.get(&2);
    assert_eq!(cache.counted_keys(), vec![2, 1]);
    cache.get(&3);
    assert_eq!(cache.counted_keys(), vec![3, 2]);
    assert_eq!(cache.count(&1), 0);
    assert_eq!(cache.keys(), vec![3, 2, 1]);
    assert_eq!(cache.len(), 3);
    assert_eq!(cache.get(&1), Some(&10));
    assert_eq!(cache.count(&1), 1);
    assert_eq!(cache.keys(), vec![3, 2, 1]);
}

#[test]
fn gated_value_eviction_leaves_counters() {
    let mut cache: LruCache<i32, i32> = LruCache::new(1, 3, 2).unwrap();
    cache.put(1, 10);
    cache.get(&1);
    cache.put(2, 20);
    assert_eq!(cache.keys(), vec![2]);
    assert_eq!(cache.count(&1), 1);
    cache.put(1, 12);
    assert_eq!(cache.get(&1), Some(&12));
    assert_eq!(cache.count(&1), 2);
}

#[test]
fn gated_lists_stay_within_their_bounds() {
    let mut cache: LruCache<u64, u64> = LruCache::new(3, 2, 2).unwrap();
    for i in 0..200u64 {
        let k = (i * 5) % 13;
        if i % 2 == 0 {
            cache.put(k, i);
        } else {
            cache.get(&k);
        }
        assert!(cache.len() <= 3);
        assert!(cache.keys().len() <= 3);
        assert!(cache.counted_keys().len() <= 2);
    }
}

#[test]
fn gated_values_need_not_be_copyable() {
    let mut cache: LruCache<u8, String> = LruCache::new(2, 2, 1).unwrap();
    assert_eq!(cache.put(1, String::from("a")), None);
    assert_eq!(cache.put(1, String::from("b")), Some(String::from("a")));
    assert_eq!(cache.get(&1).map(|s| s.as_str()), Some("b"));
    assert_eq!(cache.get(&2), None);
}

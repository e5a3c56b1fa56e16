use recency_cache::error::ConfigError;
use recency_cache::two_queue::TwoQCache;

#[test]
fn test() {
    let mut cache = TwoQCache::new(2).unwrap();
    cache.put(1, 1);
    cache.put(2, 2);
    assert_eq!(cache.get(1), 1);
    cache.put(1, 100);
    cache.put(3, 3);
    cache.put(3, 200);
    assert_eq!(cache.get(1), 100);
    cache.put(2, 500);
    assert_eq!(cache.get(3), -1);
    cache.put(4, 4);
    cache.put(5, 5);
    cache.put(6, 6);
    assert_eq!(cache.get(4), -1);
    cache.put(5, 700);
    assert_eq!(cache.get(1), -1);
}

#[test]
fn two_queue_promotion_makes_room_in_probationary() {
    let mut cache = TwoQCache::new(2).unwrap();
    cache.put(1, 1);
    cache.put(2, 2);
    assert_eq!(cache.probationary_keys(), vec![2, 1]);
    assert_eq!(cache.protected_keys(), Vec::<i32>::new());
    assert_eq!(cache.get(1), 1);
    assert_eq!(cache.probationary_keys(), vec![2]);
    assert_eq!(cache.protected_keys(), vec![1]);
    cache.put(3, 3);
    assert_eq!(cache.probationary_keys(), vec![3, 2]);
    assert_eq!(cache.protected_keys(), vec![1]);
    assert_eq!(cache.get(2), 2);
    assert_eq!(cache.get(1), 1);
    assert_eq!(cache.probationary_keys(), vec![3]);
    assert_eq!(cache.protected_keys(), vec![1, 2]);
}

#[test]
fn two_queue_full_probationary_evicts_its_own_tail() {
    let mut cache = TwoQCache::new(2).unwrap();
    cache.put(1, 1);
    cache.put(2, 2);
    assert_eq!(cache.get(1), 1);
    cache.put(3, 3);
    cache.put(4, 4);
    assert_eq!(cache.probationary_keys(), vec![4, 3]);
    assert_eq!(cache.protected_keys(), vec![1]);
    assert_eq!(cache.get(2), -1);
    assert_eq!(cache.get(1), 1);
}

#[test]
fn two_queue_rejects_capacity_that_is_not_positive() {
    assert_eq!(TwoQCache::new(0).err(), Some(ConfigError::InvalidCapacity));
    assert_eq!(TwoQCache::new(-5).err(), Some(ConfigError::InvalidCapacity));
    assert!(TwoQCache::new(1).is_ok());
}

#[test]
fn two_queue_new_key_lands_in_probationary() {
    let mut cache = TwoQCache::new(3).unwrap();
    cache.put(7, 70);
    assert_eq!(cache.probationary_keys(), vec![7]);
    assert_eq!(cache.protected_keys(), Vec::<i32>::new());
}

#[test]
fn two_queue_second_put_moves_to_protected() {
    let mut cache = TwoQCache::new(3).unwrap();
    cache.put(7, 70);
    cache.put(7, 71);
    assert_eq!(cache.probationary_keys(), Vec::<i32>::new());
    assert_eq!(cache.protected_keys(), vec![7]);
    assert_eq!(cache.get(7), 71);
}

#[test]
fn two_queue_get_moves_to_protected() {
    let mut cache = TwoQCache::new(3).unwrap();
    cache.put(7, 70);
    cache.put(8, 80);
    assert_eq!(cache.get(7), 70);
    assert_eq!(cache.probationary_keys(), vec![8]);
    assert_eq!(cache.protected_keys(), vec![7]);
    assert_eq!(cache.get(8), 80);
    assert_eq!(cache.protected_keys(), vec![8, 7]);
    assert_eq!(cache.probationary_keys(), Vec::<i32>::new());
}

#[test]
fn two_queue_protected_hit_reorders() {
    let mut cache = TwoQCache::new(3).unwrap();
    for k in 1..=3 {
        cache.put(k, k);
        cache.get(k);
    }
    assert_eq!(cache.protected_keys(), vec![3, 2, 1]);
    assert_eq!(cache.get(1), 1);
    assert_eq!(cache.protected_keys(), vec![1, 3, 2]);
    cache.put(2, 22);
    assert_eq!(cache.protected_keys(), vec![2, 1, 3]);
    assert_eq!(cache.get(2), 22);
}

#[test]
fn two_queue_filling_probationary_leaves_protected() {
    let mut cache = TwoQCache::new(2).unwrap();
    cache.put(1, 1);
    cache.put(2, 2);
    cache.get(1);
    cache.get(2);
    assert_eq!(cache.protected_keys(), vec![2, 1]);
    for k in 10..60 {
        cache.put(k, k);
        assert_eq!(cache.protected_keys(), vec![2, 1]);
        assert!(cache.probationary_keys().len() <= 2);
    }
    assert_eq!(cache.probationary_keys(), vec![59, 58]);
    assert_eq!(cache.get(1), 1);
    assert_eq!(cache.get(2), 2);
}

#[test]
fn two_queue_protected_evicts_its_own_tail() {
    let mut cache = TwoQCache::new(2).unwrap();
    for k in 1..=3 {
        cache.put(k, k * 10);
        assert_eq!(cache.get(k), k * 10);
    }
    assert_eq!(cache.protected_keys(), vec![3, 2]);
    assert_eq!(cache.probationary_keys(), Vec::<i32>::new());
    assert_eq!(cache.get(1), -1);
}

#[test]
fn two_queue_key_is_in_one_segment_only() {
    let mut cache = TwoQCache::new(3).unwrap();
    for i in 0..200 {
        let k = (i * 7) % 11;
        if i % 3 == 0 {
            cache.get(k);
        } else {
            cache.put(k, i);
        }
        let probationary = cache.probationary_keys();
        let protected = cache.protected_keys();
        assert!(probationary.len() <= 3);
        assert!(protected.len() <= 3);
        for p in probationary.iter() {
            assert!(!protected.contains(p));
        }
    }
}

#[test]
fn two_queue_miss_changes_nothing() {
    let mut cache = TwoQCache::new(2).unwrap();
    cache.put(1, 1);
    cache.put(2, 2);
    cache.get(2);
    assert_eq!(cache.get(9), -1);
    assert_eq!(cache.probationary_keys(), vec![1]);
    assert_eq!(cache.protected_keys(), vec![2]);
}

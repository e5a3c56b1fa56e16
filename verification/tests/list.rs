use recency_cache::list::{Node, RecencyList};

fn filled(keys: &[u64]) -> RecencyList<u64, u64> {
    let mut list = RecencyList::new();
    for k in keys {
        list.insert_front(*k, *k * 10);
    }
    list
}

#[test]
fn node_new_is_unlinked() {
    let node = Node::new(7u64, 70u64);
    assert_eq!(node.k, 7);
    assert_eq!(node.v, 70);
    assert_eq!(node.prev, None);
    assert_eq!(node.next, None);
}

#[test]
fn new_list_is_empty() {
    let list: RecencyList<u64, u64> = RecencyList::new();
    assert_eq!(list.len(), 0);
    assert!(list.is_empty());
    assert_eq!(list.keys(), Vec::<u64>::new());
    assert_eq!(list.keys_from_tail(), Vec::<u64>::new());
    assert!(!list.contains_key(&1));
    assert_eq!(list.peek(&1), None);
}

#[test]
fn insert_front_links_new_head() {
    let list = filled(&[1, 2, 3]);
    assert_eq!(list.len(), 3);
    assert!(!list.is_empty());
    assert_eq!(list.keys(), vec![3, 2, 1]);
    assert_eq!(list.peek(&2), Some(&20));
}

#[test]
fn insert_front_replaces_existing_key() {
    let mut list = filled(&[1, 2, 3]);
    assert_eq!(list.insert_front(1, 99), Some(10));
    assert_eq!(list.len(), 3);
    assert_eq!(list.keys(), vec![1, 3, 2]);
    assert_eq!(list.peek(&1), Some(&99));
    assert_eq!(list.insert_front(4, 40), None);
    assert_eq!(list.keys(), vec![4, 1, 3, 2]);
}

#[test]
fn touch_moves_to_head() {
    let mut list = filled(&[1, 2, 3]);
    list.touch(&1);
    assert_eq!(list.keys(), vec![1, 3, 2]);
    list.touch(&3);
    assert_eq!(list.keys(), vec![3, 1, 2]);
    list.touch(&3);
    assert_eq!(list.keys(), vec![3, 1, 2]);
    assert_eq!(list.peek(&1), Some(&10));
    assert_eq!(list.len(), 3);
}

#[test]
fn touch_of_absent_key_changes_nothing() {
    let mut list = filled(&[1, 2]);
    list.touch(&9);
    assert_eq!(list.keys(), vec![2, 1]);
    assert_eq!(list.len(), 2);
    let mut empty: RecencyList<u64, u64> = RecencyList::new();
    empty.touch(&9);
    assert!(empty.is_empty());
}

#[test]
fn remove_from_head_middle_and_tail() {
    let mut list = filled(&[1, 2, 3, 4, 5]);
    assert_eq!(list.remove(&3), Some(30));
    assert_eq!(list.keys(), vec![5, 4, 2, 1]);
    assert_eq!(list.keys_from_tail(), vec![1, 2, 4, 5]);
    assert_eq!(list.remove(&5), Some(50));
    assert_eq!(list.keys(), vec![4, 2, 1]);
    assert_eq!(list.remove(&1), Some(10));
    assert_eq!(list.keys(), vec![4, 2]);
    assert_eq!(list.keys_from_tail(), vec![2, 4]);
    assert_eq!(list.len(), 2);
    assert!(!list.contains_key(&3));
    assert_eq!(list.peek(&3), None);
}

#[test]
fn remove_of_absent_key_returns_none() {
    let mut list = filled(&[1, 2]);
    assert_eq!(list.remove(&9), None);
    assert_eq!(list.keys(), vec![2, 1]);
    assert_eq!(list.remove(&1), Some(10));
    assert_eq!(list.remove(&1), None);
}

#[test]
fn remove_only_entry_empties_list() {
    let mut list = filled(&[1]);
    assert_eq!(list.remove(&1), Some(10));
    assert!(list.is_empty());
    assert_eq!(list.keys(), Vec::<u64>::new());
    assert_eq!(list.keys_from_tail(), Vec::<u64>::new());
    assert_eq!(list.evict_tail(), None);
}

#[test]
fn evict_tail_takes_least_recent() {
    let mut list = filled(&[1, 2, 3]);
    assert_eq!(list.evict_tail(), Some((1, 10)));
    assert_eq!(list.keys(), vec![3, 2]);
    list.touch(&2);
    assert_eq!(list.evict_tail(), Some((3, 30)));
    assert_eq!(list.evict_tail(), Some((2, 20)));
    assert_eq!(list.evict_tail(), None);
    assert!(list.is_empty());
}

#[test]
fn evict_tail_of_empty_list_returns_none() {
    let mut list: RecencyList<u64, u64> = RecencyList::new();
    assert_eq!(list.evict_tail(), None);
    assert_eq!(list.len(), 0);
}

#[test]
fn freed_slots_are_used_again() {
    let mut list: RecencyList<u64, u64> = RecencyList::new();
    for round in 0..50u64 {
        list.insert_front(round, round);
        list.insert_front(round + 1000, round);
        assert_eq!(list.evict_tail(), Some((round, round)));
        assert_eq!(list.remove(&(round + 1000)), Some(round));
        assert!(list.is_empty());
    }
    list.insert_front(1, 1);
    list.insert_front(2, 2);
    assert_eq!(list.keys(), vec![2, 1]);
    assert_eq!(list.keys_from_tail(), vec![1, 2]);
}

#[test]
fn forward_walk_is_reverse_of_backward_walk() {
    let mut list = filled(&[1, 2, 3, 4, 5, 6]);
    list.touch(&2);
    list.remove(&5);
    list.insert_front(9, 90);
    list.evict_tail();
    list.touch(&3);
    list.insert_front(4, 41);
    let forward = list.keys();
    let mut backward = list.keys_from_tail();
    backward.reverse();
    assert_eq!(forward, vec![4, 3, 9, 2, 6]);
    assert_eq!(forward, backward);
    assert_eq!(list.len(), forward.len());
}

#[test]
fn order_follows_last_insertion_or_touch() {
    let mut list: RecencyList<u64, u64> = RecencyList::new();
    list.insert_front(1, 0);
    list.insert_front(2, 0);
    list.insert_front(3, 0);
    list.touch(&1);
    list.insert_front(4, 0);
    list.touch(&2);
    list.remove(&4);
    list.touch(&7);
    assert_eq!(list.keys(), vec![2, 1, 3]);
}

#[test]
fn index_and_list_hold_the_same_keys() {
    let mut list = filled(&[1, 2, 3, 4]);
    list.remove(&2);
    list.evict_tail();
    list.insert_front(3, 33);
    let keys = list.keys();
    assert_eq!(keys, vec![3, 4]);
    for k in 0..10u64 {
        assert_eq!(list.contains_key(&k), keys.contains(&k));
        assert_eq!(list.peek(&k).is_some(), keys.contains(&k));
    }
    assert_eq!(list.len(), keys.len());
}

#[test]
fn clear_releases_every_entry() {
    let mut list = filled(&[1, 2, 3, 4]);
    list.clear();
    assert!(list.is_empty());
    assert_eq!(list.keys(), Vec::<u64>::new());
    assert!(!list.contains_key(&1));
    list.clear();
    assert!(list.is_empty());
    list.insert_front(5, 50);
    assert_eq!(list.keys(), vec![5]);
}

#[test]
fn values_need_not_be_copyable() {
    let mut list: RecencyList<u32, String> = RecencyList::new();
    list.insert_front(1, String::from("one"));
    list.insert_front(2, String::from("two"));
    assert_eq!(list.peek(&1).map(|s| s.as_str()), Some("one"));
    assert_eq!(list.insert_front(1, String::from("uno")), Some(String::from("one")));
    assert_eq!(list.evict_tail(), Some((2, String::from("two"))));
    assert_eq!(list.remove(&1), Some(String::from("uno")));
}

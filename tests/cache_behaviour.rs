use lru::{create_node, InternalNode, LruError, Node, LRU};

fn lru_new() -> LRU<String, u32> {
    let mut lru: LRU<String, u32> = LRU::new(10).unwrap();
    for i in 0..11 {
        lru.update(i.to_string(), i);
    }
    return lru;
}

fn value_of(lru: &mut LRU<String, u32>, key: &str) -> Option<u32> {
    lru.get(&key.to_string()).map(|n| n.get())
}

#[test]
fn test_example() {
    let mut lru = lru_new();
    let val = lru.get(&"0".to_string());
    match val {
        Some(_) => assert!(false),
        None => assert!(true),
    }
}

#[test]
fn eleven_keys_into_ten_keep_the_last_ten() {
    let mut lru = lru_new();
    assert_eq!(lru.len(), 10);
    for i in 1..11u32 {
        assert_eq!(value_of(&mut lru, &i.to_string()), Some(i));
    }
}

#[test]
fn zero_capacity_is_refused() {
    let r: Result<LRU<String, u32>, LruError> = LRU::new(0);
    assert!(matches!(r, Err(LruError::InvalidCapacity)));
}

#[test]
fn new_cache_is_empty() {
    let mut lru: LRU<String, u32> = LRU::new(3).unwrap();
    assert_eq!(lru.len(), 0);
    assert_eq!(lru.capacity(), 3);
    assert_eq!(value_of(&mut lru, "a"), None);
}

#[test]
fn scenario_capacity_two() {
    let mut lru: LRU<String, u32> = LRU::new(2).unwrap();
    lru.update("a".to_string(), 1);
    assert_eq!(lru.len(), 1);
    lru.update("b".to_string(), 2);
    assert_eq!(lru.len(), 2);
    assert_eq!(value_of(&mut lru, "a"), Some(1));
    lru.update("c".to_string(), 3);
    assert_eq!(lru.len(), 2);
    assert_eq!(value_of(&mut lru, "b"), None);
    assert_eq!(value_of(&mut lru, "a"), Some(1));
    assert_eq!(value_of(&mut lru, "c"), Some(3));
}

#[test]
fn first_of_capacity_plus_one_keys_is_evicted() {
    let mut lru: LRU<u64, u64> = LRU::new(3).unwrap();
    for k in 1..5u64 {
        lru.update(k, k * 100);
    }
    assert!(lru.get(&1).is_none());
    for k in 2..5u64 {
        assert_eq!(lru.get(&k).map(|n| n.get()), Some(k * 100));
    }
}

#[test]
fn lookup_shields_oldest_entry_from_eviction() {
    let mut lru: LRU<u64, u64> = LRU::new(3).unwrap();
    lru.update(1, 10);
    lru.update(2, 20);
    lru.update(3, 30);
    assert_eq!(lru.get(&1).map(|n| n.get()), Some(10));
    lru.update(4, 40);
    assert_eq!(lru.get(&1).map(|n| n.get()), Some(10));
    assert!(lru.get(&2).is_none());
    assert_eq!(lru.get(&3).map(|n| n.get()), Some(30));
    assert_eq!(lru.get(&4).map(|n| n.get()), Some(40));
}

#[test]
fn update_of_cached_key_keeps_length() {
    let mut lru: LRU<String, u32> = LRU::new(3).unwrap();
    lru.update("a".to_string(), 1);
    lru.update("b".to_string(), 2);
    lru.update("a".to_string(), 7);
    assert_eq!(lru.len(), 2);
    assert_eq!(value_of(&mut lru, "a"), Some(7));
    assert_eq!(value_of(&mut lru, "b"), Some(2));
}

#[test]
fn update_promotes_the_key() {
    let mut lru: LRU<String, u32> = LRU::new(2).unwrap();
    lru.update("a".to_string(), 1);
    lru.update("b".to_string(), 2);
    lru.update("a".to_string(), 5);
    lru.update("c".to_string(), 3);
    assert_eq!(value_of(&mut lru, "b"), None);
    assert_eq!(value_of(&mut lru, "a"), Some(5));
    assert_eq!(value_of(&mut lru, "c"), Some(3));
}

#[test]
fn put_then_get_round_trips() {
    let mut lru: LRU<String, u32> = LRU::new(2).unwrap();
    lru.update("x".to_string(), 11);
    lru.update("y".to_string(), 12);
    lru.update("z".to_string(), 13);
    assert_eq!(value_of(&mut lru, "z"), Some(13));
    lru.update("x".to_string(), 14);
    assert_eq!(value_of(&mut lru, "x"), Some(14));
}

#[test]
fn repeated_lookup_changes_nothing_more() {
    let mut lru: LRU<String, u32> = LRU::new(2).unwrap();
    lru.update("a".to_string(), 1);
    lru.update("b".to_string(), 2);
    for _ in 0..3 {
        assert_eq!(value_of(&mut lru, "a"), Some(1));
        assert_eq!(lru.len(), 2);
    }
    lru.update("c".to_string(), 3);
    assert_eq!(value_of(&mut lru, "b"), None);
    assert_eq!(value_of(&mut lru, "a"), Some(1));
}

#[test]
fn capacity_one_holds_only_the_newest() {
    let mut lru: LRU<u64, u64> = LRU::new(1).unwrap();
    lru.update(1, 1);
    assert_eq!(lru.get(&1).map(|n| n.get()), Some(1));
    lru.update(2, 2);
    assert_eq!(lru.len(), 1);
    assert!(lru.get(&1).is_none());
    assert_eq!(lru.get(&2).map(|n| n.get()), Some(2));
}

#[test]
fn largest_capacity_is_accepted() {
    let mut lru: LRU<u64, u64> = LRU::new(u32::MAX).unwrap();
    assert_eq!(lru.capacity(), u32::MAX);
    lru.update(9, 90);
    assert_eq!(lru.get(&9).map(|n| n.get()), Some(90));
}

#[test]
fn node_holds_its_own_copy() {
    let mut n = Node::new(5u32);
    assert_eq!(n.get(), 5);
    n.set(8);
    assert_eq!(n.get(), 8);
}

#[test]
fn returned_node_does_not_write_back() {
    let mut lru: LRU<String, u32> = LRU::new(2).unwrap();
    lru.update("a".to_string(), 1);
    let mut n = lru.get(&"a".to_string()).unwrap();
    n.set(99);
    assert_eq!(value_of(&mut lru, "a"), Some(1));
}

#[test]
fn internal_node_set_keeps_key_and_links() {
    let mut e: InternalNode<String, u32> = create_node("k".to_string(), 3);
    assert!(e.prev.is_none() && e.next.is_none());
    assert_eq!(e.get(), 3);
    e.next = Some(4);
    e.set(6);
    assert_eq!(e.get(), 6);
    assert_eq!(e.key, "k");
    assert_eq!(e.next, Some(4));
    assert!(e.prev.is_none());
}

#[test]
fn many_evictions_agree_with_a_plain_recency_list() {
    let cap: usize = 4;
    let mut lru: LRU<u64, u64> = LRU::new(cap as u32).unwrap();
    let mut model: Vec<(u64, u64)> = Vec::new();
    let mut x: u64 = 7;
    for step in 0..500u64 {
        x = (x * 31 + 11) % 97;
        let k = x % 9;
        if step % 3 == 0 {
            let got = lru.get(&k).map(|n| n.get());
            let pos = model.iter().position(|p| p.0 == k);
            let want = pos.map(|i| {
                let p = model.remove(i);
                model.insert(0, p);
                p.1
            });
            assert_eq!(got, want);
        } else {
            lru.update(k, step);
            if let Some(i) = model.iter().position(|p| p.0 == k) {
                model.remove(i);
            }
            model.insert(0, (k, step));
            model.truncate(cap);
        }
        assert_eq!(lru.len() as usize, model.len());
    }
    for (k, v) in model.clone() {
        assert_eq!(lru.get(&k).map(|n| n.get()), Some(v));
    }
}

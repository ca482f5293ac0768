use lru_cache::LruCache;

#[test]
fn test_basic_operations() {
    let mut cache = LruCache::new(3);
    cache.put("alpha", 1);
    cache.put("beta", 2);
    cache.put("gamma", 3);
    assert_eq!(cache.get(&"alpha"), Some(&1));
    assert_eq!(cache.len(), 3);
}

#[test]
fn new_cache_is_empty() {
    let mut cache: LruCache<u32, u32> = LruCache::new(4);
    assert!(cache.is_empty());
    assert_eq!(cache.len(), 0);
    assert_eq!(cache.eviction_count(), 0);
    assert_eq!(cache.get(&7), None);
    assert!(cache.is_empty());
}

#[test]
fn is_empty_follows_len() {
    let mut cache = LruCache::new(2);
    assert!(cache.is_empty());
    cache.put(1u8, 'a');
    assert!(!cache.is_empty());
    assert_eq!(cache.len(), 1);
    cache.put(2u8, 'b');
    cache.put(3u8, 'c');
    assert!(!cache.is_empty());
    assert_eq!(cache.len(), 2);
}

#[test]
fn miss_changes_nothing() {
    let mut cache = LruCache::new(2);
    cache.put("a", 1);
    cache.put("b", 2);
    assert_eq!(cache.get(&"zzz"), None);
    assert_eq!(cache.len(), 2);
    assert_eq!(cache.eviction_count(), 0);
    // "a" is still the least recently used entry, so it is the one to go.
    cache.put("c", 3);
    assert_eq!(cache.get(&"a"), None);
    assert_eq!(cache.get(&"b"), Some(&2));
    assert_eq!(cache.get(&"c"), Some(&3));
}

#[test]
fn concrete_scenario_capacity_three() {
    let mut cache = LruCache::new(3);
    cache.put("a", 1);
    cache.put("b", 2);
    cache.put("c", 3);
    assert_eq!(cache.len(), 3);
    assert_eq!(cache.eviction_count(), 0);

    assert_eq!(cache.get(&"a"), Some(&1));

    cache.put("d", 4);
    assert_eq!(cache.len(), 3);
    assert_eq!(cache.eviction_count(), 1);

    assert_eq!(cache.get(&"b"), None);
    assert_eq!(cache.get(&"a"), Some(&1));
    assert_eq!(cache.get(&"c"), Some(&3));
    assert_eq!(cache.get(&"d"), Some(&4));
}

#[test]
fn len_never_exceeds_capacity() {
    for capacity in 1usize..6 {
        let mut cache = LruCache::new(capacity);
        for step in 0u32..200 {
            let key = (step * 7 + step / 3) % 11;
            if step % 3 == 0 {
                let _ = cache.get(&key);
            } else {
                cache.put(key, step);
            }
            assert!(cache.len() <= capacity);
        }
    }
}

#[test]
fn one_key_too_many_evicts_the_first() {
    for capacity in 1usize..8 {
        let mut cache = LruCache::new(capacity);
        for key in 0..=capacity {
            cache.put(key, key * 10);
        }
        assert_eq!(cache.eviction_count(), 1);
        assert_eq!(cache.len(), capacity);
        assert_eq!(cache.get(&0), None);
        for key in 1..=capacity {
            assert_eq!(cache.get(&key), Some(&(key * 10)));
        }
    }
}

#[test]
fn accessed_key_survives_capacity_minus_one_new_keys() {
    for capacity in 1usize..8 {
        let mut cache = LruCache::new(capacity);
        for key in 0..capacity {
            cache.put(key, key + 100);
        }
        assert_eq!(cache.get(&0), Some(&100));
        for key in 0..capacity - 1 {
            cache.put(1000 + key, 0);
        }
        assert_eq!(cache.get(&0), Some(&100));
    }
}

#[test]
fn idle_key_is_evicted_by_capacity_new_keys() {
    for capacity in 1usize..8 {
        let mut cache = LruCache::new(capacity);
        for key in 0..capacity {
            cache.put(key, key + 100);
        }
        // The last key stored is the most recently used one, and still goes.
        let idle = capacity - 1;
        for key in 0..capacity {
            cache.put(1000 + key, 0);
        }
        assert_eq!(cache.get(&idle), None);
        assert_eq!(cache.len(), capacity);
        assert_eq!(cache.eviction_count(), capacity as u64);
    }
}

#[test]
fn put_on_existing_key_updates_in_place() {
    let mut cache = LruCache::new(2);
    cache.put("k", 1);
    cache.put("other", 5);
    cache.put("k", 2);
    assert_eq!(cache.len(), 2);
    assert_eq!(cache.eviction_count(), 0);
    assert_eq!(cache.get(&"k"), Some(&2));
    assert_eq!(cache.get(&"other"), Some(&5));
}

#[test]
fn put_on_existing_key_counts_as_a_use() {
    let mut cache = LruCache::new(2);
    cache.put("a", 1);
    cache.put("b", 2);
    cache.put("a", 10);
    cache.put("c", 3);
    assert_eq!(cache.get(&"b"), None);
    assert_eq!(cache.get(&"a"), Some(&10));
    assert_eq!(cache.get(&"c"), Some(&3));
    assert_eq!(cache.eviction_count(), 1);
}

#[test]
fn get_twice_returns_the_same_value() {
    let mut cache = LruCache::new(3);
    cache.put(1, "one");
    cache.put(2, "two");
    assert_eq!(cache.get(&1), Some(&"one"));
    assert_eq!(cache.get(&1), Some(&"one"));
    assert_eq!(cache.len(), 2);
    assert_eq!(cache.eviction_count(), 0);
    assert_eq!(cache.get(&9), None);
    assert_eq!(cache.get(&9), None);
    assert_eq!(cache.len(), 2);
    assert_eq!(cache.eviction_count(), 0);
}

#[test]
fn capacity_one_keeps_only_the_newest_key() {
    let mut cache = LruCache::new(1);
    cache.put("a", 1);
    assert_eq!(cache.len(), 1);
    assert_eq!(cache.eviction_count(), 0);
    for (round, key) in ["b", "c", "d", "e"].iter().enumerate() {
        cache.put(*key, round);
        assert_eq!(cache.len(), 1);
        assert_eq!(cache.eviction_count(), round as u64 + 1);
        assert_eq!(cache.get(key), Some(&round));
    }
    assert_eq!(cache.get(&"a"), None);
    assert_eq!(cache.get(&"d"), None);
    cache.put("e", 99);
    assert_eq!(cache.eviction_count(), 4);
    assert_eq!(cache.get(&"e"), Some(&99));
}

#[test]
fn eviction_count_ignores_hits_and_updates() {
    let mut cache = LruCache::new(2);
    cache.put(1, 1);
    cache.put(2, 2);
    for round in 0..10 {
        assert_eq!(cache.get(&1), Some(&(1 + round)));
        cache.put(1, 2 + round);
        cache.put(2, round);
    }
    assert_eq!(cache.eviction_count(), 0);
    cache.put(3, 3);
    assert_eq!(cache.eviction_count(), 1);
    cache.put(4, 4);
    assert_eq!(cache.eviction_count(), 2);
}

#[test]
fn promoting_head_middle_and_tail() {
    let mut cache = LruCache::new(3);
    cache.put('a', 1);
    cache.put('b', 2);
    cache.put('c', 3);
    // Recency order, most recent first: c b a.
    assert_eq!(cache.get(&'c'), Some(&3)); // head: c b a
    assert_eq!(cache.get(&'b'), Some(&2)); // middle: b c a
    assert_eq!(cache.get(&'a'), Some(&1)); // tail: a b c
    cache.put('d', 4); // evicts c: d a b
    assert_eq!(cache.get(&'c'), None);
    cache.put('e', 5); // evicts b: e d a
    assert_eq!(cache.get(&'b'), None);
    assert_eq!(cache.get(&'a'), Some(&1));
    assert_eq!(cache.get(&'d'), Some(&4));
    assert_eq!(cache.get(&'e'), Some(&5));
    assert_eq!(cache.eviction_count(), 2);
}

#[test]
fn owned_string_keys() {
    let mut cache: LruCache<String, Vec<u8>> = LruCache::new(2);
    cache.put(String::from("first"), vec![1]);
    cache.put(String::from("second"), vec![2, 2]);
    assert_eq!(cache.get(&String::from("first")), Some(&vec![1]));
    cache.put(String::from("third"), vec![3, 3, 3]);
    assert_eq!(cache.get(&String::from("second")), None);
    assert_eq!(cache.get(&String::from("first")), Some(&vec![1]));
    assert_eq!(cache.get(&String::from("third")), Some(&vec![3, 3, 3]));
    assert_eq!(cache.len(), 2);
    assert_eq!(cache.eviction_count(), 1);
}

#[test]
fn evicted_key_can_come_back() {
    let mut cache = LruCache::new(2);
    cache.put(1, "a");
    cache.put(2, "b");
    cache.put(3, "c");
    assert_eq!(cache.get(&1), None);
    cache.put(1, "again");
    assert_eq!(cache.get(&2), None);
    assert_eq!(cache.get(&1), Some(&"again"));
    assert_eq!(cache.get(&3), Some(&"c"));
    assert_eq!(cache.eviction_count(), 2);
    assert_eq!(cache.len(), 2);
}

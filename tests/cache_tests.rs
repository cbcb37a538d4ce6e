use lru_cache::Cache;

#[test]
fn test_lru_cache() {
    let mut cache = Cache::new(3);
    cache.put("A", String::from("value_a"));
    cache.put("B", String::from("value_b"));
    cache.put("C", String::from("value_c"));
    cache.put("D", String::from("value_d"));

    assert_eq!(cache.get(&"A"), None);
    assert_eq!(cache.get(&"D"), Some(&String::from("value_d")));
    assert_eq!(cache.get(&"B"), Some(&String::from("value_b")));
}

#[test]
fn test_cache_detailed() {
    let mut cache = Cache::new(3);

    cache.put("A", String::from("value_a"));
    cache.put("B", String::from("value_b"));
    cache.put("C", String::from("value_c"));

    assert_eq!(cache.get(&"A"), Some(&String::from("value_a")));
    assert_eq!(cache.get(&"B"), Some(&String::from("value_b")));
    assert_eq!(cache.get(&"C"), Some(&String::from("value_c")));

    cache.put("D", String::from("value_d"));
    assert_eq!(cache.get(&"A"), None);
    assert_eq!(cache.get(&"D"), Some(&String::from("value_d")));

    let _ = cache.get(&"B");
    cache.put("E", String::from("value_e"));

    assert_eq!(cache.get(&"C"), None);
    assert_eq!(cache.get(&"B"), Some(&String::from("value_b")));
}

#[test]
fn test_different_types() {
    let mut cache_int = Cache::new(2);
    cache_int.put("nombre1", 42);
    cache_int.put("nombre2", 84);
    assert_eq!(cache_int.get(&"nombre1"), Some(&42));

    let mut cache_float = Cache::new(2);
    cache_float.put("pi", 3.14);
    cache_float.put("e", 2.71);
    assert_eq!(cache_float.get(&"pi"), Some(&3.14));
}

#[test]
fn length_never_exceeds_capacity() {
    let mut cache = Cache::new(2);
    let keys = ["a", "b", "c", "a", "d", "e", "b"];
    for (i, k) in keys.iter().enumerate() {
        cache.put(k, i);
        assert!(cache.len() <= cache.capacity());
    }
    assert_eq!(cache.len(), 2);
    assert_eq!(cache.capacity(), 2);
}

#[test]
fn first_inserted_key_is_evicted() {
    let mut cache = Cache::new(4);
    let keys = ["k0", "k1", "k2", "k3", "k4"];
    for (i, k) in keys.iter().enumerate() {
        cache.put(k, i * 10);
    }
    assert_eq!(cache.get("k0"), None);
    for (i, k) in keys.iter().enumerate().skip(1) {
        assert_eq!(cache.get(k), Some(&(i * 10)));
    }
}

#[test]
fn get_promotes_key_so_next_oldest_is_evicted() {
    let mut cache = Cache::new(3);
    cache.put("A", 1);
    cache.put("B", 2);
    cache.put("C", 3);
    assert_eq!(cache.get("A"), Some(&1));
    cache.put("D", 4);
    assert_eq!(cache.get("B"), None);
    assert_eq!(cache.get("A"), Some(&1));
    assert_eq!(cache.get("C"), Some(&3));
    assert_eq!(cache.get("D"), Some(&4));
}

#[test]
fn update_replaces_value_without_eviction() {
    let mut cache = Cache::new(3);
    cache.put("A", "a1");
    cache.put("B", "b1");
    cache.put("C", "c1");
    cache.put("B", "b2");
    assert_eq!(cache.len(), 3);
    assert_eq!(cache.get("B"), Some(&"b2"));
    assert_eq!(cache.get("A"), Some(&"a1"));
    assert_eq!(cache.get("C"), Some(&"c1"));
}

#[test]
fn update_moves_key_to_most_recent() {
    let mut cache = Cache::new(3);
    cache.put("A", 1);
    cache.put("B", 2);
    cache.put("C", 3);
    cache.put("A", 10);
    cache.put("D", 4);
    assert_eq!(cache.get("B"), None);
    assert_eq!(cache.get("A"), Some(&10));
}

#[test]
fn miss_changes_nothing() {
    let mut cache = Cache::new(2);
    cache.put("A", 1);
    cache.put("B", 2);
    assert_eq!(cache.get("Z"), None);
    assert_eq!(cache.len(), 2);
    cache.put("C", 3);
    assert_eq!(cache.get("A"), None);
    assert_eq!(cache.get("B"), Some(&2));
}

#[test]
fn capacity_one_keeps_only_latest() {
    let mut cache = Cache::new(1);
    cache.put("A", 1);
    cache.put("B", 2);
    assert_eq!(cache.get("A"), None);
    assert_eq!(cache.get("B"), Some(&2));
    assert_eq!(cache.len(), 1);
}

#[test]
fn empty_cache_misses() {
    let mut cache: Cache<u8> = Cache::new(5);
    assert_eq!(cache.len(), 0);
    assert_eq!(cache.get(""), None);
    cache.put("", 7);
    assert_eq!(cache.get(""), Some(&7));
}

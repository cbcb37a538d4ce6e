use lru_cache::snapshot::{decode, encode};
use lru_cache::{ApiService, CacheError, PersistentCache};

fn pair(k: &str, v: &str) -> (String, String) {
    (k.to_string(), v.to_string())
}

#[test]
fn test_persistent_cache() {
    let snapshot;
    {
        let mut cache = PersistentCache::new(3, "test_persistence.txt", None).unwrap();
        cache.put("B", String::from("value_b"));
        cache.put("C", String::from("value_c"));
        snapshot = cache.put("D", String::from("value_d"));
    }
    let mut cache = PersistentCache::new(3, "test_persistence.txt", Some(snapshot.as_str())).unwrap();
    assert_eq!(cache.snapshot(), snapshot);
    assert_eq!(cache.get("B").map(|r| r.0), Some(String::from("value_b")));
    assert_eq!(cache.get("C").map(|r| r.0), Some(String::from("value_c")));
    assert_eq!(cache.get("D").map(|r| r.0), Some(String::from("value_d")));
}

#[test]
fn restored_cache_keeps_recency_order() {
    let mut cache = PersistentCache::new(3, "p", None).unwrap();
    cache.put("B", String::from("value_b"));
    cache.put("C", String::from("value_c"));
    cache.put("D", String::from("value_d"));
    let hit = cache.get("B").unwrap();
    assert_eq!(hit.0, "value_b");
    let mut restored = PersistentCache::new(3, "p", Some(hit.1.as_str())).unwrap();
    assert_eq!(restored.snapshot(), hit.1);
    restored.put("E", String::from("value_e"));
    assert_eq!(restored.get("C"), None);
    assert_eq!(restored.get("B").map(|r| r.0), Some(String::from("value_b")));
    assert_eq!(restored.len(), 3);
}

#[test]
fn snapshot_text_format() {
    let mut cache = PersistentCache::new(2, "p", None).unwrap();
    assert_eq!(cache.snapshot(), "");
    let s = cache.put("B", String::from("vb"));
    assert_eq!(s, "+B.+v+b.");
    let s = cache.put("k", String::new());
    assert_eq!(s, "+B.+v+b.+k..");
    let (v, s) = cache.get("B").unwrap();
    assert_eq!(v, "vb");
    assert_eq!(s, "+k..+B.+v+b.");
}

#[test]
fn miss_hands_back_no_snapshot() {
    let mut cache = PersistentCache::new(2, "p", None).unwrap();
    let before = cache.put("A", String::from("x"));
    assert_eq!(cache.get("Z"), None);
    assert_eq!(cache.snapshot(), before);
}

#[test]
fn encode_decode_round_trip() {
    let entries = vec![pair("a.b", "+1"), pair("", "é ü"), pair("k", "")];
    let text = encode(&entries);
    assert_eq!(text, "+a+.+b.+++1..+é+ +ü.+k..");
    assert_eq!(decode(&text), Some(entries));
    assert_eq!(decode(""), Some(vec![]));
}

#[test]
fn decode_refuses_malformed_text() {
    assert_eq!(decode("+a"), None);
    assert_eq!(decode("+a."), None);
    assert_eq!(decode("x."), None);
    assert_eq!(decode("+a.+b.+"), None);
    assert_eq!(decode("+a.+b.."), None);
}

#[test]
fn zero_capacity_is_a_construction_error() {
    assert_eq!(PersistentCache::new(0, "p", None).err(), Some(CacheError::Construction));
    assert_eq!(PersistentCache::new(0, "p", Some("garbage")).err(), Some(CacheError::Construction));
}

#[test]
fn malformed_snapshot_is_a_read_error() {
    assert_eq!(PersistentCache::new(3, "p", Some("+A")).err(), Some(CacheError::PersistenceRead));
}

#[test]
fn duplicate_key_snapshot_is_a_read_error() {
    let text = encode(&vec![pair("A", "1"), pair("A", "2")]);
    assert_eq!(PersistentCache::new(3, "p", Some(text.as_str())).err(), Some(CacheError::PersistenceRead));
}

#[test]
fn oversized_snapshot_is_a_read_error() {
    let text = encode(&vec![pair("A", "1"), pair("B", "2"), pair("C", "3")]);
    assert_eq!(PersistentCache::new(2, "p", Some(text.as_str())).err(), Some(CacheError::PersistenceRead));
    assert!(PersistentCache::new(3, "p", Some(text.as_str())).is_ok());
}

#[test]
fn failed_write_degrades_until_next_success() {
    let mut cache = PersistentCache::new(2, "snap.txt", None).unwrap();
    assert!(!cache.is_degraded());
    assert_eq!(cache.file_path(), "snap.txt");
    cache.put("A", String::from("1"));
    cache.record_write(false);
    assert!(cache.is_degraded());
    assert_eq!(cache.get("A").map(|r| r.0), Some(String::from("1")));
    cache.record_write(true);
    assert!(!cache.is_degraded());
    assert_eq!(cache.capacity(), 2);
}

#[test]
fn api_service_lookup() {
    let api = ApiService::new();
    assert_eq!(api.lookup("A"), Some(String::from("value_a")));
    assert_eq!(api.lookup("B"), Some(String::from("value_b")));
    assert_eq!(api.lookup("C"), Some(String::from("value_c")));
    assert_eq!(api.lookup("D"), None);
}

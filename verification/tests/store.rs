use rehash::{CacheEntry, CacheKey, MetaStore, Timestamp};

fn entry(k: u8, secs: i64, size: u64) -> CacheEntry {
    CacheEntry {
        key: CacheKey::new([k; 32]),
        output_paths: vec![format!("out/{}", k)],
        compressed_size: size,
        original_size: size * 2,
        created_at: Timestamp { secs, nanos: 0 },
        toolchain: "tc".to_string(),
        duration_ms: k as u64,
    }
}

#[test]
fn insert_and_get() {
    let mut store = MetaStore::new("meta".to_string(), 10);
    assert_eq!(store.len(), 0);
    store.insert(entry(1, 5, 100));
    store.insert(entry(2, 6, 200));
    assert_eq!(store.len(), 2);
    let got = store.get(&CacheKey::new([1; 32])).unwrap();
    assert_eq!(got.compressed_size, 100);
    assert_eq!(got.output_paths, vec!["out/1".to_string()]);
    assert!(store.get(&CacheKey::new([3; 32])).is_none());
    assert_eq!(store.total_size(), 300);
    assert_eq!(store.checked_total_size(), Some(300));
    assert_eq!(store.db_dir(), "meta");
}

#[test]
fn insert_replaces_same_key() {
    let mut store = MetaStore::new("meta".to_string(), 10);
    store.insert(entry(1, 5, 100));
    store.insert(entry(1, 9, 700));
    assert_eq!(store.len(), 1);
    assert_eq!(store.get(&CacheKey::new([1; 32])).unwrap().compressed_size, 700);
}

#[test]
fn insert_beyond_limit_drops_oldest() {
    let mut store = MetaStore::new("meta".to_string(), 2);
    store.insert(entry(1, 30, 1));
    store.insert(entry(2, 10, 1));
    store.insert(entry(3, 20, 1));
    assert_eq!(store.len(), 2);
    assert!(store.get(&CacheKey::new([2; 32])).is_none());
    assert!(store.get(&CacheKey::new([1; 32])).is_some());
    assert!(store.get(&CacheKey::new([3; 32])).is_some());
    // An entry older than all others is dropped at once.
    store.insert(entry(4, 1, 1));
    assert!(store.get(&CacheKey::new([4; 32])).is_none());
    assert_eq!(store.len(), 2);
}

#[test]
fn limit_zero_keeps_nothing() {
    let mut store = MetaStore::new("meta".to_string(), 0);
    store.insert(entry(1, 1, 1));
    assert_eq!(store.len(), 0);
}

#[test]
fn timestamps_order_by_seconds_then_nanos() {
    let a = Timestamp { secs: 1, nanos: 5 };
    let b = Timestamp { secs: 1, nanos: 6 };
    let c = Timestamp { secs: 2, nanos: 0 };
    assert!(a.not_after(&b));
    assert!(!b.not_after(&a));
    assert!(b.not_after(&c));
    assert!(a.not_after(&a));
}

#[test]
fn remove_takes_the_entry_out() {
    let mut store = MetaStore::new("meta".to_string(), 10);
    store.insert(entry(1, 5, 100));
    let removed = store.remove(&CacheKey::new([1; 32])).unwrap();
    assert_eq!(removed.duration_ms, 1);
    assert!(store.remove(&CacheKey::new([1; 32])).is_none());
    assert_eq!(store.len(), 0);
}

#[test]
fn load_takes_pairs_later_ones_winning() {
    let mut store = MetaStore::new("meta".to_string(), 10);
    store.insert(entry(9, 1, 1));
    let pairs = vec![
        (CacheKey::new([1; 32]), entry(1, 1, 10)),
        (CacheKey::new([2; 32]), entry(2, 1, 20)),
        (CacheKey::new([1; 32]), entry(1, 1, 30)),
    ];
    store.load(pairs);
    assert_eq!(store.len(), 2);
    assert!(store.get(&CacheKey::new([9; 32])).is_none());
    assert_eq!(store.get(&CacheKey::new([1; 32])).unwrap().compressed_size, 30);
    let snapshot = store.snapshot();
    let mut again = MetaStore::new("other".to_string(), 10);
    again.load(snapshot);
    assert_eq!(again.len(), 2);
    assert_eq!(again.get(&CacheKey::new([2; 32])).unwrap().compressed_size, 20);
    let mut sizes: Vec<u64> = again.entries().iter().map(|e| e.compressed_size).collect();
    sizes.sort();
    assert_eq!(sizes, vec![20, 30]);
}

#[test]
fn total_size_overflow_is_reported() {
    let mut store = MetaStore::new("meta".to_string(), 10);
    store.insert(entry(1, 1, u64::MAX));
    store.insert(entry(2, 2, 1));
    assert_eq!(store.checked_total_size(), None);
}

#[test]
fn entry_clone_is_equal() {
    let e = entry(4, 7, 70);
    let c = e.clone();
    assert_eq!(c.key, e.key);
    assert_eq!(c.output_paths, e.output_paths);
    assert_eq!(c.created_at, e.created_at);
    assert_eq!(c.toolchain, e.toolchain);
}

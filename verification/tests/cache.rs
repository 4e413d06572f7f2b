use std::io::Read;

use rehash::stale::{collected_root_len, depends_on_source};
use rehash::{CacheEngine, CacheKey, Error, Timestamp};

fn archive_of(name: &str, data: &[u8]) -> Vec<u8> {
    let mut builder = tar::Builder::new(Vec::new());
    let mut header = tar::Header::new_gnu();
    header.set_size(data.len() as u64);
    header.set_mode(0o644);
    header.set_cksum();
    builder.append_data(&mut header, name, data).unwrap();
    builder.into_inner().unwrap()
}

fn read_member(archive: &[u8], name: &str) -> Option<Vec<u8>> {
    let mut archive = tar::Archive::new(archive);
    for entry in archive.entries().unwrap() {
        let mut entry = entry.unwrap();
        if entry.path().unwrap().to_str() == Some(name) {
            let mut out = Vec::new();
            entry.read_to_end(&mut out).unwrap();
            return Some(out);
        }
    }
    None
}

fn store_archive(engine: &mut CacheEngine, key: &CacheKey, outputs: Vec<String>, archive: &[u8], toolchain: &str, duration_ms: u64, secs: i64) -> Vec<u8> {
    let object = engine.compress_archive(archive).unwrap();
    engine.store(key, outputs, toolchain, duration_ms, archive.len() as u64, object.len() as u64, Timestamp { secs, nanos: 0 });
    object
}

#[test]
fn test_store_and_restore() {
    let mut engine = CacheEngine::new("cache".to_string(), 100);
    let archive = archive_of("test.txt", b"hello world");
    let key = CacheKey::new([1; 32]);
    let object = store_archive(&mut engine, &key, vec!["out/test.txt".to_string()], &archive, "test-toolchain", 42, 1_700_000_000);

    assert!(engine.contains(&key, true));

    let restored = engine.restore(&object).unwrap();
    let content = read_member(&restored, "test.txt").unwrap();
    assert_eq!(String::from_utf8(content).unwrap(), "hello world");

    let entry = engine.get(&key).unwrap();
    assert_eq!(entry.toolchain, "test-toolchain");
    assert_eq!(entry.duration_ms, 42);
}

#[test]
fn test_cache_miss() {
    let engine = CacheEngine::new("cache".to_string(), 100);
    let key = CacheKey::new([2; 32]);
    let result = engine.get(&key);
    assert!(result.is_err());
    assert!(matches!(result, Err(Error::CacheMiss(_))));
}

#[test]
fn test_eviction() {
    let mut engine = CacheEngine::new("cache".to_string(), 0);
    let archive = archive_of("test.bin", &vec![0u8; 1024]);
    let key = CacheKey::new([3; 32]);
    store_archive(&mut engine, &key, vec!["out/test.bin".to_string()], &archive, "test", 0, 1_700_000_000);

    let report = engine.evict();
    assert!(report.freed > 0);
    assert!(!engine.contains(&key, true));
    assert_eq!(report.removed, vec![key]);
}

#[test]
fn test_cache_key_hex_roundtrip() {
    let original = CacheKey::new([0xab; 32]);
    let hex = original.to_hex();
    assert_eq!(hex.len(), 64);
    let decoded = CacheKey::from_hex(&hex).unwrap();
    assert_eq!(original, decoded);
}

#[test]
fn test_persistence() {
    let archive = archive_of("data.txt", b"persist test");
    let key = CacheKey::new([4; 32]);
    let saved = {
        let mut engine = CacheEngine::new("cache".to_string(), 100);
        store_archive(&mut engine, &key, vec!["out/data.txt".to_string()], &archive, "persist", 10, 1_700_000_000);
        engine.meta_store().snapshot()
    };
    {
        let mut engine = CacheEngine::new("cache".to_string(), 100);
        assert!(engine.needs_load());
        engine.complete_load(Some(saved));
        assert!(!engine.needs_load());
        assert!(engine.contains(&key, true));
        let entry = engine.get(&key).unwrap();
        assert_eq!(entry.toolchain, "persist");
    }
}

#[test]
fn cache_miss_names_the_key_in_hex() {
    let engine = CacheEngine::new("cache".to_string(), 100);
    match engine.get(&CacheKey::new([0x0f; 32])) {
        Err(e @ Error::CacheMiss(_)) => {
            let expected = "0f".repeat(32);
            assert!(matches!(&e, Error::CacheMiss(h) if *h == expected));
            assert_eq!(e.message(), format!("cache miss: {}", expected));
        }
        _ => panic!("expected a cache miss"),
    }
}

#[test]
fn contains_needs_the_object_file() {
    let mut engine = CacheEngine::new("cache".to_string(), 100);
    let key = CacheKey::new([5; 32]);
    store_archive(&mut engine, &key, vec![], &archive_of("a", b"a"), "t", 1, 1);
    assert!(engine.contains(&key, true));
    assert!(!engine.contains(&key, false));
    assert!(!engine.contains(&CacheKey::new([6; 32]), true));
}

#[test]
fn paths_of_the_cache() {
    let engine = CacheEngine::new("/home/u/.cache/rehash".to_string(), 100);
    assert_eq!(engine.cache_dir(), "/home/u/.cache/rehash");
    assert_eq!(engine.meta_store().db_dir(), "/home/u/.cache/rehash/meta");
    assert_eq!(engine.objects_dir(), "/home/u/.cache/rehash/objects");
    let key = CacheKey::new([0xab; 32]);
    assert_eq!(engine.object_path(&key), format!("/home/u/.cache/rehash/objects/{}.zst", "ab".repeat(32)));
    let trailing = CacheEngine::new("dir/".to_string(), 1);
    assert_eq!(trailing.objects_dir(), "dir/objects");
    let empty = CacheEngine::new(String::new(), 1);
    assert_eq!(empty.objects_dir(), "objects");
}

#[test]
fn eviction_under_limit_does_nothing() {
    let mut engine = CacheEngine::new("cache".to_string(), 1);
    let key = CacheKey::new([7; 32]);
    store_archive(&mut engine, &key, vec![], &archive_of("x", b"x"), "t", 1, 5);
    let report = engine.evict();
    assert!(!report.over_limit);
    assert_eq!(report.freed, 0);
    assert!(report.removed.is_empty());
    assert!(engine.contains(&key, true));
}

#[test]
fn eviction_removes_oldest_until_within_limit() {
    // Limit 1 MiB; three objects of about 600 KiB each, stored out of age order.
    let mut engine = CacheEngine::new("cache".to_string(), 1);
    let keys = [CacheKey::new([10; 32]), CacheKey::new([11; 32]), CacheKey::new([12; 32])];
    let ages = [30, 10, 20];
    for (k, age) in keys.iter().zip(ages.iter()) {
        engine.store(k, vec![], "t", 0, 600_000, 600_000, Timestamp { secs: *age, nanos: 0 });
    }
    let report = engine.evict();
    assert!(report.over_limit);
    assert_eq!(report.removed, vec![keys[1], keys[2]]);
    assert_eq!(report.freed, 1_200_000);
    assert!(engine.contains(&keys[0], true));
    assert_eq!(engine.meta_store().len(), 1);
}

#[test]
fn restore_gives_back_the_archive() {
    let engine = CacheEngine::new("cache".to_string(), 100);
    let archive: Vec<u8> = (0..5000u32).map(|i| (i % 251) as u8).collect();
    let object = engine.compress_archive(&archive).unwrap();
    assert_ne!(object, archive);
    assert_eq!(engine.restore(&object).unwrap(), archive);
    assert!(matches!(engine.restore(b"not zstd"), Err(Error::Compress(_))));
}

#[test]
fn changed_source_invalidates_builds_of_its_project() {
    let mut engine = CacheEngine::new("cache".to_string(), 100);
    let archive = archive_of("app", b"binary");
    let a = CacheKey::new([1; 32]);
    let b = CacheKey::new([2; 32]);
    let c = CacheKey::new([3; 32]);
    store_archive(&mut engine, &a, vec!["/work/p/target/debug/app".to_string()], &archive, "tc", 1, 10);
    store_archive(&mut engine, &b, vec!["/work/q/dist/bundle.js".to_string()], &archive, "tc", 1, 11);
    store_archive(&mut engine, &c, vec!["/work/p/build/lib.o".to_string(), "/work/pp/dist/x".to_string()], &archive, "tc", 1, 12);
    assert!(engine.invalidate("/work/other/src/main.rs").is_empty());
    assert!(engine.invalidate("/work/p").is_empty());
    let mut removed = engine.invalidate("/work/p/src/main.rs");
    removed.sort_by_key(|k| *k.as_bytes());
    assert_eq!(removed, vec![a, c]);
    assert!(engine.get(&a).is_err());
    assert!(engine.get(&c).is_err());
    assert!(engine.get(&b).is_ok());
    assert!(engine.invalidate("/work/p/src/main.rs").is_empty());
}

#[test]
fn dependence_follows_output_directories() {
    assert_eq!(collected_root_len("/w/p/target/debug/app", "target/debug"), Some(4));
    assert_eq!(collected_root_len("/w/p/target/debug/app", "build"), None);
    assert_eq!(collected_root_len("/w/p/build/sub/x", "build"), None);
    assert_eq!(collected_root_len("build/x", "build"), None);
    let e = rehash::CacheEntry {
        key: CacheKey::new([9; 32]),
        output_paths: vec!["/w/p/dist/app.js".to_string()],
        compressed_size: 1,
        original_size: 1,
        created_at: Timestamp { secs: 0, nanos: 0 },
        toolchain: String::new(),
        duration_ms: 0,
    };
    assert!(depends_on_source(&e, "/w/p/index.ts"));
    assert!(depends_on_source(&e, "/w/p/src/deep/mod.ts"));
    assert!(!depends_on_source(&e, "/w/pq/index.ts"));
    assert!(!depends_on_source(&e, "/w/p"));
}

#[test]
fn second_store_replaces_and_second_evict_frees_nothing() {
    let mut engine = CacheEngine::new("cache".to_string(), 0);
    let key = CacheKey::new([7; 32]);
    store_archive(&mut engine, &key, vec!["o1".to_string()], &archive_of("a", b"first"), "a", 1, 100);
    store_archive(&mut engine, &key, vec!["o2".to_string()], &archive_of("b", b"second"), "b", 2, 200);
    let got = engine.get(&key).unwrap();
    assert_eq!(got.output_paths, vec!["o2".to_string()]);
    assert_eq!(got.toolchain, "b");
    assert_eq!(got.duration_ms, 2);
    let first = engine.evict();
    assert!(first.over_limit);
    assert!(first.freed > 0);
    let second = engine.evict();
    assert!(!second.over_limit);
    assert_eq!(second.freed, 0);
    assert!(second.removed.is_empty());
}

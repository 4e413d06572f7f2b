use rehash::cli::{build_file_candidates, build_key, is_source_extension, join_words, output_dirs, should_descend, size_unit, SizeUnit};
use rehash::cli::{next_build_action, BuildAction, BuildEvent};
use rehash::compress::Compressor;
use rehash::hasher::Hasher;
use rehash::text::{decimal_string, join_path, str_eq};
use rehash::watch::{dispatch, invalidated_response, is_source_file, should_ignore, stats_response, IpcRequest, RequestAction, ResponseData};
use rehash::{CacheKey, Error};

#[test]
fn hasher_matches_blake3() {
    let mut h = Hasher::new();
    h.update(b"hello ");
    h.update_str("world");
    assert_eq!(h.finalize(), *blake3::hash(b"hello world").as_bytes());
    assert_eq!(h.finalize_hex(), blake3::hash(b"hello world").to_hex().to_string());
    let empty = Hasher::default();
    assert_eq!(empty.finalize_hex(), "af1349b9f5f9a1a6a0404dea36dcc9499bcb25c9adc112b7cc9a93cae41f3262");
}

#[test]
fn hasher_pieces_hash_like_the_whole() {
    let mut a = Hasher::new();
    a.update(b"abc");
    a.update(b"def");
    let mut b = Hasher::new();
    b.update(b"abcdef");
    assert_eq!(a.finalize(), b.finalize());
    assert_eq!(CacheKey::new(a.finalize()).to_hex(), a.finalize_hex());
}

#[test]
fn compressor_round_trip() {
    let c = Compressor::new(3);
    let data = b"aaaaaaaaaaaaaaaaaaaaaaaaaaaaaaaaaaaaaaaaaaaaaaaaaaaaaaaaaaaa".to_vec();
    let packed = c.compress(&data).unwrap();
    assert!(packed.len() < data.len());
    assert_eq!(c.decompress(&packed).unwrap(), data);
    assert_eq!(zstd::decode_all(&packed[..]).unwrap(), data);
    let d = Compressor::default();
    assert_eq!(d.decompress(&d.compress(b"").unwrap()).unwrap(), Vec::<u8>::new());
    match c.decompress(b"garbage") {
        Err(e @ Error::Compress(_)) => assert!(e.message().starts_with("compression error: ")),
        _ => panic!("expected a compression error"),
    }
}

#[test]
fn decimal_and_paths() {
    assert_eq!(decimal_string(0), "0");
    assert_eq!(decimal_string(7), "7");
    assert_eq!(decimal_string(10), "10");
    assert_eq!(decimal_string(1234567890), "1234567890");
    assert_eq!(join_path("a", "b"), "a/b");
    assert_eq!(join_path("a/", "b"), "a/b");
    assert_eq!(join_path("", "b"), "b");
    assert!(str_eq("abc", "abc"));
    assert!(!str_eq("abc", "abd"));
    assert!(!str_eq("abc", "ab"));
}

#[test]
fn build_files_and_outputs() {
    assert_eq!(build_file_candidates(), vec!["Cargo.toml", "CMakeLists.txt", "package.json", "Makefile", "meson.build", "build.gradle", "pom.xml", "go.mod"]);
    assert_eq!(output_dirs(), vec!["target/debug", "build", "dist"]);
}

#[test]
fn source_walk_decisions() {
    assert!(should_descend("src"));
    assert!(should_descend(""));
    assert!(!should_descend(".git"));
    assert!(!should_descend("node_modules"));
    assert!(!should_descend("target"));
    assert!(!should_descend("build"));
    for e in ["rs", "c", "h", "cpp", "hpp", "js", "ts", "py", "go", "java"] {
        assert!(is_source_extension(e));
    }
    assert!(!is_source_extension("toml"));
    assert!(!is_source_extension("RS"));
}

#[test]
fn size_units() {
    assert!(matches!(size_unit(0), SizeUnit::Bytes));
    assert!(matches!(size_unit(1023), SizeUnit::Bytes));
    assert!(matches!(size_unit(1024), SizeUnit::KiB));
    assert!(matches!(size_unit(1024 * 1024 - 1), SizeUnit::KiB));
    assert!(matches!(size_unit(1024 * 1024), SizeUnit::MiB));
    assert!(matches!(size_unit(1 << 30), SizeUnit::GiB));
    assert!(matches!(size_unit(u64::MAX), SizeUnit::GiB));
}

#[test]
fn build_key_hashes_inputs_in_order() {
    let files = vec![b"fn main() {}".to_vec(), b"[package]".to_vec()];
    let command = vec!["cargo".to_string(), "build".to_string()];
    let key = build_key(&files, &command, "/usr/bin", Some("stable"));
    let expected = blake3::hash(b"fn main() {}[package]cargo build/usr/binstable");
    assert_eq!(key.as_bytes(), expected.as_bytes());
    let no_tc = build_key(&files, &command, "/usr/bin", None);
    assert_eq!(no_tc.as_bytes(), blake3::hash(b"fn main() {}[package]cargo build/usr/bin").as_bytes());
    assert_eq!(join_words(&vec![]), "");
    assert_eq!(join_words(&vec!["make".to_string()]), "make");
    assert_eq!(join_words(&command), "cargo build");
}

#[test]
fn watcher_filters() {
    assert!(should_ignore(&vec!["home", "p", "target", "x.rs"]));
    assert!(should_ignore(&vec![".git", "HEAD"]));
    assert!(!should_ignore(&vec!["src", "main.rs"]));
    assert!(!should_ignore(&vec![]));
    assert!(is_source_file(Some("Makefile"), None));
    assert!(is_source_file(Some("x.json"), Some("json")));
    assert!(is_source_file(None, Some("mk")));
    assert!(!is_source_file(Some("README.md"), Some("md")));
    assert!(!is_source_file(None, None));
}

fn text_reply(a: RequestAction) -> (String, String) {
    match a {
        RequestAction::Reply(r) => match r.data {
            Some(ResponseData::Text(t)) => (r.status, t),
            _ => panic!("expected text data"),
        },
        _ => panic!("expected a reply"),
    }
}

#[test]
fn ipc_dispatch() {
    let req = |k: &str| IpcRequest { kind: k.to_string(), path: None };
    assert_eq!(text_reply(dispatch(Some(&req("ping")))), ("ok".to_string(), "pong".to_string()));
    assert_eq!(text_reply(dispatch(Some(&req("nope")))), ("error".to_string(), "unknown command".to_string()));
    assert_eq!(text_reply(dispatch(None)), ("error".to_string(), "parse error".to_string()));
    assert!(matches!(dispatch(Some(&req("stats"))), RequestAction::ReportStats));
    assert!(matches!(dispatch(Some(&IpcRequest { kind: "invalidate".to_string(), path: Some("a".to_string()) })), RequestAction::Invalidate));
    let s = stats_response(10, 2);
    assert_eq!(s.status, "ok");
    assert!(matches!(s.data, Some(ResponseData::Stats { size: 10, entries: 2 })));
    let i = invalidated_response();
    assert_eq!(i.status, "ok");
    assert!(i.data.is_none());
}

#[test]
fn error_messages() {
    assert_eq!(Error::Corrupt("x".to_string()).message(), "corrupt cache: x");
    assert_eq!(Error::Serde("y".to_string()).message(), "serialization error: y");
    let io = Error::Io(std::io::Error::new(std::io::ErrorKind::Other, "boom"));
    assert_eq!(io.message(), "I/O error: boom");
}

#[test]
fn build_lifecycle_decisions() {
    assert!(matches!(next_build_action(false, BuildEvent::CacheChecked { hit: true }), BuildAction::Restore));
    assert!(matches!(next_build_action(true, BuildEvent::CacheChecked { hit: true }), BuildAction::RunBuild));
    assert!(matches!(next_build_action(false, BuildEvent::CacheChecked { hit: false }), BuildAction::RunBuild));
    assert!(matches!(next_build_action(true, BuildEvent::CacheChecked { hit: false }), BuildAction::RunBuild));
    assert!(matches!(next_build_action(false, BuildEvent::BuildExited { success: true }), BuildAction::CollectAndStore));
    assert!(matches!(next_build_action(true, BuildEvent::BuildExited { success: false }), BuildAction::FailBuild));
}

#[test]
fn frames_decompress_at_any_level() {
    let data = b"the same bytes, compressed at one level and read at another".repeat(20);
    let fast = Compressor::new(1);
    let strong = Compressor::new(19);
    let packed = strong.compress(&data).unwrap();
    assert_eq!(fast.decompress(&packed).unwrap(), data);
    let clamped = Compressor::new(1000).compress(&data).unwrap();
    assert_eq!(Compressor::default().decompress(&clamped).unwrap(), data);
    assert_eq!(Compressor::new(3).compress(&data).unwrap(), zstd::encode_all(&data[..], 3).unwrap());
}

#[test]
fn io_error_message_has_prefix() {
    let e = Error::Io(std::io::Error::new(std::io::ErrorKind::NotFound, "gone"));
    assert_eq!(e.message(), "I/O error: gone");
}

#[test]
fn key_input_changes_with_each_part() {
    let files = vec![b"fn main() {}".to_vec(), b"[package]".to_vec()];
    let cmd = vec!["cargo".to_string(), "build".to_string()];
    let base = build_key(&files, &cmd, "/usr/bin", Some("stable"));
    let mut changed = files.clone();
    changed[1] = b"[package]\nname = \"x\"".to_vec();
    assert_ne!(build_key(&changed, &cmd, "/usr/bin", Some("stable")).as_bytes(), base.as_bytes());
    let cmd2 = vec!["cargo".to_string(), "test".to_string()];
    assert_ne!(build_key(&files, &cmd2, "/usr/bin", Some("stable")).as_bytes(), base.as_bytes());
    assert_ne!(build_key(&files, &cmd, "/bin", Some("stable")).as_bytes(), base.as_bytes());
    assert_ne!(build_key(&files, &cmd, "/usr/bin", Some("nightly")).as_bytes(), base.as_bytes());
    assert_eq!(build_key(&files, &cmd, "/usr/bin", Some("stable")).as_bytes(), base.as_bytes());
}

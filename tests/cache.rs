use tags::cache::{decode_stored, load_from, save_result, stored_bytes, CacheError, TagCache};
use tags::codec::{decode, encode};
use tags::TaggedFile;

fn file(path: &str, tags: &[&str]) -> TaggedFile {
    let mut f = TaggedFile::new(path);
    for t in tags {
        f.add_tag(t);
    }
    f
}

fn cache_of(files: Vec<TaggedFile>) -> TagCache {
    let mut c = TagCache::empty();
    for f in files {
        c.add_file(f);
    }
    c
}

fn contents(c: &TagCache) -> Vec<(String, Vec<String>)> {
    let mut out = Vec::new();
    for i in 0..c.len() {
        let f = c.file(i);
        let tags = (0..f.tag_count()).map(|k| f.tag(k).to_string()).collect();
        out.push((f.path().to_string(), tags));
    }
    out
}

fn save_and_load(c: &TagCache, path: &str) -> Result<TagCache, CacheError> {
    let bytes = stored_bytes(c);
    load_from(path, Ok(bytes))
}

#[test]
fn round_trip_keeps_order_paths_and_tags() {
    let c = cache_of(vec![
        file("/etc/hosts", &["net", "system"]),
        file("/tmp/empty", &[]),
        file("/etc/hosts", &["dup", "dup"]),
        file("/home/zoë/notes ✓.txt", &["ünïcode", "日本"]),
    ]);
    let loaded = save_and_load(&c, "/tmp/cache.tag").unwrap();
    assert_eq!(contents(&loaded), contents(&c));
}

#[test]
fn encoding_is_deterministic() {
    let c = cache_of(vec![file("/a", &["x", "y"]), file("/b", &[])]);
    let d = cache_of(vec![file("/a", &["x", "y"]), file("/b", &[])]);
    assert_eq!(encode(&c), encode(&c));
    assert_eq!(encode(&c), encode(&d));
    assert_eq!(stored_bytes(&c), stored_bytes(&d));
}

#[test]
fn empty_cache_round_trip() {
    let c = TagCache::empty();
    let loaded = save_and_load(&c, "/tmp/empty.tag").unwrap();
    assert_eq!(loaded.len(), 0);
}

#[test]
fn truncated_file_is_deserialization_error() {
    let c = cache_of(vec![file("/home/jan/.zshrc", &["zsh", "config", "shell"])]);
    let bytes = stored_bytes(&c);
    for cut in 1..=bytes.len() {
        let short = bytes[..bytes.len() - cut].to_vec();
        let r = load_from("/tmp/c.tag", Ok(short));
        assert!(matches!(r, Err(CacheError::DeserializationError { .. })), "cut {cut}");
    }
}

#[test]
fn truncated_encoding_does_not_decode() {
    let c = cache_of(vec![file("/a", &["x"]), file("/b", &["y", "z"])]);
    let enc = encode(&c);
    for len in 0..enc.len() {
        assert!(decode(&enc[..len]).is_none(), "len {len}");
    }
}

#[test]
fn missing_file_is_io_error_with_path() {
    let path = "/no/such/dir/cache.tag";
    let r = load_from(path, Err("No such file or directory (os error 2)".to_string()));
    match r {
        Err(CacheError::Io { path: p, reason }) => {
            assert_eq!(p, path);
            assert_eq!(reason, "No such file or directory (os error 2)");
        }
        other => panic!("expected an I/O error, got {other:?}"),
    }
}

#[test]
fn overwrite_replaces_old_entries() {
    let old = cache_of(vec![file("/old", &["stale"]), file("/older", &[])]);
    let new = cache_of(vec![file("/new", &["fresh"])]);
    let on_disk = stored_bytes(&old);
    assert_eq!(load_from("/tmp/o.tag", Ok(on_disk)).unwrap().len(), 2);
    let on_disk = stored_bytes(&new);
    let loaded = load_from("/tmp/o.tag", Ok(on_disk)).unwrap();
    assert_eq!(contents(&loaded), vec![("/new".to_string(), vec!["fresh".to_string()])]);
}

#[test]
fn zshrc_example() {
    let mut tag_file = TaggedFile::new("/home/jan/.zshrc");
    tag_file.add_tag("zsh");
    tag_file.add_tag("config");
    tag_file.add_tag("shell");
    let mut cache = TagCache::empty();
    cache.add_file(tag_file);
    let loaded = save_and_load(&cache, "/home/jan/tagcachev2.tag").unwrap();
    assert_eq!(loaded.len(), 1);
    let f = loaded.file(0);
    assert_eq!(f.path(), "/home/jan/.zshrc");
    assert_eq!(f.tag_count(), 3);
    assert_eq!(f.tag(0), "zsh");
    assert_eq!(f.tag(1), "config");
    assert_eq!(f.tag(2), "shell");
}

#[test]
fn encoding_layout() {
    let c = cache_of(vec![file("/a", &["x"])]);
    let expected: Vec<u8> = vec![
        1, 0, 0, 0, 0, 0, 0, 0, // entries
        2, 0, 0, 0, 0, 0, 0, 0, b'/', b'a', // path
        1, 0, 0, 0, 0, 0, 0, 0, // tags
        1, 0, 0, 0, 0, 0, 0, 0, b'x',
    ];
    assert_eq!(encode(&c), expected);
    assert_eq!(encode(&TagCache::empty()), vec![0u8; 8]);
}

#[test]
fn encoding_counts_utf8_bytes() {
    let c = cache_of(vec![file("é", &[])]);
    let enc = encode(&c);
    assert_eq!(&enc[8..18], &[2, 0, 0, 0, 0, 0, 0, 0, 0xc3, 0xa9]);
}

#[test]
fn encoding_agrees_with_bincode() {
    let c = cache_of(vec![file("/a/b", &["one", "two"]), file("/c", &[])]);
    let plain: Vec<(String, Vec<String>)> = contents(&c);
    assert_eq!(encode(&c), bincode::serialize(&plain).unwrap());
}

#[test]
fn decode_rejects_trailing_bytes_and_bad_utf8() {
    let c = cache_of(vec![file("/a", &["x"])]);
    let mut enc = encode(&c);
    enc.push(0);
    assert!(decode(&enc).is_none());
    enc.pop();
    let last = enc.len() - 1;
    enc[last] = 0xff;
    assert!(decode(&enc).is_none());
}

#[test]
fn decode_reads_back_encoding() {
    let c = cache_of(vec![file("/x", &["t1", "t2"]), file("/y", &["t3"])]);
    let d = decode(&encode(&c)).unwrap();
    assert_eq!(contents(&d), contents(&c));
}

#[test]
fn stored_bytes_are_compressed() {
    let c = cache_of(vec![file("/aaaaaaaaaaaaaaaaaaaaaaaaaaaaaaaaaaaaaaaaaaaaaaaa", &["aaaaaaaaaaaaaaaaaaaa"; 20])]);
    let enc = encode(&c);
    let stored = stored_bytes(&c);
    assert_ne!(stored, enc);
    assert!(stored.len() < enc.len());
}

#[test]
fn garbage_file_is_deserialization_error() {
    let r = load_from("/p", Ok(vec![0xff, 0xff, 0xff, 0xff]));
    assert!(matches!(r, Err(CacheError::DeserializationError { .. })));
    let r = load_from("/p", Ok(Vec::new()));
    assert!(matches!(r, Err(CacheError::DeserializationError { .. })));
}

#[test]
fn valid_stream_with_bad_payload_is_deserialization_error() {
    // A stored empty cache, next to one whose bytes decompress but do not decode.
    let c = TagCache::empty();
    let stored = stored_bytes(&c);
    assert_eq!(load_from("/p", Ok(stored)).unwrap().len(), 0);
    let r = load_from("/p", Ok(vec![0x03, 0x00]));
    assert!(matches!(r, Err(CacheError::DeserializationError { .. })));
}

#[test]
fn save_result_reports_write_failure_against_path() {
    assert!(save_result("/p", Ok(())).is_ok());
    match save_result("/ro/c.tag", Err("Permission denied (os error 13)".to_string())) {
        Err(CacheError::Io { path, reason }) => {
            assert_eq!(path, "/ro/c.tag");
            assert_eq!(reason, "Permission denied (os error 13)");
        }
        other => panic!("expected an I/O error, got {other:?}"),
    }
}

#[test]
fn decode_stored_round_trip_and_errors() {
    let c = cache_of(vec![file("/srv/data", &["backup", "weekly"])]);
    let stored = stored_bytes(&c);
    let d = decode_stored(&stored).unwrap();
    assert_eq!(contents(&d), contents(&c));
    let plain = encode(&c);
    assert!(matches!(
        decode_stored(&plain),
        Err(CacheError::DeserializationError { .. })
    ));
}

#[test]
fn zshrc_example_stored_payload() {
    let c = cache_of(vec![file("/home/jan/.zshrc", &["zsh", "config", "shell"])]);
    let mut expected: Vec<u8> = Vec::new();
    expected.extend_from_slice(&1u64.to_le_bytes());
    expected.extend_from_slice(&16u64.to_le_bytes());
    expected.extend_from_slice(b"/home/jan/.zshrc");
    expected.extend_from_slice(&3u64.to_le_bytes());
    for t in ["zsh", "config", "shell"] {
        expected.extend_from_slice(&(t.len() as u64).to_le_bytes());
        expected.extend_from_slice(t.as_bytes());
    }
    assert_eq!(expected.len(), 78);
    assert_eq!(encode(&c), expected);
    let stored = stored_bytes(&c);
    assert_eq!(contents(&decode_stored(&stored).unwrap()), contents(&c));
}

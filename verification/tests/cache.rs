use mtl::cache::{cached_id, CacheKey, CacheValue, CacheWriter, Received, WriteRequest};
use mtl::data::ObjectID;
use mtl::hash;

fn value(mtime: u128, size: u64, id: u64) -> CacheValue {
    CacheValue {
        mtime,
        size,
        object_id: ObjectID::new(hash::Hash::new(id)),
    }
}

#[test]
fn cache_value_takes_32_bytes_little_endian() {
    let v = value(1, 2, 3);
    let bytes = v.as_bytes();
    let mut expected = vec![0u8; 32];
    expected[0] = 1;
    expected[16] = 2;
    expected[24] = 3;
    assert_eq!(bytes, expected);
    assert_eq!(CacheValue::fixed_width(), 32);
    assert_eq!(CacheValue::from_bytes(&bytes), v);

    let v = value(u128::MAX - 1, 0x0102030405060708, 0xd447b1ea40e6988b);
    let bytes = v.as_bytes();
    assert_eq!(bytes.len(), 32);
    assert_eq!(&bytes[16..24], &[8, 7, 6, 5, 4, 3, 2, 1]);
    assert_eq!(bytes[0], 0xfe);
    assert_eq!(CacheValue::from_bytes(&bytes), v);
}

#[test]
fn cache_hit_needs_both_time_and_size() {
    let v = value(10, 20, 30);
    assert_eq!(cached_id(Some(v), 10, 20), Some(v.object_id));
    assert_eq!(cached_id(Some(v), 11, 20), None);
    assert_eq!(cached_id(Some(v), 10, 21), None);
    assert_eq!(cached_id(None, 10, 20), None);
    assert!(v.matches(10, 20));
    assert!(!v.matches(0, 20));
}

#[test]
fn cache_value_of_contents_holds_their_id() {
    let v = CacheValue::of_contents(b"hello world", 5, 11);
    assert_eq!(v.mtime, 5);
    assert_eq!(v.size, 11);
    assert_eq!(v.object_id, ObjectID::from_hex("d447b1ea40e6988b").unwrap());
    assert_eq!(cached_id(Some(v), 5, 11), Some(ObjectID::from_contents(b"hello world")));
}

#[test]
fn cache_key_is_the_path() {
    let k = CacheKey::new(b"a/\xff/b");
    assert_eq!(k.path, b"a/\xff/b".to_vec());
    assert_eq!(k.as_bytes(), b"a/\xff/b".to_vec());
    assert_eq!(CacheKey::from_bytes(&k.as_bytes()), k);
    assert_eq!(k.clone(), k);
    assert!(CacheKey::key_is_before(b"a", b"b"));
    assert!(CacheKey::key_is_before(b"a", b"a/"));
    assert!(!CacheKey::key_is_before(b"b", b"a"));
    assert!(!CacheKey::key_is_before(b"a", b"a"));
}

fn insert(path: &str, v: CacheValue) -> Received {
    Received::Request(WriteRequest::Insert(CacheKey::new(path.as_bytes()), v))
}

#[test]
fn writer_buffers_until_the_interval_has_gone_by() {
    let mut w = CacheWriter::new(100);
    let s = w.step(insert("foo", value(1, 2, 3)), false);
    assert!(s.batch.is_empty() && !s.flushed && !s.exit);
    let s = w.step(insert("bar", value(2, 10, 6)), false);
    assert!(s.batch.is_empty() && !s.flushed && !s.exit);
    let s = w.step(Received::Timeout, false);
    assert!(s.batch.is_empty() && !s.flushed && !s.exit);
    let s = w.step(Received::Timeout, true);
    assert!(s.flushed && !s.exit);
    assert_eq!(
        s.batch,
        vec![
            (CacheKey::new(b"foo"), value(1, 2, 3)),
            (CacheKey::new(b"bar"), value(2, 10, 6))
        ]
    );
    let s = w.step(Received::Timeout, true);
    assert!(s.batch.is_empty() && s.flushed && !s.exit);
}

#[test]
fn writer_flushes_over_the_threshold() {
    let mut w = CacheWriter::new(2);
    assert!(w.step(insert("a", value(1, 1, 1)), false).batch.is_empty());
    assert!(w.step(insert("b", value(1, 1, 1)), false).batch.is_empty());
    let s = w.step(insert("c", value(1, 1, 1)), false);
    assert_eq!(s.batch.len(), 3);
    assert!(s.flushed && !s.exit);
    assert!(w.step(Received::Timeout, false).batch.is_empty());
}

#[test]
fn writer_drains_on_shutdown_and_disconnect() {
    let mut w = CacheWriter::new(100);
    w.step(insert("a", value(1, 1, 1)), false);
    let s = w.step(Received::Request(WriteRequest::Shutdown), false);
    assert!(s.exit && !s.flushed);
    assert_eq!(s.batch, vec![(CacheKey::new(b"a"), value(1, 1, 1))]);

    let mut w = CacheWriter::new(100);
    w.step(insert("b", value(2, 2, 2)), false);
    let s = w.step(Received::Disconnected, false);
    assert!(s.exit);
    assert_eq!(s.batch, vec![(CacheKey::new(b"b"), value(2, 2, 2))]);
}

#[test]
fn writer_waits_for_what_is_left_of_the_interval() {
    assert_eq!(CacheWriter::remaining(1_000_000, 0), 1_000_000);
    assert_eq!(CacheWriter::remaining(1_000_000, 400_000), 600_000);
    assert_eq!(CacheWriter::remaining(1_000_000, 1_000_000), 0);
    assert_eq!(CacheWriter::remaining(1_000_000, 5_000_000), 0);
}

/// Writes a batch as the writer thread does: every entry under its key.
fn flush(table: &mut std::collections::HashMap<Vec<u8>, Vec<u8>>, batch: Vec<(CacheKey, CacheValue)>) {
    for (key, value) in batch {
        table.insert(key.as_bytes(), value.as_bytes());
    }
}

fn get(table: &std::collections::HashMap<Vec<u8>, Vec<u8>>, path: &str) -> Option<CacheValue> {
    table
        .get(&CacheKey::new(path.as_bytes()).as_bytes())
        .map(|bytes| CacheValue::from_bytes(bytes))
}

#[test]
fn test_cache() {
    let mut table = std::collections::HashMap::new();
    let mut writer = CacheWriter::new(1000);

    let expected = CacheValue {
        mtime: 1,
        size: 2,
        object_id: ObjectID::new(hash::Hash::new(3)),
    };
    let step = writer.step(insert("foo", expected), false);
    flush(&mut table, step.batch);
    assert_eq!(get(&table, "foo"), None);
    let step = writer.step(Received::Timeout, true);
    flush(&mut table, step.batch);

    let actual = get(&table, "foo").unwrap();
    assert_eq!(expected, actual);

    let expected = CacheValue {
        mtime: 2,
        size: 10,
        object_id: ObjectID::new(hash::Hash::new(6)),
    };
    let step = writer.step(insert("bar", expected), false);
    flush(&mut table, step.batch);
    let step = writer.step(insert("foo", expected), false);
    flush(&mut table, step.batch);
    let step = writer.step(Received::Timeout, true);
    flush(&mut table, step.batch);

    let actual = get(&table, "bar").unwrap();
    assert_eq!(expected, actual);

    let actual = get(&table, "foo").unwrap();
    assert_eq!(expected, actual);
}

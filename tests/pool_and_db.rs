use quark::buffer_pool::{CircularBuffer, Handle};
use quark::db::CacheDB;
use quark::error::QuarkError;
use quark::storage::{encode_record, next_record, EntryHeader};

#[test]
fn pool_scenario_region_256() {
    let mut pool = CircularBuffer::new(256);
    for expected in [0usize, 64, 128] {
        let g = pool.allocate(64).unwrap();
        assert_eq!(g.handle, Handle { offset: expected, size: 64 });
        assert!(g.evicted.is_empty());
    }
    assert_eq!(pool.tail_offset(), 192);
    assert_eq!(pool.head_offset(), 0);
    let g = pool.allocate(64).unwrap();
    assert!(g.evicted.is_empty());
    assert_eq!(pool.tail_offset(), 256);
    assert_eq!(pool.head_offset(), 0);
    let g = pool.allocate(32).unwrap();
    assert_eq!(g.evicted, vec![Handle { offset: 0, size: 64 }]);
    assert_eq!(g.handle, Handle { offset: 256, size: 32 });
    assert_eq!(g.handle.offset % pool.capacity(), 0);
    assert_eq!(pool.head_offset(), 64);
    assert_eq!(pool.tail_offset(), 288);
    assert_eq!(pool.live_count(), 4);
}

#[test]
fn pool_full_region_evicts_oldest() {
    let mut pool = CircularBuffer::new(100);
    pool.allocate(30).unwrap();
    pool.allocate(50).unwrap();
    pool.allocate(20).unwrap();
    let head = pool.head_offset();
    let g = pool.allocate(1).unwrap();
    assert_eq!(g.evicted, vec![Handle { offset: 0, size: 30 }]);
    assert!(pool.head_offset() > head);
    assert!(pool.head_offset() <= pool.tail_offset());
    let g = pool.allocate(60).unwrap();
    assert_eq!(g.evicted, vec![Handle { offset: 30, size: 50 }]);
    assert_eq!(pool.head_offset(), 80);
    let g = pool.allocate(100).unwrap();
    assert_eq!(g.evicted, vec![Handle { offset: 80, size: 20 }, Handle { offset: 100, size: 1 }, Handle { offset: 101, size: 60 }]);
    assert_eq!(pool.head_offset(), 161);
    assert_eq!(pool.tail_offset(), 261);
    assert_eq!(pool.live_count(), 1);
}

#[test]
fn pool_pinned_allocation_blocks_eviction() {
    let mut pool = CircularBuffer::new(128);
    let a = pool.allocate(64).unwrap().handle;
    pool.allocate(64).unwrap();
    assert!(pool.pin(a));
    assert!(pool.allocate(16).is_err());
    assert_eq!(pool.allocate(16).err(), Some(QuarkError::OutOfSpace));
    assert_eq!(pool.head_offset(), 0);
    assert_eq!(pool.tail_offset(), 128);
    assert_eq!(pool.oldest().unwrap().pins, 1);
    assert!(pool.unpin(a));
    assert!(!pool.unpin(a));
    let g = pool.allocate(16).unwrap();
    assert_eq!(g.evicted, vec![a]);
}

#[test]
fn pool_rejects_oversized_request() {
    let mut pool = CircularBuffer::new(64);
    assert_eq!(pool.allocate(65).err(), Some(QuarkError::OutOfSpace));
    assert_eq!(pool.tail_offset(), 0);
    assert!(!pool.pin(Handle { offset: 0, size: 8 }));
    let g = pool.allocate(64).unwrap();
    assert_eq!(g.handle, Handle { offset: 0, size: 64 });
}

#[test]
fn cache_db_operations() {
    let mut db = CacheDB::new();
    assert_eq!(db.size(), 0);
    db.put("a".to_string(), "1".to_string());
    db.put("b".to_string(), "2".to_string());
    db.put("a".to_string(), "3".to_string());
    assert_eq!(db.size(), 2);
    assert_eq!(db.get("a"), Some(&"3".to_string()));
    assert_eq!(db.get("c"), None);
    assert!(db.delete("a"));
    assert!(!db.delete("a"));
    assert_eq!(db.size(), 1);
    assert_eq!(db.get("a"), None);
}

#[test]
fn cache_db_json_round_trip() {
    let mut db = CacheDB::new();
    db.put("zeta".to_string(), "last".to_string());
    db.put("alpha".to_string(), "first".to_string());
    let text = db.to_json();
    assert_eq!(text, "{\"alpha\":\"first\",\"zeta\":\"last\"}");
    let back = CacheDB::from_json(&text).unwrap();
    assert_eq!(back.size(), 2);
    assert_eq!(back.get("zeta"), Some(&"last".to_string()));
    assert!(CacheDB::from_json("[1, 2]").is_none());
    assert!(CacheDB::from_json("{\"k\": 5}").is_none());
    assert_eq!(CacheDB::new().to_json(), "{}");
}

#[test]
fn cache_db_from_entries_later_wins() {
    let db = CacheDB::from_entries(vec![
        ("k".to_string(), "1".to_string()),
        ("k".to_string(), "2".to_string()),
    ]);
    assert_eq!(db.size(), 1);
    assert_eq!(db.get("k"), Some(&"2".to_string()));
}

#[test]
fn log_record_layout() {
    let rec = encode_record(b"ab", b"xyz").unwrap();
    assert_eq!(rec, vec![2, 0, 0, 0, 3, 0, 0, 0, b'a', b'b', b'x', b'y', b'z']);
    let h = EntryHeader::decode(&rec).unwrap();
    assert_eq!(h, EntryHeader { key_len: 2, value_len: 3 });
    assert_eq!(h.body_len(), 5);
    assert_eq!(EntryHeader { key_len: 0x0102_0304, value_len: 1 }.encode(), vec![4, 3, 2, 1, 1, 0, 0, 0]);
    assert_eq!(EntryHeader::decode(&[1, 2, 3]), None);
}

#[test]
fn pool_write_read_wraps_around_ring() {
    let mut pool = CircularBuffer::new(100);
    let a = pool.allocate(60).unwrap().handle;
    let b = pool.allocate(30).unwrap().handle;
    assert!(pool.write(b, &[9u8; 30]));
    let g = pool.allocate(20).unwrap();
    assert_eq!(g.evicted, vec![a]);
    let c = g.handle;
    assert_eq!(c, Handle { offset: 90, size: 20 });
    let data: Vec<u8> = (0u8..20).collect();
    assert!(pool.write(c, &data));
    assert_eq!(pool.read(c), Some(data));
    assert_eq!(pool.read(b), Some(vec![9u8; 30]));
    assert_eq!(pool.read(a), None);
    assert!(!pool.write(a, &[1]));
    assert!(!pool.write(c, &[0u8; 21]));
    let part: Vec<u8> = vec![7, 7, 7];
    assert!(pool.write(c, &part));
    assert_eq!(pool.read(c).unwrap()[..4].to_vec(), vec![7, 7, 7, 3]);
}

#[test]
fn log_records_are_walked_in_order() {
    let mut log = encode_record(b"ab", b"xyz").unwrap();
    log.extend(encode_record(b"k", b"").unwrap());
    let (h, next) = next_record(&log, 0).unwrap();
    assert_eq!(h, EntryHeader { key_len: 2, value_len: 3 });
    assert_eq!(next, 13);
    let (h2, end) = next_record(&log, next).unwrap();
    assert_eq!(h2, EntryHeader { key_len: 1, value_len: 0 });
    assert_eq!(end, 22);
    assert_eq!(next_record(&log, end), None);
    assert_eq!(next_record(&log[..20], next), None);
    assert_eq!(next_record(&log, 100), None);
}

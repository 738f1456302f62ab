use quark::buffer_pool::{CircularBuffer, Handle};
use quark::error::QuarkError;
use quark::layout::{
    decode_entry_meta, encode_entry_meta, EntryFields, KVMeta, NodeMeta, MIN_PAGE_SIZE, PAGE_SIZE,
};
use quark::mini_page::{MiniPage, MiniPageState};
use quark::slotted_page::{EntryKind, SlottedPage};

fn fields(key_len: u16, val_len: u16, kind: u8) -> EntryFields {
    EntryFields { key_len, val_len, offset: 4000, kind, fence: true, ref_bit: false, look_ahead: 0xBEEF }
}

#[test]
fn entry_meta_round_trips() {
    for f in [fields(0, 0, 0), fields(16383, 16383, 3), fields(5, 7, 2)] {
        let bytes = encode_entry_meta(&f).unwrap();
        assert_eq!(bytes.len(), 8);
        assert_eq!(decode_entry_meta(&bytes), f);
    }
}

#[test]
fn entry_meta_exact_bits() {
    let f = EntryFields { key_len: 1, val_len: 2, offset: 3, kind: 1, fence: true, ref_bit: true, look_ahead: 4 };
    let raw: u64 = (1u64 << 50) | (2u64 << 36) | (3u64 << 20) | (1u64 << 18) | (1u64 << 17) | (1u64 << 16) | 4;
    assert_eq!(encode_entry_meta(&f).unwrap(), raw.to_be_bytes().to_vec());
    assert_eq!(KVMeta::pack(&f).unwrap().raw, raw);
}

#[test]
fn entry_meta_rejects_wide_fields() {
    assert_eq!(encode_entry_meta(&fields(16384, 0, 0)), Err(QuarkError::FieldOverflow));
    assert_eq!(encode_entry_meta(&fields(0, 16384, 0)), Err(QuarkError::FieldOverflow));
    assert_eq!(encode_entry_meta(&fields(u16::MAX, u16::MAX, 0)), Err(QuarkError::FieldOverflow));
    assert_eq!(encode_entry_meta(&fields(0, 0, 4)), Err(QuarkError::FieldOverflow));
    assert_eq!(KVMeta::new(16384, 1, 0), Err(QuarkError::FieldOverflow));
}

#[test]
fn kv_meta_new_and_offset() {
    let m = KVMeta::new(3, 4, 1234).unwrap();
    assert_eq!(m.get_offset(), 1234);
    assert_eq!(m.key_len(), 3);
    assert_eq!(m.val_len(), 4);
    assert_eq!(m.kind(), 0);
}

#[test]
fn node_meta_round_trips() {
    let h = NodeMeta {
        size: 4096,
        is_mini_page: true,
        split: true,
        record_count: 65535,
        leaf_page_id: 0xFFFF_FFFF_FFFF,
        reserved: 0x2AAA,
    };
    let bytes = h.encode().unwrap();
    assert_eq!(bytes.len(), 12);
    assert_eq!(NodeMeta::decode(&bytes), h);
    let z = NodeMeta::new(64, false);
    let zb = z.encode().unwrap();
    assert_eq!(zb, vec![0u8, 64, 0, 0, 0, 0, 0, 0, 0, 0, 0, 0]);
    assert_eq!(NodeMeta::decode(&zb), z);
}

#[test]
fn node_meta_rejects_wide_fields() {
    let mut h = NodeMeta::new(64, true);
    h.leaf_page_id = 1u64 << 48;
    assert_eq!(h.encode(), Err(QuarkError::FieldOverflow));
    let mut h = NodeMeta::new(64, true);
    h.reserved = 1 << 14;
    assert_eq!(h.encode(), Err(QuarkError::FieldOverflow));
}

#[test]
fn ascending_inserts_keep_order() {
    let mut p = SlottedPage::new(PAGE_SIZE, false);
    let keys: Vec<&[u8]> = vec![b"apple", b"banana", b"cherry", b"date", b"elder"];
    for (i, k) in keys.iter().enumerate() {
        assert_eq!(p.insert(k, b"v", EntryKind::Normal, false), Ok(i));
    }
    for (i, k) in keys.iter().enumerate() {
        assert_eq!(p.key_at(i), k.to_vec());
    }
    assert_eq!(p.lookup(b"cherry"), Some(b"v".to_vec()));
    assert_eq!(p.lookup(b"fig"), None);
}

#[test]
fn unordered_inserts_are_sorted() {
    let mut p = SlottedPage::new(256, true);
    assert_eq!(p.insert(b"m", b"1", EntryKind::Normal, false), Ok(0));
    assert_eq!(p.insert(b"c", b"2", EntryKind::Normal, false), Ok(0));
    assert_eq!(p.insert(b"x", b"3", EntryKind::Fence, true), Ok(2));
    assert_eq!(p.insert(b"cc", b"4", EntryKind::Normal, false), Ok(1));
    let got: Vec<Vec<u8>> = (0..4).map(|i| p.key_at(i)).collect();
    assert_eq!(got, vec![b"c".to_vec(), b"cc".to_vec(), b"m".to_vec(), b"x".to_vec()]);
    assert_eq!(p.get_record_count(), 4);
    assert_eq!(p.node_meta().record_count, 4);
}

#[test]
fn reinserting_a_key_adds_a_slot() {
    let mut p = SlottedPage::new(128, true);
    assert_eq!(p.insert(b"k", b"old", EntryKind::Normal, false), Ok(0));
    assert_eq!(p.insert(b"a", b"x", EntryKind::Normal, false), Ok(0));
    assert_eq!(p.insert(b"k", b"newer", EntryKind::Normal, false), Ok(2));
    assert_eq!(p.get_record_count(), 3);
    assert_eq!(p.node_meta().record_count, 3);
    assert_eq!(p.lookup(b"k"), Some(b"newer".to_vec()));
    assert_eq!(p.get_used_data_size(), 4 + 2 + 6);
    assert_eq!(p.used_bytes(), 12 + 3 * 8 + 12);
    assert!(p.remove(b"k"));
    assert_eq!(p.get_record_count(), 3);
    assert!(p.is_tombstone_at(1));
    assert!(p.is_tombstone_at(2));
    assert_eq!(p.lookup(b"k"), None);
    assert_eq!(p.lookup(b"a"), Some(b"x".to_vec()));
}

#[test]
fn reinsert_on_full_page_is_page_full() {
    let mut p = SlottedPage::new(64, true);
    let v = [5u8; 20];
    assert_eq!(p.insert(b"a", &v, EntryKind::Normal, false), Ok(0));
    // 12 + 8 + 21 = 41 used; another copy needs 41 + 8 + 21 = 70
    assert_eq!(p.insert(b"a", &v, EntryKind::Normal, false), Err(QuarkError::PageFull));
    assert_eq!(p.get_record_count(), 1);
    assert_eq!(p.get_used_data_size(), 21);
}

#[test]
fn newest_live_duplicate_wins() {
    let mut p = SlottedPage::new(256, true);
    p.insert(b"k", b"1", EntryKind::Normal, false).unwrap();
    p.insert(b"k", b"2", EntryKind::Normal, false).unwrap();
    assert_eq!(p.lookup(b"k"), Some(b"2".to_vec()));
    assert_eq!(p.key_at(0), b"k".to_vec());
    assert_eq!(p.key_at(1), b"k".to_vec());
}

#[test]
fn full_page_rejects_and_stays_unchanged() {
    let mut p = SlottedPage::new(MIN_PAGE_SIZE, true);
    // 12 header + 5 records of 8 + 2 bytes = 62 bytes
    for k in [b"a", b"b", b"c", b"d", b"e"] {
        assert!(p.insert(k, b"1", EntryKind::Normal, false).is_ok());
    }
    assert_eq!(p.used_bytes(), 62);
    let before: Vec<Vec<u8>> = (0..5).map(|i| p.key_at(i)).collect();
    assert_eq!(p.insert(b"f", b"1", EntryKind::Normal, false), Err(QuarkError::PageFull));
    assert_eq!(p.used_bytes(), 62);
    assert_eq!(p.get_record_count(), 5);
    let after: Vec<Vec<u8>> = (0..5).map(|i| p.key_at(i)).collect();
    assert_eq!(before, after);
    assert_eq!(p.lookup(b"f"), None);
    assert_eq!(p.insert(b"a", b"12", EntryKind::Normal, false), Err(QuarkError::PageFull));
    assert_eq!(p.lookup(b"a"), Some(b"1".to_vec()));
    // every insert takes a new slot: 62 + 8 + 2 > 64
    assert_eq!(p.insert(b"a", b"2", EntryKind::Normal, false), Err(QuarkError::PageFull));
    assert_eq!(p.used_bytes(), 62);
}

#[test]
fn remove_leaves_tombstone() {
    let mut p = SlottedPage::new(256, true);
    for k in [b"a", b"b", b"c"] {
        p.insert(k, b"val", EntryKind::Normal, false).unwrap();
    }
    assert!(p.remove(b"b"));
    assert_eq!(p.lookup(b"b"), None);
    assert_eq!(p.get_record_count(), 3);
    assert_eq!(p.key_at(1), b"b".to_vec());
    assert!(p.is_tombstone_at(1));
    assert!(!p.remove(b"b"));
    assert!(!p.remove(b"zz"));
    assert_eq!(p.lookup(b"a"), Some(b"val".to_vec()));
    assert_eq!(p.live_bytes(), 2 * (8 + 4));
}

#[test]
fn compacted_drops_tombstones() {
    let mut p = SlottedPage::new(128, true);
    for k in [b"a", b"b", b"c"] {
        p.insert(k, b"xy", EntryKind::Normal, false).unwrap();
    }
    p.remove(b"a");
    let q = p.compacted(256, true);
    assert_eq!(q.capacity_bytes(), 256);
    assert_eq!(q.get_record_count(), 2);
    assert_eq!(q.key_at(0), b"b".to_vec());
    assert_eq!(q.lookup(b"c"), Some(b"xy".to_vec()));
    assert_eq!(q.used_bytes(), 12 + 2 * 11);
}

#[test]
fn mini_page_grows_then_must_merge() {
    let mut mp = MiniPage::new_minimal();
    assert_eq!(mp.state(), MiniPageState::Minimal);
    let mut caps = vec![mp.page.capacity_bytes()];
    let mut n: u32 = 0;
    loop {
        let key = format!("key{:06}", n);
        match mp.insert_record(key.as_bytes(), b"value-bytes") {
            Ok(()) => {
                let c = mp.page.capacity_bytes();
                assert!(c <= PAGE_SIZE);
                if *caps.last().unwrap() != c {
                    caps.push(c);
                }
            }
            Err(e) => {
                assert_eq!(e, QuarkError::MustMerge);
                break;
            }
        }
        n += 1;
    }
    assert_eq!(caps, vec![64, 128, 256, 512, 1024, 2048, 4096]);
    assert_eq!(mp.state(), MiniPageState::MustMerge);
    assert_eq!(mp.page.capacity_bytes(), 4096);
    assert_eq!(mp.insert_record(b"a", b"1"), Err(QuarkError::MustMerge));
    assert_eq!(mp.page.get_record_count() as u32, n);
}

#[test]
fn mini_page_twenty_six_keys() {
    let mut mp = MiniPage::new_minimal();
    let mut grew = false;
    for c in b'a'..=b'z' {
        let before = mp.page.capacity_bytes();
        assert_eq!(mp.insert_record(&[c], b"1"), Ok(()));
        if mp.page.capacity_bytes() > before {
            grew = true;
        }
    }
    assert!(grew);
    assert_eq!(mp.page.capacity_bytes(), 512);
    assert_eq!(mp.page.node_meta().record_count, 26);
    assert_eq!(mp.state(), MiniPageState::Growing);
    assert_eq!(mp.page.lookup(b"q"), Some(b"1".to_vec()));
}

#[test]
fn mini_page_oversized_record() {
    let mut mp = MiniPage::new_minimal();
    let big = vec![7u8; 200];
    assert_eq!(mp.insert_record(b"k", &big), Err(QuarkError::OversizedRecord));
    assert_eq!(mp.page.capacity_bytes(), 128);
    assert_eq!(mp.state(), MiniPageState::Growing);
    assert_eq!(mp.page.get_record_count(), 0);
}

#[test]
fn mini_page_growth_drops_tombstones() {
    let mut mp = MiniPage::new_minimal();
    for k in [b"a", b"b", b"c", b"d", b"e"] {
        mp.insert_record(k, b"1").unwrap();
    }
    assert!(mp.page.remove(b"c"));
    assert_eq!(mp.insert_record(b"f", b"1"), Ok(()));
    assert_eq!(mp.page.capacity_bytes(), 128);
    assert_eq!(mp.page.get_record_count(), 5);
    assert_eq!(mp.page.lookup(b"c"), None);
    assert_eq!(mp.page.lookup(b"f"), Some(b"1".to_vec()));
}

#[test]
fn page_image_layout_and_round_trip() {
    let mut p = SlottedPage::new(64, true);
    p.insert(b"b", b"22", EntryKind::Normal, false).unwrap();
    p.insert(b"a", b"1", EntryKind::Fence, true).unwrap();
    p.set_leaf_page_id(7).unwrap();
    let img = p.to_bytes();
    assert_eq!(img.len(), 64);
    let h = NodeMeta::decode(&img[0..12]);
    assert_eq!(h.size, 64);
    assert_eq!(h.record_count, 2);
    assert_eq!(h.leaf_page_id, 7);
    assert!(h.is_mini_page);
    let first = decode_entry_meta(&img[12..20]);
    assert_eq!((first.key_len, first.val_len, first.offset, first.kind), (1, 1, 59, 2));
    assert!(first.fence);
    let second = decode_entry_meta(&img[20..28]);
    assert_eq!((second.key_len, second.val_len, second.offset, second.kind), (1, 2, 61, 0));
    assert_eq!(&img[59..64], b"a1b22");
    assert!(img[28..59].iter().all(|&x| x == 0));
    let q = SlottedPage::from_bytes(&img).unwrap();
    assert_eq!(q.get_record_count(), 2);
    assert_eq!(q.lookup(b"b"), Some(b"22".to_vec()));
    assert_eq!(q.node_meta(), p.node_meta());
    assert_eq!(q.to_bytes(), img);
}

#[test]
fn corrupted_images_are_rejected() {
    let mut p = SlottedPage::new(64, true);
    p.insert(b"a", b"1", EntryKind::Normal, false).unwrap();
    p.insert(b"b", b"2", EntryKind::Normal, false).unwrap();
    let img = p.to_bytes();
    // offset pointing past the end
    let mut bad = img.clone();
    bad[12 + 4] = 0xFF;
    assert_eq!(SlottedPage::from_bytes(&bad).err(), Some(QuarkError::CorruptedMeta));
    // keys out of order
    let mut swapped = img.clone();
    swapped.swap(60, 62);
    assert_eq!(SlottedPage::from_bytes(&swapped).err(), Some(QuarkError::CorruptedMeta));
    // size that disagrees with the length
    assert_eq!(SlottedPage::from_bytes(&img[..32]).err(), Some(QuarkError::CorruptedMeta));
    assert_eq!(SlottedPage::from_bytes(&[0u8; 4]).err(), Some(QuarkError::CorruptedMeta));
}

#[test]
fn header_setters() {
    let mut p = SlottedPage::new(128, true);
    p.set_split(true);
    assert!(p.node_meta().split);
    assert_eq!(p.set_leaf_page_id(1u64 << 48), Err(QuarkError::FieldOverflow));
    assert_eq!(p.node_meta().leaf_page_id, 0);
}

#[test]
fn pooled_growth_takes_arena_memory() {
    let mut pool = CircularBuffer::new(256);
    let mut mp = MiniPage::new_minimal();
    for k in [b"a", b"b", b"c", b"d", b"e"] {
        assert!(!mp.would_grow(k, b"1"));
        let (r, g) = mp.insert_record_pooled(&mut pool, k, b"1");
        assert_eq!(r, Ok(()));
        assert!(g.is_none());
    }
    assert_eq!(pool.tail_offset(), 0);
    assert!(mp.would_grow(b"f", b"1"));
    let (r, g) = mp.insert_record_pooled(&mut pool, b"f", b"1");
    assert_eq!(r, Ok(()));
    let g = g.unwrap();
    assert_eq!(g.handle, Handle { offset: 0, size: 128 });
    assert_eq!(mp.page.capacity_bytes(), 128);
    assert_eq!(pool.read(g.handle), Some(mp.page.to_bytes()));
    // the next growth needs 256 bytes: the arena evicts the 128-byte page
    for k in [b"g", b"h", b"i", b"j", b"k"] {
        assert_eq!(mp.insert_record_pooled(&mut pool, k, b"1").0, Ok(()));
    }
    assert!(pool.pin(g.handle));
    let (r, g_none) = mp.insert_record_pooled(&mut pool, b"l", b"1");
    assert_eq!(r, Err(QuarkError::OutOfSpace));
    assert!(g_none.is_none());
    assert_eq!(mp.page.capacity_bytes(), 128);
    assert!(pool.unpin(g.handle));
    let (r, g2) = mp.insert_record_pooled(&mut pool, b"l", b"1");
    assert_eq!(r, Ok(()));
    assert_eq!(g2.unwrap().evicted, vec![g.handle]);
    assert_eq!(mp.page.capacity_bytes(), 256);
    assert_eq!(mp.page.get_record_count(), 12);
}

#[test]
fn pooled_oversized_record_still_grows() {
    let mut pool = CircularBuffer::new(1024);
    let mut mp = MiniPage::new_minimal();
    let (r, g) = mp.insert_record_pooled(&mut pool, b"k", &[1u8; 200]);
    assert_eq!(r, Err(QuarkError::OversizedRecord));
    assert_eq!(g.unwrap().handle, Handle { offset: 0, size: 128 });
    assert_eq!(mp.page.capacity_bytes(), 128);
}

#[test]
fn mini_page_two_byte_keys_ladder() {
    let mut mp = MiniPage::new_minimal();
    assert_eq!(mp.page.get_used_data_size(), 0);
    let mut grew_at = Vec::new();
    for i in 0u32..=371 {
        let before = mp.page.capacity_bytes();
        let r = mp.insert_record(&[(i >> 8) as u8, i as u8], &[0u8]);
        if i < 371 {
            assert_eq!(r, Ok(()));
        } else {
            assert_eq!(r, Err(QuarkError::MustMerge));
        }
        if mp.page.capacity_bytes() != before {
            grew_at.push(i);
        }
    }
    assert_eq!(grew_at, vec![4, 10, 22, 45, 92, 185]);
    assert_eq!(mp.page.capacity_bytes(), 4096);
    assert_eq!(mp.page.used_bytes(), 12 + 11 * 371);
}

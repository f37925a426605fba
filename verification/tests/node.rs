//! Pages of the tree.

use gemgraph::node::{InternalNode, LeafNode, LEAF_SLOTS_OFFSET, LEAF_SLOT_SIZE};
use gemgraph::page::{PageId, PAGE_SIZE};

#[test]
fn leaf_empty_round_trip() {
    let node = LeafNode::new(PageId(5));
    let buf = node.to_page();
    let restored = LeafNode::from_page(&buf).unwrap();
    assert_eq!(restored.page_id, PageId(5));
    assert!(restored.entries.is_empty());
}

#[test]
fn leaf_insert_and_round_trip() {
    let mut node = LeafNode::new(PageId(10));
    node.upsert(b"charlie", b"value3");
    node.upsert(b"alice", b"value1");
    node.upsert(b"bob", b"value2");

    // Entries should be sorted.
    assert_eq!(node.entries[0].key, b"alice");
    assert_eq!(node.entries[1].key, b"bob");
    assert_eq!(node.entries[2].key, b"charlie");

    let buf = node.to_page();
    let restored = LeafNode::from_page(&buf).unwrap();
    assert_eq!(restored.entries.len(), 3);
    assert_eq!(restored.entries[0].key, b"alice");
    assert_eq!(restored.entries[0].value, b"value1");
    assert_eq!(restored.entries[1].key, b"bob");
    assert_eq!(restored.entries[1].value, b"value2");
    assert_eq!(restored.entries[2].key, b"charlie");
    assert_eq!(restored.entries[2].value, b"value3");
}

#[test]
fn leaf_upsert_updates_value() {
    let mut node = LeafNode::new(PageId(1));
    node.upsert(b"key", b"old");
    node.upsert(b"key", b"new");
    assert_eq!(node.entries.len(), 1);
    assert_eq!(node.entries[0].value, b"new");
}

#[test]
fn leaf_delete() {
    let mut node = LeafNode::new(PageId(1));
    node.upsert(b"a", b"1");
    node.upsert(b"b", b"2");
    node.upsert(b"c", b"3");
    assert!(node.delete(b"b"));
    assert!(!node.delete(b"b"));
    assert_eq!(node.entries.len(), 2);
    assert_eq!(node.entries[0].key, b"a");
    assert_eq!(node.entries[1].key, b"c");
}

#[test]
fn leaf_split() {
    let mut node = LeafNode::new(PageId(1));
    for i in 0u32..10 {
        let key = format!("key{:04}", i);
        let val = format!("val{:04}", i);
        node.upsert(key.as_bytes(), val.as_bytes());
    }
    assert_eq!(node.entries.len(), 10);

    let (right, sep) = node.split(PageId(2));
    assert_eq!(node.entries.len(), 5);
    assert_eq!(right.entries.len(), 5);
    assert_eq!(sep, right.entries[0].key);
    assert_eq!(right.page_id, PageId(2));

    // Verify ordering: all left keys < sep <= all right keys.
    for e in &node.entries {
        assert!(e.key.as_slice() < sep.as_slice());
    }
    for e in &right.entries {
        assert!(e.key.as_slice() >= sep.as_slice());
    }
}

#[test]
fn leaf_free_space() {
    let node = LeafNode::new(PageId(1));
    // Empty leaf: all payload after header + num(2) + data_end(2) is free.
    // Free = PAGE_SIZE - LEAF_SLOTS_OFFSET = 4096 - 9 = 4087
    assert_eq!(node.free_space(), PAGE_SIZE - LEAF_SLOTS_OFFSET);

    let mut node2 = LeafNode::new(PageId(2));
    node2.upsert(b"hello", b"world");
    let expected = PAGE_SIZE - LEAF_SLOTS_OFFSET - LEAF_SLOT_SIZE - 10;
    assert_eq!(node2.free_space(), expected);
}

#[test]
fn internal_round_trip() {
    let node = InternalNode::new(PageId(20), PageId(5), b"separator".to_vec(), PageId(6));
    let buf = node.to_page();
    let restored = InternalNode::from_page(&buf).unwrap();
    assert_eq!(restored.page_id, PageId(20));
    assert_eq!(restored.entries.len(), 1);
    assert_eq!(restored.entries[0].key, b"separator");
    assert_eq!(restored.entries[0].child, PageId(5));
    assert_eq!(restored.right_child, PageId(6));
}

#[test]
fn internal_find_child() {
    let mut node = InternalNode::new(PageId(1), PageId(10), b"m".to_vec(), PageId(20));
    node.insert_key(b"t".to_vec(), PageId(20), PageId(30));
    // Children: 10 < "m" < 20 < "t" < 30
    assert_eq!(node.find_child(b"a").0, PageId(10));
    assert_eq!(node.find_child(b"m").0, PageId(20));
    assert_eq!(node.find_child(b"p").0, PageId(20));
    assert_eq!(node.find_child(b"t").0, PageId(30));
    assert_eq!(node.find_child(b"z").0, PageId(30));
}

#[test]
fn internal_split() {
    // Create an internal node with several keys.
    let mut node = InternalNode::new(PageId(1), PageId(100), b"b".to_vec(), PageId(101));
    node.insert_key(b"d".to_vec(), PageId(101), PageId(102));
    node.insert_key(b"f".to_vec(), PageId(102), PageId(103));
    node.insert_key(b"h".to_vec(), PageId(103), PageId(104));
    node.insert_key(b"j".to_vec(), PageId(104), PageId(105));

    // entries: [(b,100), (d,101), (f,102), (h,103), (j,104)], right_child=105
    assert_eq!(node.entries.len(), 5);

    let (right, sep) = node.split(PageId(2));
    // mid = 5/2 = 2, so separator = "f"
    assert_eq!(sep, b"f");
    // Left: entries[0..2] = [(b,100), (d,101)], right_child = 102 (entries[2].child)
    assert_eq!(node.entries.len(), 2);
    assert_eq!(node.right_child, PageId(102));
    // Right: entries[3..5] = [(h,103), (j,104)], right_child = 105
    assert_eq!(right.entries.len(), 2);
    assert_eq!(right.entries[0].key, b"h");
    assert_eq!(right.right_child, PageId(105));

    // Verify round-trip of both halves.
    let buf_l = node.to_page();
    let buf_r = right.to_page();
    let _ = InternalNode::from_page(&buf_l).unwrap();
    let _ = InternalNode::from_page(&buf_r).unwrap();
}

#[test]
fn internal_serialize_multiple_keys() {
    let mut node = InternalNode::new(PageId(50), PageId(1), b"key_a".to_vec(), PageId(2));
    node.insert_key(b"key_b".to_vec(), PageId(2), PageId(3));
    node.insert_key(b"key_c".to_vec(), PageId(3), PageId(4));

    let buf = node.to_page();
    let restored = InternalNode::from_page(&buf).unwrap();

    assert_eq!(restored.entries.len(), 3);
    assert_eq!(restored.entries[0].key, b"key_a");
    assert_eq!(restored.entries[0].child, PageId(1));
    assert_eq!(restored.entries[1].key, b"key_b");
    assert_eq!(restored.entries[1].child, PageId(2));
    assert_eq!(restored.entries[2].key, b"key_c");
    assert_eq!(restored.entries[2].child, PageId(3));
    assert_eq!(restored.right_child, PageId(4));
}

#[test]
fn leaf_fill_and_split_round_trip() {
    // Fill a leaf until it cannot fit more, then split and verify both
    // halves serialize/deserialize correctly.
    let mut node = LeafNode::new(PageId(1));
    let mut i = 0u32;
    loop {
        let key = format!("k{:06}", i);
        let val = format!("v{:06}", i);
        if !node.can_fit(key.len(), val.len()) {
            break;
        }
        node.upsert(key.as_bytes(), val.as_bytes());
        i += 1;
    }
    assert!(node.entries.len() > 10); // sanity check that we inserted plenty

    let (right, _sep) = node.split(PageId(2));
    let buf_l = node.to_page();
    let buf_r = right.to_page();
    let left2 = LeafNode::from_page(&buf_l).unwrap();
    let right2 = LeafNode::from_page(&buf_r).unwrap();
    assert_eq!(left2.entries.len(), node.entries.len());
    assert_eq!(right2.entries.len(), right.entries.len());
}

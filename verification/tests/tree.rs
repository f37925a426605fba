//! The tree.

use gemgraph::error::BTreeError;
use gemgraph::model::{MAX_KEY_SIZE, MAX_VALUE_SIZE};
use gemgraph::pager::Pager;
use gemgraph::tree::BTree;

fn make_pager() -> ((), Pager) {
    ((), Pager::create())
}

#[test]
fn empty_tree_get_returns_none() {
    let (_dir, mut pager) = make_pager();
    let mut tree = BTree::new(&mut pager);
    assert!(tree.get(b"anything").unwrap().is_none());
}

#[test]
fn insert_and_get_single() {
    let (_dir, mut pager) = make_pager();
    let mut tree = BTree::new(&mut pager);
    tree.insert(b"hello", b"world").unwrap();
    assert_eq!(tree.get(b"hello").unwrap(), Some(b"world".to_vec()));
    assert!(tree.get(b"nope").unwrap().is_none());
}

#[test]
fn insert_update() {
    let (_dir, mut pager) = make_pager();
    let mut tree = BTree::new(&mut pager);
    tree.insert(b"key", b"old").unwrap();
    tree.insert(b"key", b"new").unwrap();
    assert_eq!(tree.get(b"key").unwrap(), Some(b"new".to_vec()));
}

#[test]
fn delete_existing() {
    let (_dir, mut pager) = make_pager();
    let mut tree = BTree::new(&mut pager);
    tree.insert(b"a", b"1").unwrap();
    tree.insert(b"b", b"2").unwrap();
    assert!(tree.delete(b"a").unwrap());
    assert!(tree.get(b"a").unwrap().is_none());
    assert_eq!(tree.get(b"b").unwrap(), Some(b"2".to_vec()));
}

#[test]
fn delete_nonexistent() {
    let (_dir, mut pager) = make_pager();
    let mut tree = BTree::new(&mut pager);
    assert!(!tree.delete(b"nope").unwrap());
}

#[test]
fn tree_range_scan() {
    let (_dir, mut pager) = make_pager();
    let mut tree = BTree::new(&mut pager);
    for i in 0u32..20 {
        let key = format!("key{:04}", i);
        let val = format!("val{:04}", i);
        tree.insert(key.as_bytes(), val.as_bytes()).unwrap();
    }
    let results = tree.range(b"key0005", b"key0010").unwrap();
    assert_eq!(results.len(), 6); // keys 5..=10
    assert_eq!(results[0].0, b"key0005");
    assert_eq!(results[5].0, b"key0010");
}

#[test]
fn range_scan_empty_result() {
    let (_dir, mut pager) = make_pager();
    let mut tree = BTree::new(&mut pager);
    tree.insert(b"a", b"1").unwrap();
    tree.insert(b"z", b"2").unwrap();
    let results = tree.range(b"m", b"n").unwrap();
    assert!(results.is_empty());
}

#[test]
fn insert_1000_sequential_keys() {
    let (_dir, mut pager) = make_pager();
    let mut tree = BTree::new(&mut pager);
    for i in 0u32..1000 {
        let key = format!("key{:06}", i);
        let val = format!("val{:06}", i);
        tree.insert(key.as_bytes(), val.as_bytes()).unwrap();
    }
    // Verify all keys.
    for i in 0u32..1000 {
        let key = format!("key{:06}", i);
        let val = format!("val{:06}", i);
        let got = tree.get(key.as_bytes()).unwrap();
        assert_eq!(got, Some(val.into_bytes()), "mismatch at key {}", i);
    }
}

#[test]
fn insert_1000_random_keys() {
    let (_dir, mut pager) = make_pager();
    let mut tree = BTree::new(&mut pager);

    // Simple LCG for deterministic "random" order.
    let mut keys: Vec<u32> = (0..1000).collect();
    let mut seed: u64 = 12345;
    for i in (1..keys.len()).rev() {
        seed = seed.wrapping_mul(6364136223846793005).wrapping_add(1);
        let j = (seed >> 33) as usize % (i + 1);
        keys.swap(i, j);
    }

    for &i in &keys {
        let key = format!("key{:06}", i);
        let val = format!("val{:06}", i);
        tree.insert(key.as_bytes(), val.as_bytes()).unwrap();
    }
    for i in 0u32..1000 {
        let key = format!("key{:06}", i);
        let val = format!("val{:06}", i);
        let got = tree.get(key.as_bytes()).unwrap();
        assert_eq!(got, Some(val.into_bytes()), "mismatch at key {}", i);
    }
}

#[test]
fn splits_happen() {
    let (_dir, mut pager) = make_pager();
    let mut tree = BTree::new(&mut pager);
    let initial_root = tree.root();

    // Insert enough to force splits. With 20-byte key+value per entry and
    // ~4087 bytes of usable space, a leaf holds ~200 entries.
    for i in 0u32..500 {
        let key = format!("key{:06}", i);
        let val = format!("val{:06}", i);
        tree.insert(key.as_bytes(), val.as_bytes()).unwrap();
    }

    // Root should have changed (new internal root after split).
    assert_ne!(tree.root(), initial_root);

    // Verify data integrity.
    for i in 0u32..500 {
        let key = format!("key{:06}", i);
        let val = format!("val{:06}", i);
        assert_eq!(tree.get(key.as_bytes()).unwrap(), Some(val.into_bytes()));
    }
}

#[test]
fn insert_delete_reinsert() {
    let (_dir, mut pager) = make_pager();
    let mut tree = BTree::new(&mut pager);

    tree.insert(b"key1", b"val1").unwrap();
    tree.insert(b"key2", b"val2").unwrap();
    assert!(tree.delete(b"key1").unwrap());
    assert!(tree.get(b"key1").unwrap().is_none());

    tree.insert(b"key1", b"val1_new").unwrap();
    assert_eq!(tree.get(b"key1").unwrap(), Some(b"val1_new".to_vec()));
}

#[test]
fn key_too_large() {
    let (_dir, mut pager) = make_pager();
    let mut tree = BTree::new(&mut pager);
    let big_key = vec![0u8; MAX_KEY_SIZE + 1];
    let err = tree.insert(&big_key, b"val").unwrap_err();
    assert!(matches!(err, BTreeError::KeyTooLarge(_, _)));
}

#[test]
fn value_too_large() {
    let (_dir, mut pager) = make_pager();
    let mut tree = BTree::new(&mut pager);
    let big_val = vec![0u8; MAX_VALUE_SIZE + 1];
    let err = tree.insert(b"key", &big_val).unwrap_err();
    assert!(matches!(err, BTreeError::ValueTooLarge(_, _)));
}

#[test]
fn range_scan_with_splits() {
    let (_dir, mut pager) = make_pager();
    let mut tree = BTree::new(&mut pager);
    for i in 0u32..500 {
        let key = format!("key{:06}", i);
        let val = format!("val{:06}", i);
        tree.insert(key.as_bytes(), val.as_bytes()).unwrap();
    }
    let results = tree.range(b"key000100", b"key000199").unwrap();
    assert_eq!(results.len(), 100);
    for (i, (k, _v)) in results.iter().enumerate() {
        let expected = format!("key{:06}", 100 + i as u32);
        assert_eq!(k, expected.as_bytes());
    }
}

#[test]
fn empty_range_scan() {
    let (_dir, mut pager) = make_pager();
    let mut tree = BTree::new(&mut pager);
    let results = tree.range(b"a", b"z").unwrap();
    assert!(results.is_empty());
}

#[test]
fn open_existing_tree() {
    let (_dir, mut pager) = make_pager();
    let root_id;
    {
        let mut tree = BTree::new(&mut pager);
        tree.insert(b"persist", b"me").unwrap();
        root_id = tree.root();
    }
    {
        let mut tree = BTree::open(&mut pager, root_id);
        assert_eq!(tree.get(b"persist").unwrap(), Some(b"me".to_vec()));
    }
}

#[test]
fn delete_after_splits() {
    let (_dir, mut pager) = make_pager();
    let mut tree = BTree::new(&mut pager);
    for i in 0u32..300 {
        let key = format!("key{:06}", i);
        let val = format!("val{:06}", i);
        tree.insert(key.as_bytes(), val.as_bytes()).unwrap();
    }
    // Delete every other key.
    for i in (0u32..300).step_by(2) {
        let key = format!("key{:06}", i);
        assert!(tree.delete(key.as_bytes()).unwrap());
    }
    // Verify deleted keys are gone and remaining are present.
    for i in 0u32..300 {
        let key = format!("key{:06}", i);
        let val = format!("val{:06}", i);
        if i % 2 == 0 {
            assert!(tree.get(key.as_bytes()).unwrap().is_none());
        } else {
            assert_eq!(tree.get(key.as_bytes()).unwrap(), Some(val.into_bytes()));
        }
    }
}

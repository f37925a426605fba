//! Transactions.

use gemgraph::mvcc::database::Database;
use gemgraph::mvcc::TreeId;

fn make_db() -> ((), Database) {
    ((), Database::create())
}

/// Closes a database and opens its data file and its log again.
fn reopen(db: Database) -> Database {
    let (file, log) = db.into_files();
    Database::open(file, Some(log)).unwrap()
}

#[test]
fn create_tree_insert_and_read() {
    let (_dir, mut db) = make_db();

    let tree_id;
    {
        let mut wtx = db.write_txn();
        tree_id = wtx.create_tree().unwrap();
        wtx.insert(tree_id, b"hello", b"world").unwrap();
        assert_eq!(wtx.get(tree_id, b"hello").unwrap(), Some(b"world".to_vec()));
        wtx.commit().unwrap();
    }

    {
        let rtx = db.read_txn();
        assert_eq!(rtx.get(tree_id, b"hello").unwrap(), Some(b"world".to_vec()));
    }
}

#[test]
fn write_txn_commit_then_read_txn_sees_data() {
    let (_dir, mut db) = make_db();

    let tid;
    {
        let mut wtx = db.write_txn();
        tid = wtx.create_tree().unwrap();
        wtx.insert(tid, b"key1", b"val1").unwrap();
        wtx.insert(tid, b"key2", b"val2").unwrap();
        wtx.commit().unwrap();
    }

    let rtx = db.read_txn();
    assert_eq!(rtx.get(tid, b"key1").unwrap(), Some(b"val1".to_vec()));
    assert_eq!(rtx.get(tid, b"key2").unwrap(), Some(b"val2".to_vec()));
    assert_eq!(rtx.get(tid, b"nonexistent").unwrap(), None);
}

#[test]
fn sequential_write_txns() {
    let (_dir, mut db) = make_db();

    let tid;
    {
        let mut wtx = db.write_txn();
        tid = wtx.create_tree().unwrap();
        wtx.insert(tid, b"a", b"1").unwrap();
        wtx.commit().unwrap();
    }
    {
        let mut wtx = db.write_txn();
        assert_eq!(wtx.get(tid, b"a").unwrap(), Some(b"1".to_vec()));
        wtx.insert(tid, b"b", b"2").unwrap();
        wtx.commit().unwrap();
    }

    let rtx = db.read_txn();
    assert_eq!(rtx.get(tid, b"a").unwrap(), Some(b"1".to_vec()));
    assert_eq!(rtx.get(tid, b"b").unwrap(), Some(b"2".to_vec()));
}

#[test]
fn abort_write_txn_catalog_unchanged() {
    let (_dir, mut db) = make_db();

    let tid;
    {
        let mut wtx = db.write_txn();
        tid = wtx.create_tree().unwrap();
        wtx.insert(tid, b"visible", b"yes").unwrap();
        wtx.commit().unwrap();
    }

    // This txn inserts but aborts — catalog root is not updated.
    {
        let mut wtx = db.write_txn();
        wtx.insert(tid, b"invisible", b"data").unwrap();
        wtx.abort();
    }

    // The committed catalog root still points to the original tree state.
    let rtx = db.read_txn();
    assert_eq!(rtx.get(tid, b"visible").unwrap(), Some(b"yes".to_vec()));
}

#[test]
fn multiple_trees() {
    let (_dir, mut db) = make_db();

    let tid1;
    let tid2;
    {
        let mut wtx = db.write_txn();
        tid1 = wtx.create_tree().unwrap();
        tid2 = wtx.create_tree().unwrap();
        assert_ne!(tid1, tid2);

        wtx.insert(tid1, b"key", b"tree1").unwrap();
        wtx.insert(tid2, b"key", b"tree2").unwrap();
        wtx.commit().unwrap();
    }

    let rtx = db.read_txn();
    assert_eq!(rtx.get(tid1, b"key").unwrap(), Some(b"tree1".to_vec()));
    assert_eq!(rtx.get(tid2, b"key").unwrap(), Some(b"tree2".to_vec()));
}

#[test]
fn close_and_reopen_persists_data() {
    let mut db;
    let tid;
    {
        db = Database::create();
        let mut wtx = db.write_txn();
        tid = wtx.create_tree().unwrap();
        wtx.insert(tid, b"persist", b"me").unwrap();
        wtx.commit().unwrap();
    }

    {
        let db = reopen(db);
        let rtx = db.read_txn();
        assert_eq!(rtx.get(tid, b"persist").unwrap(), Some(b"me".to_vec()));
    }
}

#[test]
fn delete_key() {
    let (_dir, mut db) = make_db();

    let tid;
    {
        let mut wtx = db.write_txn();
        tid = wtx.create_tree().unwrap();
        wtx.insert(tid, b"a", b"1").unwrap();
        wtx.insert(tid, b"b", b"2").unwrap();
        wtx.commit().unwrap();
    }
    {
        let mut wtx = db.write_txn();
        assert!(wtx.delete(tid, b"a").unwrap());
        assert!(!wtx.delete(tid, b"nonexistent").unwrap());
        wtx.commit().unwrap();
    }

    let rtx = db.read_txn();
    assert_eq!(rtx.get(tid, b"a").unwrap(), None);
    assert_eq!(rtx.get(tid, b"b").unwrap(), Some(b"2".to_vec()));
}

#[test]
fn txn_range_scan() {
    let (_dir, mut db) = make_db();

    let tid;
    {
        let mut wtx = db.write_txn();
        tid = wtx.create_tree().unwrap();
        for i in 0u32..20 {
            let key = format!("key{:04}", i);
            let val = format!("val{:04}", i);
            wtx.insert(tid, key.as_bytes(), val.as_bytes()).unwrap();
        }
        wtx.commit().unwrap();
    }

    let rtx = db.read_txn();
    let results = rtx.range(tid, b"key0005", b"key0010").unwrap();
    assert_eq!(results.len(), 6);
    assert_eq!(results[0].0, b"key0005");
    assert_eq!(results[5].0, b"key0010");
}

#[test]
fn tree_not_found() {
    let (_dir, db) = make_db();
    let rtx = db.read_txn();
    let err = rtx.get(TreeId(999), b"key");
    assert!(err.is_err());
}

#[test]
fn many_keys_across_txns() {
    let (_dir, mut db) = make_db();

    let tid;
    {
        let mut wtx = db.write_txn();
        tid = wtx.create_tree().unwrap();
        for i in 0u32..100 {
            let key = format!("key{:06}", i);
            let val = format!("val{:06}", i);
            wtx.insert(tid, key.as_bytes(), val.as_bytes()).unwrap();
        }
        wtx.commit().unwrap();
    }

    {
        let mut wtx = db.write_txn();
        for i in 100u32..200 {
            let key = format!("key{:06}", i);
            let val = format!("val{:06}", i);
            wtx.insert(tid, key.as_bytes(), val.as_bytes()).unwrap();
        }
        wtx.commit().unwrap();
    }

    let rtx = db.read_txn();
    for i in 0u32..200 {
        let key = format!("key{:06}", i);
        let val = format!("val{:06}", i);
        assert_eq!(
            rtx.get(tid, key.as_bytes()).unwrap(),
            Some(val.into_bytes()),
            "mismatch at key {}",
            i
        );
    }
}

#[test]
fn reopen_and_continue_writing() {
    let mut db;
    let tid;
    {
        db = Database::create();
        let mut wtx = db.write_txn();
        tid = wtx.create_tree().unwrap();
        wtx.insert(tid, b"before", b"close").unwrap();
        wtx.commit().unwrap();
    }

    {
        let mut db = reopen(db);
        let mut wtx = db.write_txn();
        wtx.insert(tid, b"after", b"reopen").unwrap();
        wtx.commit().unwrap();

        let rtx = db.read_txn();
        assert_eq!(rtx.get(tid, b"before").unwrap(), Some(b"close".to_vec()));
        assert_eq!(rtx.get(tid, b"after").unwrap(), Some(b"reopen".to_vec()));
    }
}

#[test]
fn write_range_scan() {
    let (_dir, mut db) = make_db();

    let tid;
    {
        let mut wtx = db.write_txn();
        tid = wtx.create_tree().unwrap();
        wtx.insert(tid, b"a", b"1").unwrap();
        wtx.insert(tid, b"b", b"2").unwrap();
        wtx.insert(tid, b"c", b"3").unwrap();

        let results = wtx.range(tid, b"a", b"b").unwrap();
        assert_eq!(results.len(), 2);
        wtx.commit().unwrap();
    }
}

#[test]
fn implicit_abort_on_drop() {
    let (_dir, mut db) = make_db();

    let tid;
    {
        let mut wtx = db.write_txn();
        tid = wtx.create_tree().unwrap();
        wtx.insert(tid, b"committed", b"yes").unwrap();
        wtx.commit().unwrap();
    }

    {
        let mut wtx = db.write_txn();
        wtx.insert(tid, b"dropped", b"data").unwrap();
        // dropped here
    }

    let rtx = db.read_txn();
    assert_eq!(rtx.get(tid, b"committed").unwrap(), Some(b"yes".to_vec()));
}

//! Edge cases of pages, the log and transactions, and what holds across them.

use gemgraph::cache::PageCache;
use gemgraph::datafile::DataFile;
use gemgraph::error::{BTreeError, IoError, PagerError};
use gemgraph::freelist::{FreeList, ENTRIES_PER_PAGE};
use gemgraph::meta::{pick_active_meta, Meta};
use gemgraph::mvcc::crash::keep_log;
use gemgraph::mvcc::database::Database;
use gemgraph::mvcc::{MvccError, TreeId};
use gemgraph::node::{InternalNode, LeafNode};
use gemgraph::page::{PageId, PageType, PAGE_SIZE};
use gemgraph::pager::Pager;
use gemgraph::tree::BTree;
use gemgraph::wal::reader::{accept_record, WalReader};
use gemgraph::wal::record::{WalRecord, COMMIT};
use gemgraph::wal::recovery::{recover, RecoveryAction};
use gemgraph::wal::writer::WalWriter;
use std::collections::BTreeMap;

/// CRC-32C, one bit at a time.
fn slow_crc(bytes: &[u8]) -> u32 {
    let mut c = u32::MAX;
    for b in bytes {
        c ^= *b as u32;
        for _ in 0..8 {
            c = if c & 1 == 1 { (c >> 1) ^ 0x82F6_3B78 } else { c >> 1 };
        }
    }
    !c
}

struct Rng(u64);

impl Rng {
    fn next(&mut self) -> u64 {
        self.0 ^= self.0 << 13;
        self.0 ^= self.0 >> 7;
        self.0 ^= self.0 << 17;
        self.0
    }
}

#[test]
fn slow_crc_has_the_known_check_value() {
    assert_eq!(slow_crc(b"123456789"), 0xE306_9283);
}

#[test]
fn meta_checksum_is_crc32c_of_its_fields() {
    let mut m = Meta::new_initial();
    m.txn_id = 77;
    m.root_page_id = 5;
    m.wal_offset = 1234;
    m.update_checksum();
    let page = m.to_page(1);
    assert_eq!(m.checksum, slow_crc(&page[5..37]));
    assert_eq!(m.compute_checksum(), m.checksum);
    assert!(m.validate_checksum());
    m.txn_id = 78;
    assert!(!m.validate_checksum());
}

#[test]
fn damaged_meta_pages_are_refused() {
    let m = Meta::new_initial();
    let good = m.to_page(0);
    for at in [5, 20, 37, 40] {
        let mut bad = good;
        bad[at] ^= 1;
        assert!(pick_active_meta(&bad, &bad).is_none());
        let (_, slot) = pick_active_meta(&bad, &good).unwrap();
        assert_eq!(slot, 1);
    }
}

#[test]
fn page_types_have_their_codes() {
    for code in 0..=255u8 {
        match PageType::from_u8(code) {
            Some(t) => assert_eq!(t.to_u8(), code),
            None => assert!(code > 4),
        }
    }
}

#[test]
fn log_frames_have_their_layout() {
    let mut w = WalWriter::create();
    assert_eq!(w.append_commit(0x0102_0304_0506_0708).unwrap(), 0);
    let bytes = w.bytes().to_vec();
    let mut body = vec![COMMIT];
    body.extend_from_slice(&0x0102_0304_0506_0708u64.to_le_bytes());
    let mut expected = vec![9, 0, 0, 0];
    expected.extend_from_slice(&body);
    expected.extend_from_slice(&slow_crc(&body).to_le_bytes());
    assert_eq!(bytes, expected);
    assert_eq!(w.append_checkpoint(1).unwrap(), 17);
    assert_eq!(w.offset(), 34);
}

#[test]
fn a_wrong_checksum_ends_the_log() {
    let mut w = WalWriter::create();
    w.append_commit(1).unwrap();
    w.append_commit(2).unwrap();
    let mut log = w.into_bytes();
    log[20] ^= 0x40;
    let reader = WalReader::open(log.clone());
    let mut it = reader.iter_from(0);
    assert_eq!(it.next().unwrap().unwrap(), WalRecord::Commit { txn_id: 1 });
    assert!(it.next().is_none());
    assert_eq!(recover(&log, 0).unwrap().len(), 0);
}

#[test]
fn a_senseless_record_with_a_good_checksum_ends_the_log() {
    let body = [200u8, 1, 2];
    let mut w = WalWriter::create();
    w.append_page_write(3, &[7; PAGE_SIZE]).unwrap();
    w.append_commit(1).unwrap();
    let mut log = w.into_bytes();
    log.extend_from_slice(&[3, 0, 0, 0]);
    log.extend_from_slice(&body);
    log.extend_from_slice(&slow_crc(&body).to_le_bytes());
    let mut w = WalWriter::open(log);
    w.append_page_write(4, &[8; PAGE_SIZE]).unwrap();
    w.append_commit(2).unwrap();
    let log = w.into_bytes();
    assert_eq!(recover(&log, 0).unwrap().len(), 1);
    let reader = WalReader::open(log);
    let mut it = reader.iter_from(0);
    assert!(it.next().unwrap().is_ok());
    assert!(it.next().unwrap().is_ok());
    assert!(it.next().is_none());
    assert!(it.next().is_none());
    assert!(accept_record(&body, 1, 1).is_none());
    assert!(accept_record(&body, 1, 2).is_none());
    assert_eq!(
        accept_record(&[COMMIT, 5, 0, 0, 0, 0, 0, 0, 0], 1, 1),
        Some(WalRecord::Commit { txn_id: 5 })
    );
}

#[test]
fn reading_past_the_end_of_the_log_gives_nothing() {
    let mut w = WalWriter::create();
    w.append_commit(1).unwrap();
    let log = w.into_bytes();
    let reader = WalReader::open(log.clone());
    assert!(reader.iter_from(17).next().is_none());
    assert!(reader.iter_from(u64::MAX).next().is_none());
    assert!(recover(&log, u64::MAX).unwrap().is_empty());
    let zero = WalReader::open(vec![0, 0, 0, 0, 9, 9]);
    assert!(zero.iter_from(0).next().is_none());
}

#[test]
fn a_log_torn_anywhere_keeps_its_whole_records() {
    let mut w = WalWriter::create();
    w.append_page_write(3, &[7; PAGE_SIZE]).unwrap();
    w.append_commit(1).unwrap();
    let whole = w.offset() as usize;
    w.append_page_write(4, &[8; PAGE_SIZE]).unwrap();
    w.append_commit(2).unwrap();
    let log = w.into_bytes();
    for cut in [whole, whole + 1, whole + 4, whole + 2000, log.len() - 1] {
        let actions = recover(&log[..cut], 0).unwrap();
        assert_eq!(actions.len(), 1);
        let RecoveryAction::ReplayPage { page_id, data } = &actions[0];
        assert_eq!((*page_id, data[0]), (3, 7));
    }
    assert_eq!(recover(&log, 0).unwrap().len(), 2);
}

#[test]
fn long_freelists_take_several_pages() {
    let mut fl = FreeList::new();
    for i in 0..2 * ENTRIES_PER_PAGE + 3 {
        fl.free(PageId(10 + i as u32));
    }
    assert_eq!(fl.chain_pages_needed(), 3);
    let ids = [PageId(5000), PageId(5001), PageId(5002)];
    let pages = fl.persist(&ids);
    assert_eq!(pages.len(), 3);
    let restored = FreeList::restore(PageId(5000), |id: PageId| {
        pages.iter().find(|p| p.0 == id).unwrap().1
    });
    assert_eq!(restored.pages, fl.pages);
}

#[test]
fn a_freelist_that_overflows_its_first_page_by_one_comes_back_whole() {
    let mut fl = FreeList::new();
    for i in 1..=1021u32 {
        fl.free(PageId(i));
    }
    assert_eq!(ENTRIES_PER_PAGE, 1020);
    assert_eq!(fl.chain_pages_needed(), 2);
    let pages = fl.persist(&[PageId(5000), PageId(5001)]);
    assert_eq!(pages.len(), 2);
    assert_eq!(pages[0].1[4092..], 1020u32.to_le_bytes());
    assert_eq!(pages[1].1[4092..], 1u32.to_le_bytes());
    let restored = FreeList::restore(PageId(5000), |id: PageId| {
        pages.iter().find(|p| p.0 == id).unwrap().1
    });
    assert_eq!(restored.pages, fl.pages);
}

#[test]
fn a_long_freelist_survives_a_commit() {
    let mut p = Pager::create();
    let ids: Vec<PageId> = (0..1021).map(|_| p.alloc_page()).collect();
    for id in &ids {
        p.write_page(*id, &[1; PAGE_SIZE]).unwrap();
    }
    for id in &ids {
        p.free_page(*id);
    }
    let mut m = *p.meta();
    m.txn_id = 1;
    p.commit_meta(m).unwrap();
    let q = Pager::open(p.into_file()).unwrap();
    assert_eq!(q.free_pages(), ids.as_slice());
}

#[test]
fn the_cache_drops_the_page_used_longest_ago() {
    let mut c = PageCache::new(2);
    c.insert(1, [1; PAGE_SIZE]);
    c.insert(2, [2; PAGE_SIZE]);
    c.touch(1);
    c.insert(3, [3; PAGE_SIZE]);
    assert!(c.get(2).is_none());
    assert_eq!(c.get(1).unwrap()[0], 1);
    c.replace(1, [9; PAGE_SIZE]);
    assert_eq!(c.get(1).unwrap()[0], 9);
    c.remove(1);
    assert!(c.get(1).is_none());
    assert_eq!(c.get(3).unwrap()[0], 3);
}

#[test]
fn writing_past_the_end_fills_the_gap() {
    let mut f = DataFile::new();
    f.write(PageId(3), &[5; PAGE_SIZE]);
    assert_eq!(f.page_count(), 4);
    assert_eq!(f.read(PageId(1)).unwrap(), [0; PAGE_SIZE]);
    assert_eq!(f.dirty_pages(), vec![0, 1, 2, 3]);
    f.clear_dirty();
    f.write(PageId(2), &[6; PAGE_SIZE]);
    assert_eq!(f.dirty_pages(), vec![2]);
    assert!(f.read(PageId(4)).is_none());
}

#[test]
fn a_file_goes_back_to_what_was_kept() {
    let mut f = DataFile::new();
    f.write(PageId(0), &[1; PAGE_SIZE]);
    f.write(PageId(1), &[2; PAGE_SIZE]);
    f.keep();
    assert!(f.is_kept());
    f.write(PageId(0), &[3; PAGE_SIZE]);
    f.write(PageId(0), &[4; PAGE_SIZE]);
    f.write(PageId(5), &[5; PAGE_SIZE]);
    assert!(!f.is_kept());
    assert_eq!(f.read(PageId(0)).unwrap()[0], 4);
    assert_eq!(f.read_kept(PageId(0)).unwrap()[0], 1);
    assert_eq!(f.read_kept(PageId(1)).unwrap()[0], 2);
    assert!(f.read_kept(PageId(5)).is_none());
    f.roll_back();
    assert_eq!(f.page_count(), 2);
    assert_eq!(f.read(PageId(0)).unwrap()[0], 1);
    assert!(f.is_kept());
}

#[test]
fn a_page_past_the_end_is_an_error() {
    let mut p = Pager::create();
    assert_eq!(p.read_page(PageId(9)), Err(PagerError::Io(IoError::UnexpectedEof)));
    assert_eq!(p.peek_page(PageId(9)), Err(PagerError::Io(IoError::UnexpectedEof)));
}

#[test]
fn opening_what_is_no_data_file() {
    assert!(matches!(
        Pager::open(DataFile::new()),
        Err(PagerError::Io(IoError::UnexpectedEof))
    ));
    let mut f = DataFile::new();
    f.load_page(&[0; PAGE_SIZE]);
    f.load_page(&[0; PAGE_SIZE]);
    assert!(matches!(
        Database::try_open(f, None),
        Some(Err(MvccError::Pager(PagerError::CorruptMeta)))
    ));
}

#[test]
fn a_freelist_without_an_end_is_not_opened() {
    let mut p = Pager::create();
    let a = p.alloc_page();
    p.write_page(a, &[0; PAGE_SIZE]).unwrap();
    p.free_page(a);
    let mut m = *p.meta();
    m.txn_id = 1;
    p.commit_meta(m).unwrap();
    let head = PageId(p.meta().next_page_id - 1);
    let mut f = p.into_file();
    let mut page = f.read(head).unwrap();
    page[5..9].copy_from_slice(&head.0.to_le_bytes());
    f.write(head, &page);
    assert!(!Pager::can_open(&f));
    assert!(Database::try_open(f, None).is_none());
}

#[test]
fn too_large_keys_and_values_are_refused() {
    let mut pager = Pager::create();
    let mut t = BTree::new(&mut pager);
    assert_eq!(t.insert(&[1; 1001], b"v"), Err(BTreeError::KeyTooLarge(1001, 1000)));
    assert_eq!(t.insert(b"k", &[1; 1001]), Err(BTreeError::ValueTooLarge(1001, 1000)));
    assert_eq!(t.get(&[1; 1001]), Err(BTreeError::KeyTooLarge(1001, 1000)));
    assert_eq!(t.delete(&[1; 1001]), Err(BTreeError::KeyTooLarge(1001, 1000)));
    t.insert(&[1; 1000], &[2; 1000]).unwrap();
    assert_eq!(t.get(&[1; 1000]).unwrap(), Some(vec![2; 1000]));
}

#[test]
fn a_value_that_grows_splits_its_leaf() {
    let mut pager = Pager::create();
    let mut t = BTree::new(&mut pager);
    for i in 0..30u8 {
        t.insert(&[i], &[i; 100]).unwrap();
    }
    for i in 0..30u8 {
        t.insert(&[i], &[i; 1000]).unwrap();
    }
    for i in 0..30u8 {
        assert_eq!(t.get(&[i]).unwrap(), Some(vec![i; 1000]));
    }
    assert_eq!(t.range(&[0], &[29]).unwrap().len(), 30);
}

#[test]
fn a_tree_agrees_with_a_sorted_map() {
    let mut rng = Rng(0x9E37_79B9_7F4A_7C15);
    let mut pager = Pager::create();
    let mut t = BTree::new(&mut pager);
    let mut m: BTreeMap<Vec<u8>, Vec<u8>> = BTreeMap::new();
    for step in 0..6000u64 {
        let key = vec![(rng.next() % 40) as u8; 1 + (rng.next() % 20) as usize];
        match rng.next() % 4 {
            0 => assert_eq!(t.delete(&key).unwrap(), m.remove(&key).is_some()),
            1 => assert_eq!(t.get(&key).unwrap().as_ref(), m.get(&key)),
            _ => {
                let value = vec![step as u8; (rng.next() % 900) as usize];
                t.insert(&key, &value).unwrap();
                m.insert(key, value);
            }
        }
    }
    let all: Vec<(Vec<u8>, Vec<u8>)> = m.clone().into_iter().collect();
    assert_eq!(t.range(&[], &[255; 1000]).unwrap(), all);
    let (lo, hi) = (vec![10u8; 3], vec![25u8; 2]);
    let part: Vec<(Vec<u8>, Vec<u8>)> =
        m.range(lo.clone()..=hi.clone()).map(|(k, v)| (k.clone(), v.clone())).collect();
    assert_eq!(t.range(&lo, &hi).unwrap(), part);
    assert!(t.range(&hi, &lo).unwrap().is_empty());
}

#[test]
fn tree_numbers_count_up_from_one() {
    let mut db = Database::create();
    let mut wtx = db.write_txn();
    assert_eq!(wtx.create_tree().unwrap(), TreeId(1));
    assert_eq!(wtx.create_tree().unwrap(), TreeId(2));
    assert_eq!(
        wtx.insert(TreeId(3), b"k", b"v"),
        Err(MvccError::TreeNotFound(TreeId(3)))
    );
    assert_eq!(wtx.delete(TreeId(3), b"k"), Err(MvccError::TreeNotFound(TreeId(3))));
    assert!(wtx.can_commit());
    wtx.commit().unwrap();
    assert_eq!(db.current_txn_id, 1);
    let rtx = db.read_txn();
    assert_eq!(rtx.get(TreeId(9), b"k"), Err(MvccError::TreeNotFound(TreeId(9))));
    assert!(matches!(
        rtx.range(TreeId(9), b"", b"z"),
        Err(MvccError::TreeNotFound(TreeId(9)))
    ));
}

#[test]
fn an_abort_leaves_the_last_commit() {
    let mut db = Database::create();
    let mut wtx = db.write_txn();
    let tid = wtx.create_tree().unwrap();
    wtx.insert(tid, b"kept", b"old").unwrap();
    wtx.commit().unwrap();

    let mut wtx = db.write_txn();
    wtx.insert(tid, b"kept", b"new").unwrap();
    for i in 0..500u32 {
        wtx.insert(tid, &i.to_be_bytes(), &[1; 500]).unwrap();
    }
    assert_eq!(wtx.get(tid, b"kept").unwrap(), Some(b"new".to_vec()));
    wtx.abort();

    let rtx = db.read_txn();
    assert_eq!(rtx.get(tid, b"kept").unwrap(), Some(b"old".to_vec()));
    assert_eq!(rtx.range(tid, b"", &[255; 4]).unwrap().len(), 1);
    assert!(db.is_sound());
}

#[test]
fn a_dropped_transaction_leaves_the_last_commit() {
    let mut db = Database::create();
    let mut wtx = db.write_txn();
    let tid = wtx.create_tree().unwrap();
    wtx.insert(tid, b"kept", b"old").unwrap();
    wtx.commit().unwrap();
    {
        let mut wtx = db.write_txn();
        wtx.delete(tid, b"kept").unwrap();
        wtx.insert(tid, b"lost", b"x").unwrap();
    }
    assert_eq!(db.read_txn().get(tid, b"kept").unwrap(), Some(b"old".to_vec()));
    assert_eq!(db.read_txn().get(tid, b"lost").unwrap(), None);
    let mut wtx = db.write_txn();
    assert_eq!(wtx.get(tid, b"lost").unwrap(), None);
    wtx.insert(tid, b"next", b"y").unwrap();
    wtx.commit().unwrap();
    let all = db.read_txn().range(tid, b"", b"z").unwrap();
    assert_eq!(all.len(), 2);
}

#[test]
fn a_restart_in_a_transaction_finds_the_last_commit() {
    let mut db = Database::create();
    let mut wtx = db.write_txn();
    let tid = wtx.create_tree().unwrap();
    wtx.insert(tid, b"kept", b"old").unwrap();
    wtx.commit().unwrap();
    {
        let mut wtx = db.write_txn();
        wtx.insert(tid, b"kept", b"new").unwrap();
    }
    let (file, log) = db.into_files();
    let db = Database::open(file, Some(log)).unwrap();
    assert!(db.is_sound());
    assert_eq!(db.read_txn().get(tid, b"kept").unwrap(), Some(b"old".to_vec()));
    assert_eq!(db.current_txn_id, 1);
}

#[test]
fn committed_page_writes_in_the_log_are_replayed() {
    let mut db = Database::create();
    let mut wtx = db.write_txn();
    let tid = wtx.create_tree().unwrap();
    wtx.insert(tid, b"k", b"one").unwrap();
    wtx.commit().unwrap();
    let (file_one, log_one) = db.into_files();
    let mut later = DataFile::new();
    for i in 0..file_one.page_count() {
        later.load_page(&file_one.read(PageId(i as u32)).unwrap());
    }
    let mut db = Database::open(later, Some(log_one.clone())).unwrap();
    let mut wtx = db.write_txn();
    wtx.insert(tid, b"k", b"two").unwrap();
    wtx.commit().unwrap();
    let (file_two, _) = db.into_files();

    let mut w = WalWriter::open(log_one);
    for i in 2..file_two.page_count() {
        w.append_page_write(i as u32, &file_two.read(PageId(i as u32)).unwrap()).unwrap();
    }
    w.append_commit(2).unwrap();
    let torn = w.offset();
    w.append_page_write(2, &[0xEE; PAGE_SIZE]).unwrap();
    assert!(w.offset() > torn);
    let db = Database::open(file_one, Some(w.into_bytes())).unwrap();
    assert!(db.is_sound());
    assert_eq!(db.current_txn_id, 2);
    assert_eq!(db.read_txn().get(tid, b"k").unwrap(), Some(b"two".to_vec()));
}

#[test]
fn a_damaged_tree_is_not_sound() {
    let mut db = Database::create();
    let mut wtx = db.write_txn();
    let tid = wtx.create_tree().unwrap();
    for i in 0..200u32 {
        wtx.insert(tid, &i.to_be_bytes(), &[3; 100]).unwrap();
    }
    wtx.commit().unwrap();
    assert!(db.is_sound());
    let (file, log) = db.into_files();
    let mut damaged = 0;
    for id in 2..file.page_count() as u32 {
        let mut copy = DataFile::new();
        for i in 0..file.page_count() {
            copy.load_page(&file.read(PageId(i as u32)).unwrap());
        }
        let mut page = copy.read(PageId(id)).unwrap();
        page[0] = 9;
        copy.write(PageId(id), &page);
        let db = Database::open(copy, Some(log.clone())).unwrap();
        if !db.is_sound() {
            damaged += 1;
        }
    }
    assert_eq!(damaged, file.page_count() - 2);
}

fn pages_of(file: &DataFile) -> Vec<[u8; PAGE_SIZE]> {
    (0..file.page_count()).map(|i| file.read(PageId(i as u32)).unwrap()).collect()
}

fn file_of(pages: &[[u8; PAGE_SIZE]]) -> DataFile {
    let mut file = DataFile::new();
    for page in pages {
        file.load_page(page);
    }
    file
}

/// The files of a database before and after a commit that changes old pages and
/// takes new ones: both data files, the log after it, and where it ended before.
fn two_commits() -> (TreeId, Vec<[u8; PAGE_SIZE]>, Vec<[u8; PAGE_SIZE]>, Vec<u8>, usize) {
    let mut db = Database::create();
    let mut wtx = db.write_txn();
    let tid = wtx.create_tree().unwrap();
    for i in 0..60u32 {
        wtx.insert(tid, &i.to_be_bytes(), &[1; 300]).unwrap();
    }
    wtx.commit().unwrap();
    let (file, log) = db.into_files();
    let before = pages_of(&file);
    let end = log.len();

    let mut db = Database::open(file, Some(log)).unwrap();
    let mut wtx = db.write_txn();
    wtx.create_tree().unwrap();
    for i in 30..120u32 {
        wtx.insert(tid, &i.to_be_bytes(), &[2; 300]).unwrap();
    }
    wtx.commit().unwrap();
    let (file, log) = db.into_files();
    (tid, before, pages_of(&file), log, end)
}

fn holds_commit(db: &Database, tid: TreeId, second: bool) {
    assert!(db.is_sound());
    let rtx = db.read_txn();
    let all = rtx.range(tid, b"", &[255; 4]).unwrap();
    assert_eq!(all.len(), if second { 120 } else { 60 });
    for (key, value) in all {
        let i = u32::from_be_bytes([key[0], key[1], key[2], key[3]]);
        assert_eq!(value, vec![if second && i >= 30 { 2 } else { 1 }; 300]);
    }
    assert_eq!(rtx.get(TreeId(2), b"k").is_ok(), second);
}

#[test]
fn a_commit_logs_every_page_that_it_changed() {
    let (_, before, after, log, end) = two_commits();
    let actions = recover(&log, end as u64).unwrap();
    let mut logged = BTreeMap::new();
    for RecoveryAction::ReplayPage { page_id, data } in &actions {
        assert_eq!(**data, after[*page_id as usize]);
        logged.insert(*page_id as usize, ());
    }
    let mut changed = 0;
    for i in 0..after.len() {
        let differs = i >= before.len() || before[i] != after[i];
        assert_eq!(logged.contains_key(&i), differs);
        changed += usize::from(differs);
    }
    assert!(changed > 10);
    assert_eq!(log.len(), end + 4109 * changed + 17);
    let reader = WalReader::open(log);
    let mut it = reader.iter_from(end as u64);
    let mut last = it.next().unwrap().unwrap();
    while let Some(record) = it.next() {
        last = record.unwrap();
    }
    assert_eq!(last, WalRecord::Commit { txn_id: 2 });
}

#[test]
fn a_transaction_writes_nothing_to_the_log_before_its_commit() {
    let mut db = Database::create();
    let mut wtx = db.write_txn();
    let tid = wtx.create_tree().unwrap();
    wtx.insert(tid, b"k", b"v").unwrap();
    wtx.abort();
    assert_eq!(db.wal.offset(), 0);
}

#[test]
fn a_crash_while_storing_a_commit_loses_nothing() {
    let (tid, before, after, log, _) = two_commits();
    let mut rng = Rng(0x2545_F491_4F6C_DD1D);
    let old_slot = usize::from(before[0] != after[0]);
    for _ in 0..40 {
        let len = before.len() + (rng.next() as usize) % (after.len() - before.len() + 1);
        let mut pages = Vec::new();
        for i in 0..len {
            let changed = i >= before.len() || before[i] != after[i];
            pages.push(match rng.next() % 3 {
                _ if i < 2 || !changed => before[i],
                0 => after[i],
                1 if i < before.len() => before[i],
                _ => [0xEE; PAGE_SIZE],
            });
        }
        if rng.next() % 2 == 0 {
            pages[old_slot ^ 1][100] ^= 1;
            pages[old_slot ^ 1][6] ^= 1;
        }
        let db = Database::open(file_of(&pages), Some(log.clone())).unwrap();
        assert_eq!(db.current_txn_id, 2);
        holds_commit(&db, tid, true);
        let (file, bytes) = db.into_files();
        assert_eq!(bytes, log);
        assert!(pages_of(&file) == after);
    }
}

#[test]
fn a_crash_while_logging_a_commit_undoes_it() {
    let (tid, before, after, log, end) = two_commits();
    for cut in [end, end + 1, end + 4000, end + 4109, end + 5000, log.len() - 18, log.len() - 1] {
        let torn = log[..cut].to_vec();
        let db = Database::open(file_of(&before), Some(torn.clone())).unwrap();
        assert_eq!(db.current_txn_id, 1);
        holds_commit(&db, tid, false);
        assert!(pages_of(&db.into_files().0) == before);
        assert_eq!(keep_log(&file_of(&before), torn), log[..end]);
    }
    assert_eq!(keep_log(&file_of(&before), log.clone()), log);
    let db = Database::open(file_of(&before), Some(log)).unwrap();
    holds_commit(&db, tid, true);
    assert!(pages_of(&db.into_files().0) == after);
}

#[test]
fn opening_commits_nothing_where_nothing_is_replayed() {
    let (file, _) = Database::create().into_files();
    let pages = pages_of(&file);
    let db = Database::open(file, Some(vec![7])).unwrap();
    assert_eq!(db.current_txn_id, 0);
    assert_eq!(db.wal.offset(), 1);
    assert!(pages_of(&db.into_files().0) == pages);
}

#[test]
fn a_commit_after_a_torn_log_is_recovered_too() {
    let (tid, before, _, log, end) = two_commits();
    let torn = keep_log(&file_of(&before), log[..end + 6000].to_vec());
    let mut db = Database::open(file_of(&before), Some(torn)).unwrap();
    let mut wtx = db.write_txn();
    wtx.insert(tid, b"late", b"x").unwrap();
    wtx.commit().unwrap();
    let (_, log) = db.into_files();
    let db = Database::open(file_of(&before), Some(log)).unwrap();
    assert!(db.is_sound());
    assert_eq!(db.current_txn_id, 2);
    assert_eq!(db.read_txn().get(tid, b"late").unwrap(), Some(b"x".to_vec()));
}

#[test]
fn a_missing_log_is_started_anew() {
    let (tid, before, _, _, _) = two_commits();
    let mut db = Database::open(file_of(&before), None).unwrap();
    holds_commit(&db, tid, false);
    assert_eq!((db.current_txn_id, db.wal.offset()), (1, 0));
    let mut wtx = db.write_txn();
    wtx.insert(tid, b"late", b"x").unwrap();
    wtx.commit().unwrap();
    let (file, log) = db.into_files();
    let db = Database::open(file, Some(log)).unwrap();
    assert_eq!(db.current_txn_id, 2);
    assert_eq!(db.read_txn().get(tid, b"late").unwrap(), Some(b"x".to_vec()));
}

#[test]
fn meta_pages_are_stored_last() {
    let (_, before, after, log, _) = two_commits();
    let db = Database::open(file_of(&before), Some(log)).unwrap();
    let (file, _) = db.into_files();
    let (pages, metas) = file.store_order();
    assert!(pages.windows(2).all(|w| w[0] < w[1]));
    assert!(pages.iter().all(|id| *id >= 2));
    assert_eq!(metas.len(), 1);
    assert!(metas[0] < 2);
    for i in 0..after.len() {
        let changed = i >= before.len() || before[i] != after[i];
        assert_eq!(pages.contains(&(i as u32)) || metas.contains(&(i as u32)), changed);
    }
}

#[test]
fn restoring_reads_each_page_of_the_chain_once() {
    let mut fl = FreeList::new();
    for i in 1..=2500u32 {
        fl.free(PageId(i * 3));
    }
    let ids = [PageId(70), PageId(40), PageId(55)];
    let pages = fl.persist(&ids);
    let mut seen = Vec::new();
    let restored = FreeList::restore(PageId(70), |id: PageId| {
        seen.push(id);
        pages.iter().find(|p| p.0 == id).unwrap().1
    });
    assert_eq!(restored.pages, fl.pages);
    assert_eq!(seen, ids);
    let none = FreeList::restore(PageId(0), |_: PageId| unreachable!());
    assert!(none.pages.is_empty());
}

#[test]
fn a_bad_slot_in_front_of_too_many_is_refused() {
    for (kind, slots) in [(3u8, 9usize), (2u8, 13usize)] {
        let mut page = [0u8; PAGE_SIZE];
        page[0] = kind;
        page[5..7].copy_from_slice(&60000u16.to_le_bytes());
        page[slots..slots + 6].copy_from_slice(&[0xFF; 6]);
        if kind == 3 {
            assert!(matches!(LeafNode::from_page(&page), Err(BTreeError::CorruptNode)));
        } else {
            assert!(matches!(InternalNode::from_page(&page), Err(BTreeError::CorruptNode)));
        }
    }
}

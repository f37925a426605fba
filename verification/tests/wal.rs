//! The log.

use gemgraph::page::PAGE_SIZE;
use gemgraph::wal::reader::{WalIter, WalReader};
use gemgraph::wal::record::{WalRecord, COMMIT};
use gemgraph::wal::recovery::{recover, RecoveryAction};
use gemgraph::wal::writer::WalWriter;

#[test]
fn iter_from_middle() {
    let page = [0u8; PAGE_SIZE];

    let second_offset;
    let log;
    {
        let mut w = WalWriter::create();
        w.append_page_write(1, &page).unwrap();
        second_offset = w.append_commit(1).unwrap();
        w.append_page_write(2, &page).unwrap();
        w.append_commit(2).unwrap();
        log = w.into_bytes();
    }

    let reader = WalReader::open(log);
    let records: Vec<WalRecord> = collect(reader.iter_from(second_offset));
    assert_eq!(records.len(), 3); // Commit(1), PageWrite(2), Commit(2)
    match &records[0] {
        WalRecord::Commit { txn_id } => assert_eq!(*txn_id, 1),
        _ => panic!("expected Commit"),
    }
}

#[test]
fn truncated_record_stops_iteration() {
    let page = [0u8; PAGE_SIZE];

    let mut log;
    {
        let mut w = WalWriter::create();
        w.append_page_write(1, &page).unwrap();
        w.append_commit(1).unwrap();
        log = w.into_bytes();
    }

    // Truncate the log mid-way through what would be another record
    {
        let len = log.len();
        // Append a partial length field
        log.extend_from_slice(&[0x10, 0x00]); // partial 2 of 4 bytes for length
        // Verify the log got longer
        let new_len = log.len();
        assert_eq!(new_len, len + 2);
    }

    let reader = WalReader::open(log);
    let records: Vec<WalRecord> = collect(reader.iter_from(0));
    // Should still read the 2 good records; the partial one is silently skipped
    assert_eq!(records.len(), 2);
}

#[test]
fn empty_file() {
    let log = WalWriter::create().into_bytes();

    let reader = WalReader::open(log);
    let records: Vec<WalRecord> = collect(reader.iter_from(0));
    assert!(records.is_empty());
}

#[test]
fn round_trip_page_write() {
    let mut page = Box::new([0u8; PAGE_SIZE]);
    page[0] = 0xAB;
    page[4095] = 0xCD;
    let rec = WalRecord::PageWrite { page_id: 42, data: page };
    let payload = rec.payload();
    let decoded = WalRecord::from_raw(rec.record_type(), &payload).unwrap();
    assert_eq!(rec, decoded);
}

#[test]
fn round_trip_commit() {
    let rec = WalRecord::Commit { txn_id: 1234567890 };
    let payload = rec.payload();
    let decoded = WalRecord::from_raw(rec.record_type(), &payload).unwrap();
    assert_eq!(rec, decoded);
}

#[test]
fn round_trip_checkpoint() {
    let rec = WalRecord::Checkpoint { txn_id: 99 };
    let payload = rec.payload();
    let decoded = WalRecord::from_raw(rec.record_type(), &payload).unwrap();
    assert_eq!(rec, decoded);
}

#[test]
fn bad_record_type() {
    assert!(WalRecord::from_raw(255, &[]).is_err());
}

#[test]
fn wrong_payload_length() {
    assert!(WalRecord::from_raw(COMMIT, &[0; 4]).is_err());
}

/// The records that the iterator yields.
fn collect(mut it: WalIter<'_>) -> Vec<WalRecord> {
    let mut r = Vec::new();
    while let Some(item) = it.next() {
        if let Ok(rec) = item {
            r.push(rec);
        }
    }
    r
}

fn make_page(fill: u8) -> [u8; PAGE_SIZE] {
    [fill; PAGE_SIZE]
}

#[test]
fn recover_committed_only() {
    let log;
    {
        let mut w = WalWriter::create();
        // Txn 1: committed
        w.append_page_write(10, &make_page(0xAA)).unwrap();
        w.append_commit(1).unwrap();
        // Txn 2: committed
        w.append_page_write(20, &make_page(0xBB)).unwrap();
        w.append_page_write(21, &make_page(0xCC)).unwrap();
        w.append_commit(2).unwrap();
        // Txn 3: uncommitted (no commit record)
        w.append_page_write(30, &make_page(0xDD)).unwrap();
        log = w.into_bytes();
    }

    let actions = recover(&log, 0).unwrap();
    assert_eq!(actions.len(), 3);

    match &actions[0] {
        RecoveryAction::ReplayPage { page_id, data } => {
            assert_eq!(*page_id, 10);
            assert_eq!(data[0], 0xAA);
        }
    }
    match &actions[1] {
        RecoveryAction::ReplayPage { page_id, data } => {
            assert_eq!(*page_id, 20);
            assert_eq!(data[0], 0xBB);
        }
    }
    match &actions[2] {
        RecoveryAction::ReplayPage { page_id, data } => {
            assert_eq!(*page_id, 21);
            assert_eq!(data[0], 0xCC);
        }
    }
}

#[test]
fn recover_with_truncation() {
    let truncate_after;
    let mut log;
    {
        let mut w = WalWriter::create();
        w.append_page_write(1, &make_page(0x11)).unwrap();
        w.append_commit(1).unwrap();
        truncate_after = w.offset();
        // Write a second txn that we'll truncate mid-record
        w.append_page_write(2, &make_page(0x22)).unwrap();
        log = w.into_bytes();
    }

    // Truncate the log just after the first commit
    {
        log.truncate(truncate_after as usize + 10); // keep 10 bytes of torn record
    }

    let actions = recover(&log, 0).unwrap();
    assert_eq!(actions.len(), 1);
    match &actions[0] {
        RecoveryAction::ReplayPage { page_id, data } => {
            assert_eq!(*page_id, 1);
            assert_eq!(data[0], 0x11);
        }
    }
}

#[test]
fn recover_empty_wal() {
    let log = WalWriter::create().into_bytes();

    let actions = recover(&log, 0).unwrap();
    assert!(actions.is_empty());
}

#[test]
fn recover_from_offset() {
    let second_txn_start;
    let log;
    {
        let mut w = WalWriter::create();
        w.append_page_write(1, &make_page(0x11)).unwrap();
        w.append_commit(1).unwrap();
        second_txn_start = w.offset();
        w.append_page_write(2, &make_page(0x22)).unwrap();
        w.append_commit(2).unwrap();
        log = w.into_bytes();
    }

    let actions = recover(&log, second_txn_start).unwrap();
    assert_eq!(actions.len(), 1);
    match &actions[0] {
        RecoveryAction::ReplayPage { page_id, .. } => assert_eq!(*page_id, 2),
    }
}

#[test]
fn write_and_read_back() {
    let mut page = [0u8; PAGE_SIZE];
    page[0] = 0xFF;

    let log;
    {
        let mut w = WalWriter::create();
        w.append_page_write(1, &page).unwrap();
        w.append_page_write(2, &page).unwrap();
        w.append_commit(100).unwrap();
        assert!(w.offset() > 0);
        log = w.into_bytes();
    }

    let reader = WalReader::open(log);
    let records: Vec<WalRecord> = collect(reader.iter_from(0));
    assert_eq!(records.len(), 3);
    match &records[0] {
        WalRecord::PageWrite { page_id, data } => {
            assert_eq!(*page_id, 1);
            assert_eq!(data[0], 0xFF);
        }
        _ => panic!("expected PageWrite"),
    }
    match &records[2] {
        WalRecord::Commit { txn_id } => assert_eq!(*txn_id, 100),
        _ => panic!("expected Commit"),
    }
}

#[test]
fn open_appends_to_end() {
    let page = [0u8; PAGE_SIZE];

    let mut log;
    {
        let mut w = WalWriter::create();
        w.append_page_write(1, &page).unwrap();
        w.append_commit(1).unwrap();
        log = w.into_bytes();
    }
    {
        let mut w = WalWriter::open(log);
        w.append_page_write(2, &page).unwrap();
        w.append_commit(2).unwrap();
        log = w.into_bytes();
    }

    let reader = WalReader::open(log);
    let records: Vec<WalRecord> = collect(reader.iter_from(0));
    assert_eq!(records.len(), 4);
}

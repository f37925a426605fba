//! Pages, metas, free pages and the pager.

use gemgraph::freelist::FreeList;
use gemgraph::meta::{pick_active_meta, Meta};
use gemgraph::page::{
    read_page_header, write_page_header, PageId, PageType, PAGE_HEADER_SIZE, PAGE_SIZE,
};
use gemgraph::pager::Pager;

#[test]
fn alloc_returns_lifo() {
    let mut fl = FreeList::new();
    fl.free(PageId(10));
    fl.free(PageId(20));
    fl.free(PageId(30));
    assert_eq!(fl.alloc_page(), Some(PageId(30)));
    assert_eq!(fl.alloc_page(), Some(PageId(20)));
    assert_eq!(fl.alloc_page(), Some(PageId(10)));
    assert_eq!(fl.alloc_page(), None);
}

#[test]
fn persist_and_restore_empty() {
    let fl = FreeList::new();
    assert_eq!(fl.chain_pages_needed(), 0);
    let persisted = fl.persist(&[]);
    assert!(persisted.is_empty());
}

#[test]
fn persist_and_restore_round_trip() {
    let mut fl = FreeList::new();
    for i in 10..25 {
        fl.free(PageId(i));
    }

    let needed = fl.chain_pages_needed();
    let chain_ids: Vec<PageId> = (100..100 + needed as u32).map(PageId).collect();
    let persisted = fl.persist(&chain_ids);

    // Build a simple lookup from the persisted pages
    let page_map: std::collections::HashMap<u32, [u8; PAGE_SIZE]> =
        persisted.into_iter().map(|(pid, buf)| (pid.0, buf)).collect();

    let restored = FreeList::restore(chain_ids[0], |pid| {
        page_map.get(&pid.0).copied().unwrap_or([0u8; PAGE_SIZE])
    });

    assert_eq!(restored.pages.len(), fl.pages.len());
    assert_eq!(restored.pages, fl.pages);
}

#[test]
fn round_trip_serialize() {
    let meta = Meta::new_initial();
    let page = meta.to_page(0);
    let restored = Meta::from_page(&page).unwrap();
    assert_eq!(meta, restored);
    assert!(restored.validate_checksum());
}

#[test]
fn checksum_detects_corruption() {
    let meta = Meta::new_initial();
    let mut page = meta.to_page(0);
    // Corrupt a byte in the meta fields area
    page[PAGE_HEADER_SIZE + 10] ^= 0xFF;
    let restored = Meta::from_page(&page).unwrap();
    assert!(!restored.validate_checksum());
}

#[test]
fn pick_higher_txn_id() {
    let mut m0 = Meta::new_initial();
    m0.txn_id = 5;
    m0.update_checksum();

    let mut m1 = Meta::new_initial();
    m1.txn_id = 10;
    m1.update_checksum();

    let p0 = m0.to_page(0);
    let p1 = m1.to_page(1);

    let (active, slot) = pick_active_meta(&p0, &p1).unwrap();
    assert_eq!(slot, 1);
    assert_eq!(active.txn_id, 10);
}

#[test]
fn pick_survives_one_corrupt() {
    let mut m0 = Meta::new_initial();
    m0.txn_id = 5;
    m0.update_checksum();
    let p0 = m0.to_page(0);

    // page 1 is all zeros — invalid magic
    let p1 = [0u8; PAGE_SIZE];

    let (active, slot) = pick_active_meta(&p0, &p1).unwrap();
    assert_eq!(slot, 0);
    assert_eq!(active.txn_id, 5);
}

#[test]
fn header_round_trip() {
    let mut buf = [0u8; PAGE_SIZE];
    write_page_header(&mut buf, PageType::BtreeLeaf, PageId(42));
    let (pt, id) = read_page_header(&buf);
    assert_eq!(pt, PageType::BtreeLeaf);
    assert_eq!(id, PageId(42));
}

#[test]
fn page_id_offset() {
    assert_eq!(PageId(0).offset(), 0);
    assert_eq!(PageId(1).offset(), 4096);
    assert_eq!(PageId(10).offset(), 40960);
}

#[test]
fn create_and_reopen() {
    let file;
    // Create
    {
        let pager = Pager::create();
        assert_eq!(pager.meta().txn_id, 0);
        assert_eq!(pager.meta().next_page_id, 2);
        file = pager.into_file();
    }

    // Reopen
    {
        let pager = Pager::open(file).unwrap();
        assert_eq!(pager.meta().txn_id, 0);
        assert_eq!(pager.meta().next_page_id, 2);
    }
}

#[test]
fn read_write_page() {
    let mut pager = Pager::create();

    let pid = pager.alloc_page();
    assert_eq!(pid, PageId(2));

    let mut data = [0u8; PAGE_SIZE];
    data[0] = 0xAB;
    data[4095] = 0xCD;
    pager.write_page(pid, &data).unwrap();

    let read_back = pager.read_page(pid).unwrap();
    assert_eq!(read_back[0], 0xAB);
    assert_eq!(read_back[4095], 0xCD);
}

#[test]
fn meta_commit_flips_slot() {
    let mut pager = Pager::create();
    assert_eq!(pager.meta_slot(), 0);

    let mut m = pager.meta().clone();
    m.txn_id = 1;
    pager.commit_meta(m).unwrap();
    assert_eq!(pager.meta_slot(), 1);
    assert_eq!(pager.meta().txn_id, 1);

    let mut m = pager.meta().clone();
    m.txn_id = 2;
    pager.commit_meta(m).unwrap();
    assert_eq!(pager.meta_slot(), 0);
    assert_eq!(pager.meta().txn_id, 2);
}

#[test]
fn meta_survives_reopen() {
    let file;
    {
        let mut pager = Pager::create();
        let mut m = pager.meta().clone();
        m.txn_id = 42;
        m.root_page_id = 7;
        pager.commit_meta(m).unwrap();
        file = pager.into_file();
    }

    {
        let pager = Pager::open(file).unwrap();
        assert_eq!(pager.meta().txn_id, 42);
        assert_eq!(pager.meta().root_page_id, 7);
    }
}

#[test]
fn freelist_alloc_reuses_freed_pages() {
    let mut pager = Pager::create();

    let p1 = pager.alloc_page();
    let p2 = pager.alloc_page();
    assert_eq!(p1, PageId(2));
    assert_eq!(p2, PageId(3));

    pager.free_page(p1);
    let p3 = pager.alloc_page();
    assert_eq!(p3, PageId(2)); // reused
}

#[test]
fn freelist_survives_reopen() {
    let file;
    {
        let mut pager = Pager::create();
        let p1 = pager.alloc_page(); // PageId(2)
        let _p2 = pager.alloc_page(); // PageId(3)
        // Write some data so the file is large enough
        pager.write_page(p1, &[0u8; PAGE_SIZE]).unwrap();
        pager.write_page(_p2, &[0u8; PAGE_SIZE]).unwrap();
        pager.free_page(p1);

        let mut m = pager.meta().clone();
        m.txn_id = 1;
        pager.commit_meta(m).unwrap();
        file = pager.into_file();
    }

    {
        let mut pager = Pager::open(file).unwrap();
        // The freelist should contain PageId(2)
        let reused = pager.alloc_page();
        assert_eq!(reused, PageId(2));
    }
}

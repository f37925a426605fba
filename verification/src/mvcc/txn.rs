//! Read and write transactions.

use crate::error::{BTreeError, PagerError};
use crate::freelist::chain_len;
use crate::meta::{Meta, META_MAGIC};
use crate::model::{
    content, is_range, is_tree, tree_owns, MAX_KEY_SIZE, MAX_VALUE_SIZE, PAGES_PER_INSERT,
};
use crate::mvcc::{MvccError, TreeId};
use crate::mvcc::catalog::{catalog_get, catalog_next_tree_id, catalog_set};
use crate::mvcc::crash::{logged, store_commit};
use crate::mvcc::database::{on_disk, Database};
use crate::mvcc::store::{
    lemma_catalog_step, lemma_new_tree, lemma_roots_insert, lemma_store_frame, lemma_user_step,
    roots_at, store_ok, tables, Tables,
};
use crate::page::PageId;
use crate::pager::{
    committed, file_meta, lemma_commit_survives_reopen, openable, opened, CommittedReader,
    PagerReader, PagerView,
};
use crate::tree::{
    pairs, result_view, tree_delete, tree_get, tree_insert, tree_new, tree_range, tree_step,
};
use std::collections::HashMap;
use vstd::prelude::*;

verus! {


broadcast use {crate::bytes::group_byte_lengths, vstd::std_specs::hash::group_hash_axioms};

/// The most pages that one change of a transaction takes.
pub const PAGES_PER_CHANGE: u32 = 68;

/// What a lookup in the trees of a database gives.
pub open spec fn get_outcome(t: Tables, id: TreeId, key: Seq<u8>) -> Result<
    Option<Seq<u8>>,
    MvccError,
> {
    if !t.contains_key(id.0) {
        Err(MvccError::TreeNotFound(id))
    } else if key.len() > MAX_KEY_SIZE {
        Err(MvccError::BTree(BTreeError::KeyTooLarge(key.len() as usize, MAX_KEY_SIZE)))
    } else if t[id.0].contains_key(key) {
        Ok(Some(t[id.0][key]))
    } else {
        Ok(None)
    }
}

/// The error that an insertion gives, if it gives one.
pub open spec fn insert_error(t: Tables, id: TreeId, key: Seq<u8>, value: Seq<u8>) -> Option<
    MvccError,
> {
    if !t.contains_key(id.0) {
        Some(MvccError::TreeNotFound(id))
    } else if key.len() > MAX_KEY_SIZE {
        Some(MvccError::BTree(BTreeError::KeyTooLarge(key.len() as usize, MAX_KEY_SIZE)))
    } else if value.len() > MAX_VALUE_SIZE {
        Some(MvccError::BTree(BTreeError::ValueTooLarge(value.len() as usize, MAX_VALUE_SIZE)))
    } else {
        None
    }
}

/// The error that a deletion gives, if it gives one.
pub open spec fn delete_error(t: Tables, id: TreeId, key: Seq<u8>) -> Option<MvccError> {
    if !t.contains_key(id.0) {
        Some(MvccError::TreeNotFound(id))
    } else if key.len() > MAX_KEY_SIZE {
        Some(MvccError::BTree(BTreeError::KeyTooLarge(key.len() as usize, MAX_KEY_SIZE)))
    } else {
        None
    }
}

/// The trees after an entry was set.
pub open spec fn with_entry(t: Tables, id: TreeId, key: Seq<u8>, value: Seq<u8>) -> Tables {
    t.insert(id.0, t[id.0].insert(key, value))
}

/// The trees after an entry was removed.
pub open spec fn without_entry(t: Tables, id: TreeId, key: Seq<u8>) -> Tables {
    t.insert(id.0, t[id.0].remove(key))
}

/// Whether a scan's result is the right one.
pub open spec fn range_outcome(
    t: Tables,
    id: TreeId,
    start: Seq<u8>,
    end: Seq<u8>,
    r: Result<Vec<(Vec<u8>, Vec<u8>)>, MvccError>,
) -> bool {
    match r {
        Ok(v) => t.contains_key(id.0) && is_range(pairs(v@), t[id.0], start, end),
        Err(e) => !t.contains_key(id.0) && e == MvccError::TreeNotFound(id),
    }
}

/// A read-only transaction. Sees the database as it was when the transaction
/// was created, which its shared borrow keeps.
pub struct ReadTxn<'db> {
    pub db: &'db Database,
    pub root: PageId,
}

impl Database {
    /// Begins a read-only transaction, which sees the most recent commit.
    pub fn read_txn(&self) -> (r: ReadTxn<'_>)
        requires
            self.wf(),
        ensures
            r.wf(),
            r.tables() == self.tables(),
            *r.db == *self,
    {
        ReadTxn { db: self, root: self.current_root }
    }

    /// Begins a read-write transaction. Only one can be active at a time, as
    /// it borrows the database mutably.
    pub fn write_txn(&mut self) -> (r: WriteTxn<'_>)
        requires
            old(self).wf(),
        ensures
            *final(r.db) == *final(self),
            same_base(*old(self), *r.db),
            r.db.pager@ == old(self).pager@.kept(),
            r.wf(),
            r.catalog_root == old(self).current_root,
            r.tables() == old(self).tables(),
    {
        self.pager.roll_back();
        let catalog_root = self.current_root;
        WriteTxn { db: self, catalog_root, tree_roots: HashMap::new() }
    }
}

impl<'db> ReadTxn<'db> {
    /// Whether the pages of the last commit hold a database with its catalog at the snapshot's root.
    pub closed spec fn wf(&self) -> bool {
        &&& self.db.pager.inv()
        &&& store_ok(self.db.pager@.kept(), self.root.0)
    }

    /// The contents of the trees.
    pub closed spec fn tables(&self) -> Tables {
        tables(self.db.pager@.base, self.root.0)
    }

    /// No key of a tree is longer than keys can be.
    pub proof fn lemma_keys_short(&self, id: u32, k: Seq<u8>)
        requires
            self.wf(),
            self.tables().contains_key(id),
            self.tables()[id].contains_key(k),
        ensures
            k.len() <= MAX_KEY_SIZE,
    {
        let file = self.db.pager@.base;
        let root = roots_at(file, self.root.0)[id];
        let t = crate::model::tree_of(file, root);
        crate::model::lemma_key_length(t, None, None, crate::model::height(t), k);
    }

    fn tree_root(&self, tree_id: TreeId) -> (r: Result<PageId, MvccError>)
        requires
            self.wf(),
        ensures
            ({
                let roots = roots_at(self.db.pager@.base, self.root.0);
                match r {
                    Ok(p) => roots.contains_key(tree_id.0) && p.0 == roots[tree_id.0],
                    Err(e) => !roots.contains_key(tree_id.0) && e == MvccError::TreeNotFound(
                        tree_id,
                    ),
                }
            }),
    {
        if self.root == PageId(0) {
            return Err(MvccError::TreeNotFound(tree_id));
        }
        let mut src = CommittedReader { pager: &self.db.pager };
        match catalog_get(&mut src, self.root, tree_id) {
            Ok(Some(p)) => Ok(p),
            Ok(None) => Err(MvccError::TreeNotFound(tree_id)),
            Err(e) => Err(e),
        }
    }

    /// Point lookup in a user tree.
    pub fn get(&self, tree_id: TreeId, key: &[u8]) -> (r: Result<Option<Vec<u8>>, MvccError>)
        requires
            self.wf(),
        ensures
            result_view(r) == get_outcome(self.tables(), tree_id, key@),
    {
        let tree_root = match self.tree_root(tree_id) {
            Ok(p) => p,
            Err(e) => {
                return Err(e);
            },
        };
        let mut src = CommittedReader { pager: &self.db.pager };
        match tree_get(&mut src, tree_root, key) {
            Ok(v) => Ok(v),
            Err(e) => Err(MvccError::BTree(e)),
        }
    }

    /// Inclusive range scan over a user tree.
    pub fn range(&self, tree_id: TreeId, start: &[u8], end: &[u8]) -> (r: Result<
        Vec<(Vec<u8>, Vec<u8>)>,
        MvccError,
    >)
        requires
            self.wf(),
        ensures
            range_outcome(self.tables(), tree_id, start@, end@, r),
    {
        let tree_root = match self.tree_root(tree_id) {
            Ok(p) => p,
            Err(e) => {
                return Err(e);
            },
        };
        let mut src = CommittedReader { pager: &self.db.pager };
        match tree_range(&mut src, tree_root, start, end) {
            Ok(v) => Ok(v),
            Err(e) => Err(MvccError::BTree(e)),
        }
    }
}

/// A read-write transaction. Holds the database exclusively. Its changes become
/// durable, and visible to others, with `commit`. Without it, by `abort` or
/// when the transaction is dropped, the last commit stays what the database is.
pub struct WriteTxn<'db> {
    pub db: &'db mut Database,
    /// Current catalog root, which changes when the catalog's root splits.
    pub catalog_root: PageId,
    /// Roots of the trees that this transaction has used.
    pub tree_roots: HashMap<u32, u32>,
}

/// What a change inside a transaction leaves alone in the database.
pub open spec fn same_base(a: Database, b: Database) -> bool {
    &&& b.wal == a.wal
    &&& b.current_root == a.current_root
    &&& b.current_txn_id == a.current_txn_id
    &&& b.pager@.base == a.pager@.base
    &&& b.pager@.meta_slot == a.pager@.meta_slot
    &&& a.pager@.meta.next_page_id <= b.pager@.meta.next_page_id
    &&& b.pager@.freelist.len() <= a.pager@.freelist.len()
}

/// The most bytes that a commit appends to the log: a page write for every page
/// that there can be, and the commit record.
pub const LOG_ROOM: u64 = 17648020619281;

/// Whether numbers are left for a commit: one for the transaction, those of the
/// pages that the freelist takes, and offsets in the log for its records.
pub open spec fn commit_fits(db: Database) -> bool {
    &&& db.current_txn_id < u64::MAX
    &&& db.pager@.meta.next_page_id + chain_len(db.pager@.freelist.len() as int) <= u32::MAX
    &&& db.wal@.len() + LOG_ROOM <= u64::MAX
}

/// Whether the meta pages are those of the last commit.
pub open spec fn metas_kept(v: PagerView) -> bool {
    v.file[0] == v.base[0] && v.file[1] == v.base[1]
}

/// Handing out pages leaves the last commit what it was.
proof fn lemma_commit_stays(a: PagerView, b: PagerView, root: PageId, txn_id: u64)
    requires
        store_ok(a.kept(), root.0),
        on_disk(a.kept(), root, txn_id),
        b.alloc_ok(),
        b.base == a.base,
        b.meta.magic == a.meta.magic,
        b.meta_slot == a.meta_slot,
        forall|x: u32| #[trigger] b.is_free(x) ==> a.is_free(x),
    ensures
        store_ok(b.kept(), root.0),
        on_disk(b.kept(), root, txn_id),
{
    assert forall|x: u32| #[trigger] b.kept().is_free(x) implies a.kept().is_free(x) by {
        assert(b.is_free(x));
    }
    lemma_store_frame(a.kept(), b.kept(), root.0);
}

proof fn lemma_step_meta(a: PagerView, b: PagerView, r1: u32, r2: u32, n: int)
    requires
        a.alloc_ok(),
        is_tree(a.file, r1),
        a.file.len() >= 2,
        tree_step(a, b, r1, r2, n),
    ensures
        b.file[0] == a.file[0],
        b.file[1] == a.file[1],
        b.file.len() >= a.file.len(),
        b.meta.magic == a.meta.magic,
        b.meta_slot == a.meta_slot,
{
    let t = crate::model::tree_of(a.file, r1);
    assert forall|x: u32| x < 2 implies !#[trigger] tree_owns(a.file, r1, x) && !a.is_free(x) by {
        if tree_owns(a.file, r1, x) {
            crate::model::lemma_owned_in_file(a.file, t, None, None, crate::model::height(t), x);
        }
        if a.is_free(x) {
            lemma_free_page(a, x);
        }
    }
    assert(!tree_owns(a.file, r1, 0) && !tree_owns(a.file, r1, 1));
    assert(b.file[0u32 as int] == a.file[0u32 as int]);
    assert(b.file[1u32 as int] == a.file[1u32 as int]);
}

impl<'db> WriteTxn<'db> {
    /// Whether the pages hold a database with its catalog at the transaction's
    /// root, and the roots it remembers are those of the catalog.
    pub closed spec fn wf(&self) -> bool {
        &&& self.db.wf()
        &&& store_ok(self.db.pager@, self.catalog_root.0)
        &&& metas_kept(self.db.pager@)
        &&& forall|id: u32| #[trigger]
            self.tree_roots@.contains_key(id) ==> roots_at(
                self.db.pager@.file,
                self.catalog_root.0,
            ).contains_key(id) && roots_at(self.db.pager@.file, self.catalog_root.0)[id]
                == self.tree_roots@[id]
    }

    /// The contents of the trees as this transaction sees them.
    pub closed spec fn tables(&self) -> Tables {
        tables(self.db.pager@.file, self.catalog_root.0)
    }

    /// The roots of the trees.
    pub open spec fn roots(&self) -> Map<u32, u32> {
        roots_at(self.db.pager@.file, self.catalog_root.0)
    }

    /// The number of the next new page.
    pub open spec fn next_page(&self) -> int {
        self.db.pager@.meta.next_page_id as int
    }

    /// While a transaction is open the last commit stays the database that it
    /// was, so that a transaction that is dropped leaves nothing behind.
    pub proof fn lemma_commit_beneath(&self)
        requires
            self.wf(),
        ensures
            old(self.db).wf(),
    {
    }

    /// Creates a new user tree. Returns its number, one more than the largest.
    pub fn create_tree(&mut self) -> (r: Result<TreeId, MvccError>)
        requires
            old(self).wf(),
            old(self).next_page() + PAGES_PER_CHANGE <= u32::MAX,
            !old(self).tables().contains_key(u32::MAX),
        ensures
            *final(final(self).db) == *final(old(self).db),
            final(self).wf(),
            same_base(*old(self).db, *final(self).db),
            final(self).next_page() <= old(self).next_page() + PAGES_PER_CHANGE,
            r matches Ok(id) && {
                &&& forall|i: u32| #[trigger] old(self).tables().contains_key(i) ==> i < id.0
                &&& id.0 >= 1
                &&& id.0 == 1 || old(self).tables().contains_key((id.0 - 1) as u32)
                &&& final(self).tables() == old(self).tables().insert(
                    id.0,
                    Map::<Seq<u8>, Seq<u8>>::empty(),
                )
            },
    {
        self.ensure_catalog();
        let ghost a = self.db.pager@;
        let ghost c = self.catalog_root.0;
        let ghost roots = roots_at(a.file, c);
        let ghost before = self.tables();
        let ghost base = *self.db;
        let ghost cached = self.tree_roots@;
        let new_id = match catalog_next_tree_id(&mut self.db.pager, self.catalog_root) {
            Ok(id) => id,
            Err(e) => {
                return Err(e);
            },
        };
        let root = tree_new(&mut self.db.pager);
        let ghost b = self.db.pager@;
        proof {
            assert(!roots.contains_key(new_id.0));
            lemma_new_tree(a, b, c, roots, new_id.0, root.0);
            base.pager.lemma_inv();
            lemma_free_page(a, root.0);
            assert(b.file[0u32 as int] == a.file[0u32 as int]);
            assert(b.file[1u32 as int] == a.file[1u32 as int]);
        }
        let c2 = match catalog_set(&mut self.db.pager, self.catalog_root, new_id, root) {
            Ok(c2) => c2,
            Err(e) => {
                return Err(e);
            },
        };
        self.catalog_root = c2;
        let _ = self.tree_roots.insert(new_id.0, root.0);
        proof {
            let d = self.db.pager@;
            let roots2 = roots.insert(new_id.0, root.0);
            lemma_catalog_step(b, d, c, c2.0, roots2, PAGES_PER_INSERT as int);
            lemma_roots_insert(content(b.file, c), new_id.0, root.0);
            lemma_step_meta(b, d, c, c2.0, PAGES_PER_INSERT as int);
            lemma_root_at_two(d, c2.0);
            assert(roots_at(d.file, c2.0) == roots2);
            lemma_commit_stays(a, d, self.db.current_root, self.db.current_txn_id);
        }
        Ok(new_id)
    }

    /// Point lookup in a user tree; sees what this transaction wrote.
    pub fn get(&self, tree_id: TreeId, key: &[u8]) -> (r: Result<Option<Vec<u8>>, MvccError>)
        requires
            self.wf(),
        ensures
            result_view(r) == get_outcome(self.tables(), tree_id, key@),
    {
        let tree_root = match self.resolve_tree_root(tree_id) {
            Ok(p) => p,
            Err(e) => {
                return Err(e);
            },
        };
        let mut src = PagerReader { pager: &self.db.pager };
        match tree_get(&mut src, tree_root, key) {
            Ok(v) => Ok(v),
            Err(e) => Err(MvccError::BTree(e)),
        }
    }

    /// Inserts or updates a key-value pair in a user tree.
    pub fn insert(&mut self, tree_id: TreeId, key: &[u8], value: &[u8]) -> (r: Result<
        (),
        MvccError,
    >)
        requires
            old(self).wf(),
            old(self).next_page() + PAGES_PER_CHANGE <= u32::MAX,
        ensures
            *final(final(self).db) == *final(old(self).db),
            final(self).wf(),
            same_base(*old(self).db, *final(self).db),
            final(self).next_page() <= old(self).next_page() + PAGES_PER_CHANGE,
            match insert_error(old(self).tables(), tree_id, key@, value@) {
                Some(e) => r == Err::<(), MvccError>(e) && final(self).tables() == old(
                    self,
                ).tables(),
                None => r is Ok && final(self).tables() == with_entry(
                    old(self).tables(),
                    tree_id,
                    key@,
                    value@,
                ),
            },
    {
        let tree_root = match self.resolve_tree_root(tree_id) {
            Ok(p) => p,
            Err(e) => {
                return Err(e);
            },
        };
        let ghost a = self.db.pager@;
        let ghost c = self.catalog_root.0;
        let ghost roots = roots_at(a.file, c);
        let ghost base = *self.db;
        let new_root = match tree_insert(&mut self.db.pager, tree_root, key, value) {
            Ok(r) => r,
            Err(e) => {
                return Err(MvccError::BTree(e));
            },
        };
        let ghost b = self.db.pager@;
        proof {
            base.pager.lemma_inv();
            lemma_user_step(a, b, c, roots, tree_id.0, new_root.0, PAGES_PER_INSERT as int);
            lemma_step_meta(a, b, tree_root.0, new_root.0, PAGES_PER_INSERT as int);
        }
        if new_root != tree_root {
            let c2 = match catalog_set(&mut self.db.pager, self.catalog_root, tree_id, new_root) {
                Ok(c2) => c2,
                Err(e) => {
                    return Err(e);
                },
            };
            self.catalog_root = c2;
            proof {
                let d = self.db.pager@;
                let roots2 = roots.insert(tree_id.0, new_root.0);
                lemma_catalog_step(b, d, c, c2.0, roots2, PAGES_PER_INSERT as int);
                lemma_roots_insert(content(b.file, c), tree_id.0, new_root.0);
                lemma_step_meta(b, d, c, c2.0, PAGES_PER_INSERT as int);
                lemma_root_at_two(d, c2.0);
                assert(roots_at(d.file, c2.0) == roots2);
                lemma_commit_stays(a, d, self.db.current_root, self.db.current_txn_id);
            }
        } else {
            proof {
                assert(roots.insert(tree_id.0, new_root.0) =~= roots);
                lemma_commit_stays(a, b, self.db.current_root, self.db.current_txn_id);
            }
        }
        let _ = self.tree_roots.insert(tree_id.0, new_root.0);
        Ok(())
    }

    /// Deletes a key from a user tree. Returns true if the key existed.
    pub fn delete(&mut self, tree_id: TreeId, key: &[u8]) -> (r: Result<bool, MvccError>)
        requires
            old(self).wf(),
        ensures
            *final(final(self).db) == *final(old(self).db),
            final(self).wf(),
            same_base(*old(self).db, *final(self).db),
            final(self).next_page() == old(self).next_page(),
            match delete_error(old(self).tables(), tree_id, key@) {
                Some(e) => r == Err::<bool, MvccError>(e) && final(self).tables() == old(
                    self,
                ).tables(),
                None => r == Ok::<bool, MvccError>(
                    old(self).tables()[tree_id.0].contains_key(key@),
                ) && final(self).tables() == without_entry(old(self).tables(), tree_id, key@),
            },
    {
        let tree_root = match self.resolve_tree_root(tree_id) {
            Ok(p) => p,
            Err(e) => {
                return Err(e);
            },
        };
        let ghost a = self.db.pager@;
        let ghost c = self.catalog_root.0;
        let ghost roots = roots_at(a.file, c);
        let ghost base = *self.db;
        let existed = match tree_delete(&mut self.db.pager, tree_root, key) {
            Ok(r) => r,
            Err(e) => {
                return Err(MvccError::BTree(e));
            },
        };
        proof {
            let b = self.db.pager@;
            base.pager.lemma_inv();
            lemma_user_step(a, b, c, roots, tree_id.0, tree_root.0, 0);
            lemma_step_meta(a, b, tree_root.0, tree_root.0, 0);
            assert(roots.insert(tree_id.0, tree_root.0) =~= roots);
            lemma_commit_stays(a, b, self.db.current_root, self.db.current_txn_id);
        }
        let _ = self.tree_roots.insert(tree_id.0, tree_root.0);
        Ok(existed)
    }

    /// Inclusive range scan over a user tree.
    pub fn range(&self, tree_id: TreeId, start: &[u8], end: &[u8]) -> (r: Result<
        Vec<(Vec<u8>, Vec<u8>)>,
        MvccError,
    >)
        requires
            self.wf(),
        ensures
            range_outcome(self.tables(), tree_id, start@, end@, r),
    {
        let tree_root = match self.resolve_tree_root(tree_id) {
            Ok(p) => p,
            Err(e) => {
                return Err(e);
            },
        };
        let mut src = PagerReader { pager: &self.db.pager };
        match tree_range(&mut src, tree_root, start, end) {
            Ok(v) => Ok(v),
            Err(e) => Err(MvccError::BTree(e)),
        }
    }

    /// Whether numbers are left for a commit.
    pub fn can_commit(&self) -> (r: bool)
        ensures
            r == commit_fits(*old(self.db)),
    {
        let next: u128 = self.db.pager.meta().next_page_id as u128;
        let chain: u128 = self.db.pager.chain_pages() as u128;
        self.db.current_txn_id < u64::MAX && next + chain <= u32::MAX as u128
            && self.db.wal.offset() <= u64::MAX - LOG_ROOM
    }

    /// Commits all changes made in this transaction: appends a page write for
    /// every page that changed, and a commit record, to the log, and commits a
    /// meta with the new catalog root, transaction number and log offset.
    pub fn commit(self) -> (r: Result<(), MvccError>)
        requires
            self.wf(),
            commit_fits(*self.db),
        ensures
            r is Ok,
            final(self.db).wf(),
            final(self.db).stored(),
            final(self.db).tables() == self.tables(),
            final(self.db).current_root == self.catalog_root,
            final(self.db).current_txn_id == old(self.db).current_txn_id + 1,
            logged(*old(self.db), *final(self.db)),
            committed(
                old(self.db).pager@,
                Meta {
                    root_page_id: self.catalog_root.0,
                    txn_id: (old(self.db).current_txn_id + 1) as u64,
                    wal_offset: final(self.db).wal@.len() as u64,
                    ..old(self.db).pager@.meta
                },
                final(self.db).pager@,
            ),
            final(self.db).pager@.meta.wal_offset == final(self.db).wal@.len(),
            opened(final(self.db).pager@.file) == Ok::<PagerView, PagerError>(
                final(self.db).pager@,
            ),
    {
        let ghost a = self.db.pager@;
        let ghost c = self.catalog_root.0;
        proof {
            self.db.pager.lemma_inv();
        }
        let new_txn_id: u64 = self.db.current_txn_id + 1;
        let mut new_meta = *self.db.pager.meta();
        new_meta.root_page_id = self.catalog_root.0;
        new_meta.txn_id = new_txn_id;
        store_commit(&mut self.db.pager, &mut self.db.wal, new_meta);
        proof {
            let b = self.db.pager@;
            let m = Meta { wal_offset: self.db.wal@.len() as u64, ..new_meta };
            lemma_commit_done(a, m, b, self.db.current_root, self.db.current_txn_id);
        }
        self.db.current_root = self.catalog_root;
        self.db.current_txn_id = new_txn_id;
        Ok(())
    }

    /// Abandons this transaction. The meta is not updated, so the state of the
    /// last commit remains visible. Page numbers that the transaction took stay
    /// taken.
    pub fn abort(self)
        requires
            self.wf(),
        ensures
            final(self.db).wf(),
            final(self.db).tables() == old(self.db).tables(),
            final(self.db).pager@ == old(self.db).pager@.kept(),
            same_base(*old(self.db), *final(self.db)),
    {
        self.db.pager.roll_back();
    }

    /// Makes sure that the catalog tree exists.
    fn ensure_catalog(&mut self)
        requires
            old(self).wf(),
            old(self).next_page() < u32::MAX,
        ensures
            *final(final(self).db) == *final(old(self).db),
            final(self).wf(),
            final(self).catalog_root.0 != 0,
            final(self).tables() == old(self).tables(),
            same_base(*old(self).db, *final(self).db),
            final(self).next_page() <= old(self).next_page() + 1,
            final(self).tree_roots == old(self).tree_roots,
    {
        if self.catalog_root == PageId(0) {
            let ghost a = self.db.pager@;
            let ghost base = *self.db;
            let root = tree_new(&mut self.db.pager);
            self.catalog_root = root;
            proof {
                let b = self.db.pager@;
                base.pager.lemma_inv();
                lemma_free_page(a, root.0);
                assert(b.file[0u32 as int] == a.file[0u32 as int]);
                assert(b.file[1u32 as int] == a.file[1u32 as int]);
                lemma_commit_stays(a, b, self.db.current_root, self.db.current_txn_id);
                assert(roots_at(b.file, root.0) =~= Map::<u32, u32>::empty());
                assert(tables(b.file, root.0) =~= tables(a.file, 0));
            }
        }
    }

    /// The root page of a tree: the remembered one, else the catalog's.
    fn resolve_tree_root(&self, tree_id: TreeId) -> (r: Result<PageId, MvccError>)
        requires
            self.wf(),
        ensures
            ({
                let roots = self.roots();
                match r {
                    Ok(p) => roots.contains_key(tree_id.0) && p.0 == roots[tree_id.0],
                    Err(e) => !roots.contains_key(tree_id.0) && e == MvccError::TreeNotFound(
                        tree_id,
                    ),
                }
            }),
    {
        if let Some(root) = self.tree_roots.get(&tree_id.0) {
            return Ok(PageId(*root));
        }
        if self.catalog_root == PageId(0) {
            return Err(MvccError::TreeNotFound(tree_id));
        }
        let mut src = PagerReader { pager: &self.db.pager };
        match catalog_get(&mut src, self.catalog_root, tree_id) {
            Ok(Some(p)) => Ok(p),
            Ok(None) => Err(MvccError::TreeNotFound(tree_id)),
            Err(e) => Err(e),
        }
    }
}

proof fn lemma_root_at_two(v: PagerView, c: u32)
    requires
        is_tree(v.file, c),
    ensures
        c >= 2,
{
    let t = crate::model::tree_of(v.file, c);
    assert(crate::model::owns(t, crate::model::root_id(t)));
    crate::model::lemma_owned_in_file(v.file, t, None, None, crate::model::height(t), c);
}

/// A page that can be handed out is no meta page.
proof fn lemma_free_page(v: PagerView, x: u32)
    requires
        v.alloc_ok(),
        v.is_free(x),
    ensures
        x >= 2,
{
    if v.freelist.contains(PageId(x)) {
        let i = v.freelist.index_of(PageId(x));
        assert(v.freelist[i].0 >= 2);
    }
}

/// A commit keeps the trees: it writes a meta page and new pages only.
proof fn lemma_commit_store(a: PagerView, m: Meta, b: PagerView, c: u32)
    requires
        store_ok(a, c),
        a.file.len() >= 2,
        a.meta_slot <= 1,
        committed(a, m, b),
        m.next_page_id == a.meta.next_page_id,
        m.next_page_id + chain_len(a.freelist.len() as int) <= u32::MAX,
    ensures
        store_ok(b, c),
        tables(b.file, c) == tables(a.file, c),
{
    assert(chain_len(a.freelist.len() as int) >= 0);
    assert(b.alloc_ok());
    lemma_store_frame(a, b, c);
}

/// After a commit the active meta is the one that was committed.
proof fn lemma_commit_meta(a: PagerView, m: Meta, b: PagerView)
    requires
        a.file.len() >= 2,
        a.meta_slot <= 1,
        committed(a, m, b),
        m.magic@ == META_MAGIC@,
        m.next_page_id >= 2,
        m.next_page_id + chain_len(a.freelist.len() as int) <= u32::MAX,
        file_meta(a.file) matches Some((old_meta, slot)) && slot == a.meta_slot && old_meta.txn_id
            < m.txn_id,
    ensures
        on_disk(b, PageId(m.root_page_id), m.txn_id),
{
    let slot = b.meta_slot;
    let page = b.file[slot as int];
    crate::meta::lemma_meta_page_round_trip(page, b.meta);
    assert(b.file[a.meta_slot as int] == a.file[a.meta_slot as int]);
}

/// What a database is after a commit.
proof fn lemma_commit_done(a: PagerView, m: Meta, b: PagerView, root: PageId, txn_id: u64)
    requires
        2 <= a.base.len() <= a.file.len(),
        a.meta_slot <= 1,
        store_ok(a, m.root_page_id),
        on_disk(a.kept(), root, txn_id),
        metas_kept(a),
        committed(a, m, b),
        m.next_page_id == a.meta.next_page_id,
        m.magic == a.meta.magic,
        txn_id < m.txn_id,
        m.next_page_id + chain_len(a.freelist.len() as int) <= u32::MAX,
    ensures
        store_ok(b, m.root_page_id),
        b.kept() == b,
        tables(b.file, m.root_page_id) == tables(a.file, m.root_page_id),
        on_disk(b, PageId(m.root_page_id), m.txn_id),
        openable(b.file),
        opened(b.file) == Ok::<PagerView, PagerError>(b),
        b.meta_slot == 1 - a.meta_slot,
        b.file.len() >= a.base.len(),
        b.file[a.meta_slot as int] == a.base[a.meta_slot as int],
        b.meta.root_page_id == m.root_page_id,
        b.meta.txn_id == m.txn_id,
        b.meta.wal_offset == m.wal_offset,
{
    lemma_commit_store(a, m, b, m.root_page_id);
    lemma_commit_meta(a, m, b);
    lemma_commit_survives_reopen(a, m, b);
}

} // verus!

//! The database: the handle that owns the pager, the log and the committed state.

use crate::bytes::bytes_equal;
use crate::datafile::{written, DataFile};
use crate::freelist::chain_len;
use crate::meta::{pick_active_meta, Meta, META_MAGIC};
use crate::mvcc::audit::holds_store;
use crate::mvcc::MvccError;
use crate::mvcc::store::{store_ok, tables, Tables};
use crate::page::PageId;
use crate::pager::{committed, file_meta, opened, openable, Pager, PagerView};
use crate::wal::reader::has_frame;
use crate::wal::record::Rec;
use crate::wal::recovery::{
    actions_view, committed_writes, records_from, recover, RecoveryAction,
};
use crate::wal::writer::WalWriter;
use vstd::prelude::*;

verus! {

broadcast use crate::bytes::group_byte_lengths;

/// The database handle. Owns the pager and the log.
///
/// `read_txn` gives read-only access and `write_txn` allows changes. Only one
/// write transaction can be active at a time, as it borrows the database mutably.
pub struct Database {
    pub pager: Pager,
    pub wal: WalWriter,
    /// Root of the catalog tree; page 0 where there is none yet.
    pub current_root: PageId,
    /// Number of the transaction that was committed last.
    pub current_txn_id: u64,
}

/// Whether the active meta page is the one that was committed last.
pub open spec fn on_disk(v: PagerView, root: PageId, txn_id: u64) -> bool {
    &&& v.meta.magic@ == META_MAGIC@
    &&& file_meta(v.file) matches Some((m, slot)) && slot == v.meta_slot && m.txn_id == txn_id
        && m.root_page_id == root.0
}

/// The pages after the given pages were written one after the other.
pub open spec fn replayed(pages: Seq<Seq<u8>>, writes: Seq<(u32, Seq<u8>)>) -> Seq<Seq<u8>>
    decreases writes.len(),
{
    if writes.len() == 0 {
        pages
    } else {
        written(replayed(pages, writes.drop_last()), writes.last().0 as int, writes.last().1)
    }
}

/// The page writes that opening a file with this log replays.
pub open spec fn to_replay(meta: Meta, log: Seq<u8>) -> Seq<(u32, Seq<u8>)> {
    committed_writes(records_from(log, meta.wal_offset as int))
}

/// The bytes of a log, none where there is no log.
pub open spec fn log_bytes(log: Option<Seq<u8>>) -> Seq<u8> {
    match log {
        Some(l) => l,
        None => Seq::empty(),
    }
}

/// The page writes that opening a data file with a log replays: those that were
/// committed to the log since the file's last commit.
pub open spec fn missed_writes(pages: Seq<Seq<u8>>, log: Option<Seq<u8>>) -> Seq<
    (u32, Seq<u8>),
> {
    if pages.len() < 2 {
        Seq::empty()
    } else {
        match file_meta(pages) {
            Some((meta, _)) => to_replay(meta, log_bytes(log)),
            None => Seq::empty(),
        }
    }
}

/// The pages of a data file after what was committed to the log since the
/// file's last commit was replayed.
pub open spec fn recovered(pages: Seq<Seq<u8>>, log: Option<Seq<u8>>) -> Seq<Seq<u8>> {
    replayed(pages, missed_writes(pages, log))
}

/// Whether opening commits a meta: pages were replayed, and the meta that is
/// found then does not account for the whole log.
pub open spec fn catches_up(pages: Seq<Seq<u8>>, log: Option<Seq<u8>>) -> bool {
    &&& missed_writes(pages, log).len() > 0
    &&& opened(recovered(pages, log)) matches Ok(v) && v.meta.wal_offset != log_bytes(log).len()
}

/// The meta that is committed once a log was replayed.
pub open spec fn caught_up(meta: Meta, log: Seq<u8>) -> Meta {
    Meta { wal_offset: log.len() as u64, txn_id: (meta.txn_id + 1) as u64, ..meta }
}

/// Whether numbers are left for the commit that follows a replay.
pub open spec fn replay_fits(pages: Seq<Seq<u8>>, log: Option<Seq<u8>>) -> bool {
    catches_up(pages, log) ==> {
        let v = opened(recovered(pages, log))->Ok_0;
        &&& v.meta.txn_id < u64::MAX
        &&& v.meta.next_page_id >= 2
        &&& v.meta.next_page_id + chain_len(v.freelist.len() as int) <= u32::MAX
    }
}

/// What a database is after a data file and a log were opened.
pub open spec fn reopened(pages: Seq<Seq<u8>>, log: Option<Seq<u8>>, db: Database) -> bool {
    &&& db.pager.inv()
    &&& db.wal@ == log_bytes(log)
    &&& db.wal@.len() <= u64::MAX
    &&& db.current_root.0 == db.pager@.meta.root_page_id
    &&& db.current_txn_id == db.pager@.meta.txn_id
    &&& match opened(recovered(pages, log)) {
        Ok(v) => if catches_up(pages, log) {
            committed(v, caught_up(v.meta, log_bytes(log)), db.pager@)
        } else {
            db.pager@ == v
        },
        Err(_) => false,
    }
}

/// The error that opening a data file and a log gives, if it gives one.
pub open spec fn open_error(pages: Seq<Seq<u8>>, log: Option<Seq<u8>>) -> Option<MvccError> {
    match opened(recovered(pages, log)) {
        Err(e) => Some(MvccError::Pager(e)),
        Ok(_) => None,
    }
}

/// The bytes of a log that may be missing.
pub open spec fn opt_bytes(log: Option<Vec<u8>>) -> Option<Seq<u8>> {
    match log {
        Some(l) => Some(l@),
        None => None,
    }
}

impl Database {
    /// Whether the pages of the last commit hold a database with its catalog at
    /// the current root, and their active meta says so.
    pub open spec fn wf(&self) -> bool {
        &&& self.pager.inv()
        &&& store_ok(self.pager@.kept(), self.current_root.0)
        &&& on_disk(self.pager@.kept(), self.current_root, self.current_txn_id)
    }

    /// The contents of the trees at the last commit.
    pub open spec fn tables(&self) -> Tables {
        tables(self.pager@.base, self.current_root.0)
    }

    /// Whether the pages of the last commit, opened by themselves, hold the
    /// database, and the log holds nothing that they do not.
    pub open spec fn stored(&self) -> bool {
        &&& openable(self.pager@.base)
        &&& match opened(self.pager@.base) {
            Ok(v) => {
                &&& store_ok(v, self.current_root.0)
                &&& v.meta.wal_offset == self.wal@.len()
                &&& self.current_root.0 == v.meta.root_page_id
                &&& self.current_txn_id == v.meta.txn_id
            },
            Err(_) => false,
        }
    }

    /// Creates a brand-new database.
    pub fn create() -> (r: Self)
        ensures
            r.wf(),
            r.tables() == Map::<u32, Map<Seq<u8>, Seq<u8>>>::empty(),
            r.current_root.0 == 0,
            r.current_txn_id == 0,
            r.pager@.meta.next_page_id == 2,
            r.pager@.freelist == Seq::<PageId>::empty(),
            r.wal@ == Seq::<u8>::empty(),
            r.stored(),
            reopened(r.pager@.file, Some(r.wal@), r),
    {
        let pager = Pager::create();
        let wal = WalWriter::create();
        let current_root = PageId(pager.meta().root_page_id);
        let current_txn_id: u64 = pager.meta().txn_id;
        let r = Database { pager, wal, current_root, current_txn_id };
        proof {
            assert(r.tables() =~= Map::<u32, Map<Seq<u8>, Seq<u8>>>::empty());
            lemma_nothing_to_replay(r.wal@, 0);
        }
        r
    }

    /// Opens an existing database: a data file, and the log where there is one.
    /// Page writes that were committed to the log after the data file's last
    /// commit are replayed. Where there were any, and the meta that is found
    /// then does not account for the whole log, one that does is committed.
    pub fn open(file: DataFile, log: Option<Vec<u8>>) -> (r: Result<Self, MvccError>)
        requires
            file.inv(),
            openable(recovered(file@, opt_bytes(log))),
            replay_fits(file@, opt_bytes(log)),
        ensures
            match r {
                Ok(db) => open_error(file@, opt_bytes(log)) is None && reopened(
                    file@,
                    opt_bytes(log),
                    db,
                ),
                Err(e) => open_error(file@, opt_bytes(log)) == Some(e),
            },
    {
        match Self::try_open(file, log) {
            Some(r) => r,
            None => Err(MvccError::NotFound),
        }
    }

    /// Opens an existing database as `open` does. `None` where the freelist of
    /// the data file has no end, or no number is left for the commit after a
    /// replay.
    pub fn try_open(file: DataFile, log: Option<Vec<u8>>) -> (r: Option<Result<Self, MvccError>>)
        requires
            file.inv(),
        ensures
            r is None <==> !openable(recovered(file@, opt_bytes(log))) || !replay_fits(
                file@,
                opt_bytes(log),
            ),
            match r {
                Some(Ok(db)) => open_error(file@, opt_bytes(log)) is None && reopened(
                    file@,
                    opt_bytes(log),
                    db,
                ),
                Some(Err(e)) => open_error(file@, opt_bytes(log)) == Some(e),
                None => true,
            },
    {
        let bytes = match log {
            Some(bytes) => bytes,
            None => Vec::new(),
        };
        assert(bytes@ =~= log_bytes(opt_bytes(log)));
        let ghost pages = file@;
        let (file, replayed_any) = replay(file, bytes.as_slice());
        proof {
            assert(missed_writes(pages, Some(bytes@)) == missed_writes(pages, opt_bytes(log)));
            assert(recovered(pages, Some(bytes@)) == recovered(pages, opt_bytes(log)));
        }
        if !Pager::can_open(&file) {
            return None;
        }
        let mut pager = match Pager::open(file) {
            Ok(p) => p,
            Err(e) => {
                return Some(Err(MvccError::Pager(e)));
            },
        };
        let wal = WalWriter::open(bytes);
        let log_end: u64 = wal.offset();
        if replayed_any && pager.meta().wal_offset != log_end {
            let next: u128 = pager.meta().next_page_id as u128;
            let chain: u128 = pager.chain_pages() as u128;
            if pager.meta().txn_id == u64::MAX || next < 2 || next + chain > u32::MAX as u128 {
                return None;
            }
            let mut new_meta = *pager.meta();
            new_meta.wal_offset = log_end;
            new_meta.txn_id = new_meta.txn_id + 1;
            let _ = pager.commit_meta(new_meta);
        }
        let current_root = PageId(pager.meta().root_page_id);
        let current_txn_id: u64 = pager.meta().txn_id;
        Some(Ok(Database { pager, wal, current_root, current_txn_id }))
    }

    /// Whether a database that was just opened is well formed.
    pub fn is_sound(&self) -> (r: bool)
        requires
            self.pager.inv(),
            self.pager@.base == self.pager@.file,
        ensures
            r == self.wf(),
    {
        let ghost v = self.pager@;
        assert(v.kept() == v);
        let file = self.pager.file();
        let magic = META_MAGIC;
        if !bytes_equal(self.pager.meta().magic.as_slice(), magic.as_slice()) {
            return false;
        }
        proof {
            self.pager.lemma_inv();
        }
        match (file.read(PageId(0)), file.read(PageId(1))) {
            (Some(p0), Some(p1)) => match pick_active_meta(&p0, &p1) {
                Some((m, slot)) => slot == self.pager.meta_slot() && m.txn_id
                    == self.current_txn_id && m.root_page_id == self.current_root.0 && holds_store(
                    &self.pager,
                    self.current_root,
                ),
                None => false,
            },
            _ => false,
        }
    }

    /// Gives up the data file as of the last commit and the log, to be stored
    /// or opened again.
    pub fn into_files(self) -> (r: (DataFile, Vec<u8>))
        requires
            self.pager.inv(),
        ensures
            r.0.inv(),
            r.0@ == self.pager@.base,
            r.1@ == self.wal@,
    {
        let mut pager = self.pager;
        pager.roll_back();
        (pager.into_file(), self.wal.into_bytes())
    }
}

/// Replays what was committed to a log after a data file's last commit. Says
/// also whether there was anything to replay.
fn replay(file: DataFile, log: &[u8]) -> (r: (DataFile, bool))
    requires
        file.inv(),
    ensures
        r.0.inv(),
        r.0@ == recovered(file@, Some(log@)),
        r.1 == (missed_writes(file@, Some(log@)).len() > 0),
{
    let mut file = file;
    let ghost pages = file@;
    let (p0, p1) = match (file.read(PageId(0)), file.read(PageId(1))) {
        (Some(p0), Some(p1)) => (p0, p1),
        _ => {
            return (file, false);
        },
    };
    let meta = match pick_active_meta(&p0, &p1) {
        Some((meta, _)) => meta,
        None => {
            return (file, false);
        },
    };
    let actions = match recover(log, meta.wal_offset) {
        Ok(a) => a,
        Err(_) => Vec::new(),
    };
    let ghost writes = actions_view(actions@);
    let mut i: usize = 0;
    assert(writes.take(0) =~= Seq::empty());
    while i < actions.len()
        invariant
            file.inv(),
            writes == actions_view(actions@),
            i <= actions@.len(),
            file@ == replayed(pages, writes.take(i as int)),
        decreases actions@.len() - i,
    {
        match &actions[i] {
            RecoveryAction::ReplayPage { page_id, data } => {
                proof {
                    assert(writes[i as int] == (*page_id, (**data)@));
                    assert(writes.take(i + 1).drop_last() =~= writes.take(i as int));
                }
                file.write(PageId(*page_id), &**data);
            },
        }
        i = i + 1;
    }
    assert(writes.take(writes.len() as int) =~= writes);
    (file, actions.len() > 0)
}

/// A log ends at its own length: there is nothing to replay from there on.
pub proof fn lemma_nothing_to_replay(log: Seq<u8>, off: int)
    requires
        off >= log.len(),
    ensures
        records_from(log, off) == Seq::<Rec>::empty(),
        committed_writes(records_from(log, off)) == Seq::<(u32, Seq<u8>)>::empty(),
{
    assert(!has_frame(log, off));
}

/// A restart, also one in the middle of a transaction, loses nothing that was
/// committed and brings in nothing that was not: the pages of the last commit
/// are, opened again with the log, the database of that commit, whatever the
/// transaction had written.
pub proof fn lemma_restart(db: Database, db2: Database)
    requires
        db.wf(),
        db.stored(),
        reopened(db.pager@.base, Some(db.wal@), db2),
    ensures
        open_error(db.pager@.base, Some(db.wal@)) is None,
        db2.wf(),
        db2.stored(),
        db2.tables() == db.tables(),
        db2.wal@ == db.wal@,
        db2.current_root == db.current_root,
        db2.current_txn_id == db.current_txn_id,
{
    lemma_nothing_to_replay(db.wal@, db.wal@.len() as int);
}

} // verus!

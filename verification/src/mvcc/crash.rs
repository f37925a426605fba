//! What a commit writes to the log, and what a crash leaves behind.

use crate::datafile::{changed_numbers, differs, written, DataFile};
use crate::error::PagerError;
use crate::freelist::chain_len;
use crate::meta::{pick_active_meta, Meta};
use crate::mvcc::database::{
    catches_up, caught_up, lemma_nothing_to_replay, lemma_restart, log_bytes, open_error,
    recovered, reopened, replay_fits, replayed, to_replay, Database,
};
use crate::mvcc::txn::LOG_ROOM;
use crate::page::{PageId, PAGE_SIZE};
use crate::pager::{
    committed, file_meta, lemma_commit_parts, lemma_commit_survives_reopen, openable, opened,
    Pager, PagerView,
};
use crate::wal::record::{frame_of, lemma_frame_len, whole, Rec, COMMIT_FRAME, PAGE_FRAME};
use crate::wal::recovery::{
    committed_writes, lemma_cut_log, lemma_log_reads_back, lemma_page_log_len,
    lemma_uncommitted_writes, log_of, page_writes, records_from, recover,
};
use crate::wal::writer::WalWriter;
use vstd::prelude::*;

verus! {

broadcast use crate::bytes::group_byte_lengths;

/// A page write for each page that is not what it is in `base`, in ascending
/// order, the two meta pages apart.
pub open spec fn page_records(base: Seq<Seq<u8>>, file: Seq<Seq<u8>>) -> Seq<Rec> {
    let ids = changed_numbers(base, file, file.len() as int);
    Seq::new(
        ids.len(),
        |i: int| Rec::PageWrite { page_id: ids[i], data: file[ids[i] as int] },
    )
}

/// The page writes of a commit: those of the pages that it changed, and at the
/// end that of its meta page.
pub open spec fn commit_pages(base: Seq<Seq<u8>>, v: PagerView) -> Seq<Rec> {
    page_records(base, v.file).push(
        Rec::PageWrite { page_id: v.meta_slot as u32, data: v.file[v.meta_slot as int] },
    )
}

/// The records of a commit: its page writes and its commit record.
pub open spec fn commit_records(base: Seq<Seq<u8>>, v: PagerView, txn_id: u64) -> Seq<Rec> {
    commit_pages(base, v).push(Rec::Commit { txn_id })
}

/// How a commit leads from one database to the next: its records go to the end
/// of the log, and its meta page goes beside that of the commit before.
pub open spec fn logged(a: Database, b: Database) -> bool {
    let slot = a.pager@.meta_slot;
    &&& b.wal@ == a.wal@ + log_of(commit_records(a.pager@.base, b.pager@, b.current_txn_id))
    &&& b.pager@.base == b.pager@.file
    &&& b.pager@.meta_slot == 1 - slot
    &&& b.pager@.file.len() >= a.pager@.base.len()
    &&& b.pager@.file[slot as int] == a.pager@.base[slot as int]
}

/// The changed pages are all there, in order.
proof fn lemma_changed_numbers(base: Seq<Seq<u8>>, file: Seq<Seq<u8>>, n: int)
    requires
        n <= 4294967296,
    ensures
        forall|i: int|
            0 <= i < changed_numbers(base, file, n).len() ==> 2 <= #[trigger] changed_numbers(
                base,
                file,
                n,
            )[i] < n && differs(base, file, changed_numbers(base, file, n)[i] as int),
        forall|x: int|
            2 <= x < n && #[trigger] differs(base, file, x) ==> changed_numbers(
                base,
                file,
                n,
            ).contains(x as u32),
        n >= 2 ==> changed_numbers(base, file, n).len() <= n - 2,
    decreases n,
{
    if n > 2 {
        lemma_changed_numbers(base, file, n - 1);
        let front = changed_numbers(base, file, n - 1);
        let all = changed_numbers(base, file, n);
        assert forall|x: int| 2 <= x < n && #[trigger] differs(base, file, x) implies all.contains(
            x as u32,
        ) by {
            if x < n - 1 {
                assert(front.contains(x as u32));
                let i = front.index_of(x as u32);
                assert(all[i] == x as u32);
            } else {
                assert(all[all.len() - 1] == x as u32);
            }
        }
    }
}

/// The two meta pages have no part in which pages changed.
proof fn lemma_same_changes(
    base: Seq<Seq<u8>>,
    file: Seq<Seq<u8>>,
    other: Seq<Seq<u8>>,
    n: int,
)
    requires
        n <= file.len(),
        other.len() == file.len(),
        forall|x: int| 2 <= x < file.len() ==> #[trigger] other[x] == file[x],
    ensures
        changed_numbers(base, other, n) == changed_numbers(base, file, n),
    decreases n,
{
    if n > 2 {
        lemma_same_changes(base, file, other, n - 1);
        assert(other[n - 1] == file[n - 1]);
    }
}

/// Every page write of a commit writes a whole page of its file.
proof fn lemma_commit_pages(base: Seq<Seq<u8>>, v: PagerView)
    requires
        2 <= v.file.len() <= 4294967296,
        v.meta_slot <= 1,
        forall|i: int| 0 <= i < v.file.len() ==> (#[trigger] v.file[i]).len() == PAGE_SIZE,
    ensures
        forall|j: int|
            0 <= j < commit_pages(base, v).len() ==> #[trigger] commit_pages(
                base,
                v,
            )[j] is PageWrite && whole(commit_pages(base, v)[j]),
{
    lemma_changed_numbers(base, v.file, v.file.len() as int);
    let ids = changed_numbers(base, v.file, v.file.len() as int);
    let recs = commit_pages(base, v);
    assert forall|j: int| 0 <= j < recs.len() implies #[trigger] recs[j] is PageWrite && whole(
        recs[j],
    ) by {
        if j < ids.len() {
            assert(v.file[ids[j] as int].len() == PAGE_SIZE);
        } else {
            assert(v.file[v.meta_slot as int].len() == PAGE_SIZE);
        }
    }
}

/// The number of bytes that a commit appends to the log.
proof fn lemma_commit_log_len(base: Seq<Seq<u8>>, v: PagerView, txn_id: u64)
    requires
        2 <= v.file.len() <= 4294967296,
        v.meta_slot <= 1,
        forall|i: int| 0 <= i < v.file.len() ==> (#[trigger] v.file[i]).len() == PAGE_SIZE,
    ensures
        log_of(commit_records(base, v, txn_id)).len() == PAGE_FRAME * (changed_numbers(
            base,
            v.file,
            v.file.len() as int,
        ).len() + 1) + COMMIT_FRAME,
{
    lemma_commit_pages(base, v);
    lemma_page_log_len(commit_pages(base, v));
    lemma_frame_len(Rec::Commit { txn_id });
    assert(commit_records(base, v, txn_id).drop_last() =~= commit_pages(base, v));
}

/// Commits a meta: stores the freelist and the meta, appends the records of the
/// commit to the log, and makes the pages those of the last commit. The meta
/// gets the offset at which the log then ends.
pub fn store_commit(pager: &mut Pager, wal: &mut WalWriter, new_meta: Meta)
    requires
        old(pager).inv(),
        new_meta.next_page_id >= 2,
        new_meta.next_page_id + chain_len(old(pager)@.freelist.len() as int) <= u32::MAX,
        old(wal)@.len() + LOG_ROOM <= u64::MAX,
    ensures
        final(pager).inv(),
        final(wal)@.len() <= u64::MAX,
        committed(
            old(pager)@,
            Meta { wal_offset: final(wal)@.len() as u64, ..new_meta },
            final(pager)@,
        ),
        final(wal)@ == old(wal)@ + log_of(
            commit_records(old(pager)@.base, final(pager)@, new_meta.txn_id),
        ),
{
    let ghost a = pager@;
    proof {
        pager.lemma_inv();
    }
    let mut meta = pager.store_freelist(new_meta);
    let ghost mid = pager@;
    let changed = pager.changed_pages();
    proof {
        pager.lemma_inv();
        lemma_changed_numbers(mid.base, mid.file, mid.file.len() as int);
    }
    meta.wal_offset = wal.offset() + PAGE_FRAME * (changed.len() as u64 + 1) + COMMIT_FRAME;
    let ghost m = Meta { wal_offset: meta.wal_offset, ..new_meta };
    pager.store_meta(meta);
    let ghost done = pager@;
    proof {
        pager.lemma_inv();
        lemma_same_changes(mid.base, mid.file, done.file, mid.file.len() as int);
        lemma_commit_log_len(done.base, done, new_meta.txn_id);
    }
    log_commit(wal, pager, &changed, new_meta.txn_id);
    pager.keep();
    proof {
        lemma_commit_parts(a, m, mid, pager@);
        assert(commit_records(a.base, pager@, new_meta.txn_id) == commit_records(
            a.base,
            done,
            new_meta.txn_id,
        ));
    }
}

/// Appends the records of a commit to the log.
fn log_commit(wal: &mut WalWriter, pager: &Pager, changed: &Vec<u32>, txn_id: u64)
    requires
        pager.inv(),
        changed@ == changed_numbers(pager@.base, pager@.file, pager@.file.len() as int),
    ensures
        final(wal)@ == old(wal)@ + log_of(commit_records(pager@.base, pager@, txn_id)),
{
    let ghost log = wal@;
    let ghost v = pager@;
    let ghost recs = page_records(v.base, v.file);
    proof {
        pager.lemma_inv();
        lemma_changed_numbers(v.base, v.file, v.file.len() as int);
        assert(recs.take(0) =~= Seq::empty());
        assert(log + log_of(recs.take(0)) =~= log);
    }
    let mut i: usize = 0;
    while i < changed.len()
        invariant
            pager.inv(),
            v == pager@,
            recs == page_records(v.base, v.file),
            changed@ == changed_numbers(v.base, v.file, v.file.len() as int),
            forall|k: int| 0 <= k < changed@.len() ==> 2 <= #[trigger] changed@[k] < v.file.len(),
            i <= changed@.len(),
            wal@ == log + log_of(recs.take(i as int)),
        decreases changed@.len() - i,
    {
        append_page(wal, pager, changed[i]);
        proof {
            assert(recs.take(i + 1).drop_last() =~= recs.take(i as int));
            assert(recs.take(i + 1).last() == recs[i as int]);
            assert(wal@ =~= log + log_of(recs.take(i + 1)));
        }
        i = i + 1;
    }
    let ghost pages = commit_pages(v.base, v);
    let ghost all = commit_records(v.base, v, txn_id);
    proof {
        assert(recs.take(recs.len() as int) =~= recs);
        assert(pages.drop_last() =~= recs);
        assert(all.drop_last() =~= pages);
    }
    append_page(wal, pager, pager.meta_slot() as u32);
    assert(wal@ =~= log + log_of(pages));
    let _ = wal.append_commit(txn_id);
    assert(wal@ =~= log + log_of(all));
}

/// Appends a page write with what a page holds.
fn append_page(wal: &mut WalWriter, pager: &Pager, id: u32)
    requires
        pager.inv(),
        id < pager@.file.len(),
    ensures
        final(wal)@ == old(wal)@ + frame_of(
            Rec::PageWrite { page_id: id, data: pager@.file[id as int] },
        ),
{
    if let Some(page) = pager.file().read(PageId(id)) {
        let _ = wal.append_page_write(id, &page);
    }
}

/// The page writes among records that all are page writes.
proof fn lemma_page_writes(recs: Seq<Rec>)
    requires
        forall|j: int| 0 <= j < recs.len() ==> #[trigger] recs[j] is PageWrite,
    ensures
        page_writes(recs).len() == recs.len(),
        forall|j: int|
            0 <= j < recs.len() ==> recs[j] == (Rec::PageWrite {
                page_id: (#[trigger] page_writes(recs)[j]).0,
                data: page_writes(recs)[j].1,
            }),
    decreases recs.len(),
{
    if recs.len() > 0 {
        let front = recs.drop_last();
        assert forall|j: int| 0 <= j < front.len() implies #[trigger] front[j] is PageWrite by {
            assert(front[j] == recs[j]);
        }
        lemma_page_writes(front);
        assert(recs.last() == recs[recs.len() - 1]);
        assert forall|j: int| 0 <= j < recs.len() implies recs[j] == (Rec::PageWrite {
            page_id: (#[trigger] page_writes(recs)[j]).0,
            data: page_writes(recs)[j].1,
        }) by {
            if j < front.len() {
                assert(page_writes(recs)[j] == page_writes(front)[j]);
                assert(front[j] == recs[j]);
            }
        }
    }
}

/// Writing pages as they are in `target` keeps what is as in `target` already.
proof fn lemma_replay_towards(
    pages: Seq<Seq<u8>>,
    writes: Seq<(u32, Seq<u8>)>,
    target: Seq<Seq<u8>>,
)
    requires
        pages.len() <= target.len(),
        forall|j: int|
            0 <= j < writes.len() ==> (#[trigger] writes[j]).0 < target.len() && writes[j].1
                == target[writes[j].0 as int],
    ensures
        pages.len() <= replayed(pages, writes).len() <= target.len(),
        forall|j: int|
            0 <= j < writes.len() ==> (#[trigger] writes[j]).0 < replayed(pages, writes).len()
                && replayed(pages, writes)[writes[j].0 as int] == target[writes[j].0 as int],
        forall|x: int|
            0 <= x < pages.len() && pages[x] == target[x] ==> #[trigger] replayed(pages, writes)[x]
                == target[x],
    decreases writes.len(),
{
    if writes.len() > 0 {
        let front = writes.drop_last();
        assert forall|j: int| 0 <= j < front.len() implies (#[trigger] front[j]).0 < target.len()
            && front[j].1 == target[front[j].0 as int] by {
            assert(front[j] == writes[j]);
        }
        lemma_replay_towards(pages, front, target);
        let r = replayed(pages, front);
        let id = writes.last().0 as int;
        assert(writes.last() == writes[writes.len() - 1]);
        let w = written(r, id, writes.last().1);
        assert forall|j: int| 0 <= j < writes.len() implies (#[trigger] writes[j]).0 < w.len()
            && w[writes[j].0 as int] == target[writes[j].0 as int] by {
            if j < front.len() {
                assert(front[j] == writes[j]);
            }
        }
        assert forall|x: int|
            0 <= x < pages.len() && pages[x] == target[x] implies #[trigger] w[x] == target[x] by {
            assert(r[x] == target[x]);
        }
    }
}

/// What the log of a commit gives from where it starts.
proof fn lemma_commit_reads_back(a: Database, b: Database)
    requires
        b.pager.inv(),
        logged(a, b),
    ensures
        records_from(b.wal@, a.wal@.len() as int) == commit_records(
            a.pager@.base,
            b.pager@,
            b.current_txn_id,
        ),
        committed_writes(records_from(b.wal@, a.wal@.len() as int)) == page_writes(
            commit_pages(a.pager@.base, b.pager@),
        ),
{
    let v = b.pager@;
    let base = a.pager@.base;
    let pages = commit_pages(base, v);
    let recs = commit_records(base, v, b.current_txn_id);
    b.pager.lemma_inv();
    lemma_commit_pages(base, v);
    assert forall|j: int| 0 <= j < recs.len() implies whole(#[trigger] recs[j]) by {
        if j < pages.len() {
            assert(recs[j] == pages[j]);
        }
    }
    let none = Seq::<u8>::empty();
    assert(a.wal@ + log_of(recs) + none =~= b.wal@);
    lemma_log_reads_back(a.wal@, recs, none, 0);
    assert(recs.take(0) =~= Seq::empty());
    assert(a.wal@ + log_of(recs.take(0)) =~= a.wal@);
    assert(recs.skip(0) =~= recs);
    assert(recs.drop_last() =~= pages);
}

/// A commit puts every page that it changed into the log, as it is at the
/// commit, and the log ends with the commit record: recovery from where the log
/// ended before gives back all of them.
pub proof fn lemma_commit_is_logged(a: Database, b: Database, x: int)
    requires
        b.pager.inv(),
        logged(a, b),
        2 <= x < b.pager@.file.len(),
        differs(a.pager@.base, b.pager@.file, x),
    ensures
        committed_writes(records_from(b.wal@, a.wal@.len() as int)).contains(
            (x as u32, b.pager@.file[x]),
        ),
        records_from(b.wal@, a.wal@.len() as int).last() == (Rec::Commit {
            txn_id: b.current_txn_id,
        }),
{
    let v = b.pager@;
    let base = a.pager@.base;
    let pages = commit_pages(base, v);
    let ids = changed_numbers(base, v.file, v.file.len() as int);
    b.pager.lemma_inv();
    lemma_commit_pages(base, v);
    lemma_commit_reads_back(a, b);
    lemma_page_writes(pages);
    lemma_changed_numbers(base, v.file, v.file.len() as int);
    let i = ids.index_of(x as u32);
    assert(pages[i] == (Rec::PageWrite { page_id: ids[i], data: v.file[ids[i] as int] }));
    assert(page_writes(pages)[i] == (x as u32, v.file[x]));
}

/// Whether a data file is what a crash leaves while the pages of the commit
/// from `a` to `b` are being stored: the pages that the commit did not change
/// are there, the meta page of the commit before is the active one, and any
/// other page may hold anything.
pub open spec fn half_stored(a: Database, b: Database, pages: Seq<Seq<u8>>) -> bool {
    let base = a.pager@.base;
    let file = b.pager@.file;
    let slot = a.pager@.meta_slot as int;
    &&& base.len() <= pages.len() <= file.len()
    &&& file_meta(pages) == file_meta(base)
    &&& pages[slot] == base[slot]
    &&& forall|x: int| 2 <= x < base.len() && file[x] == base[x] ==> #[trigger] pages[x] == base[x]
}

/// What a data file holds after some pages of a newer one were stored in it.
pub open spec fn partly_stored(
    base: Seq<Seq<u8>>,
    file: Seq<Seq<u8>>,
    ids: Seq<u32>,
) -> Seq<Seq<u8>> {
    replayed(base, Seq::new(ids.len(), |i: int| (ids[i], file[ids[i] as int])))
}

proof fn lemma_replay_spares(pages: Seq<Seq<u8>>, writes: Seq<(u32, Seq<u8>)>, x: int)
    requires
        0 <= x < pages.len(),
        forall|j: int| 0 <= j < writes.len() ==> (#[trigger] writes[j]).0 != x,
    ensures
        x < replayed(pages, writes).len(),
        replayed(pages, writes)[x] == pages[x],
    decreases writes.len(),
{
    if writes.len() > 0 {
        let front = writes.drop_last();
        assert forall|j: int| 0 <= j < front.len() implies (#[trigger] front[j]).0 != x by {
            assert(front[j] == writes[j]);
        }
        lemma_replay_spares(pages, front, x);
        assert(writes.last() == writes[writes.len() - 1]);
    }
}

/// As long as a meta page of a commit is not stored, whichever of its other
/// pages are, a crash leaves what recovery completes.
pub proof fn lemma_meta_pages_last(a: Database, b: Database, ids: Seq<u32>)
    requires
        a.pager.inv(),
        b.pager.inv(),
        logged(a, b),
        forall|i: int| 0 <= i < ids.len() ==> 2 <= #[trigger] ids[i] < b.pager@.file.len(),
    ensures
        half_stored(a, b, partly_stored(a.pager@.base, b.pager@.file, ids)),
{
    let base = a.pager@.base;
    let file = b.pager@.file;
    let writes = Seq::new(ids.len(), |i: int| (ids[i], file[ids[i] as int]));
    let pages = replayed(base, writes);
    a.pager.lemma_inv();
    lemma_replay_towards(base, writes, file);
    assert forall|j: int| 0 <= j < writes.len() implies (#[trigger] writes[j]).0 >= 2 by {
        assert(ids[j] >= 2);
    }
    lemma_replay_spares(base, writes, 0);
    lemma_replay_spares(base, writes, 1);
}

/// Replaying the log completes what a crash left half stored.
proof fn lemma_recovered(a: Database, b: Database, pages: Seq<Seq<u8>>)
    requires
        a.wf(),
        a.stored(),
        b.pager.inv(),
        logged(a, b),
        half_stored(a, b, pages),
    ensures
        recovered(pages, Some(b.wal@)) == b.pager@.file,
{
    let base = a.pager@.base;
    let v = b.pager@;
    let file = v.file;
    let recs = commit_pages(base, v);
    let writes = page_writes(recs);
    let ids = changed_numbers(base, file, file.len() as int);
    a.pager.lemma_inv();
    b.pager.lemma_inv();
    lemma_commit_pages(base, v);
    lemma_changed_numbers(base, file, file.len() as int);
    lemma_commit_reads_back(a, b);
    lemma_page_writes(recs);
    assert forall|j: int| 0 <= j < writes.len() implies (#[trigger] writes[j]).0 < file.len()
        && writes[j].1 == file[writes[j].0 as int] by {
        if j < ids.len() {
            assert(recs[j] == (Rec::PageWrite { page_id: ids[j], data: file[ids[j] as int] }));
        } else {
            assert(recs[j] == (Rec::PageWrite {
                page_id: v.meta_slot as u32,
                data: file[v.meta_slot as int],
            }));
        }
    }
    lemma_replay_towards(pages, writes, file);
    let r = replayed(pages, writes);
    assert(writes[ids.len() as int].0 == v.meta_slot) by {
        assert(recs[ids.len() as int] == (Rec::PageWrite {
            page_id: v.meta_slot as u32,
            data: file[v.meta_slot as int],
        }));
    }
    assert forall|x: int| 0 <= x < file.len() implies x < r.len() && #[trigger] r[x]
        == file[x] by {
        if x >= 2 && differs(base, file, x) {
            let i = ids.index_of(x as u32);
            assert(recs[i] == (Rec::PageWrite { page_id: ids[i], data: file[ids[i] as int] }));
            assert(writes[i].0 == x);
        } else if x == v.meta_slot {
            assert(writes[ids.len() as int].0 == x);
        } else {
            assert(pages[x] == file[x]);
        }
    }
    if file.len() > 0 {
        assert(r[file.len() - 1] == file[file.len() - 1]);
    }
    assert(r =~= file);
}

/// A crash in the middle of storing the pages of a commit loses nothing of it:
/// once the log is stored, opening what the crash left gives the new commit.
pub proof fn lemma_crash_while_storing(
    a: Database,
    b: Database,
    pages: Seq<Seq<u8>>,
    db: Database,
)
    requires
        a.wf(),
        a.stored(),
        b.wf(),
        b.stored(),
        logged(a, b),
        half_stored(a, b, pages),
        reopened(pages, Some(b.wal@), db),
    ensures
        openable(recovered(pages, Some(b.wal@))),
        replay_fits(pages, Some(b.wal@)),
        open_error(pages, Some(b.wal@)) is None,
        db.wf(),
        db.stored(),
        db.tables() == b.tables(),
        db.wal@ == b.wal@,
        db.current_root == b.current_root,
        db.current_txn_id == b.current_txn_id,
{
    lemma_recovered(a, b, pages);
    lemma_nothing_to_replay(b.wal@, b.wal@.len() as int);
    assert(recovered(b.pager@.base, Some(b.wal@)) == b.pager@.base);
    lemma_restart(b, db);
}

/// Whether a data file and a log fit together so that what is appended to the
/// log can be recovered: the file's last commit accounts for the whole log, or
/// opening them commits a meta that does.
pub open spec fn accounted(pages: Seq<Seq<u8>>, log: Option<Seq<u8>>) -> bool {
    opened(recovered(pages, log)) matches Ok(v) ==> v.meta.wal_offset == log_bytes(log).len()
        || catches_up(pages, log)
}

/// How much of a log is worth keeping: where nothing in it is to be replayed,
/// what the data file's last commit accounts for, and else all of it.
pub open spec fn kept_log(pages: Seq<Seq<u8>>, log: Seq<u8>) -> Seq<u8> {
    if pages.len() < 2 {
        log
    } else {
        match file_meta(pages) {
            Some((meta, _)) => if to_replay(meta, log).len() == 0 && meta.wal_offset
                <= log.len() {
                log.take(meta.wal_offset as int)
            } else {
                log
            },
            None => log,
        }
    }
}

/// Cuts off the end of a log that a crash left behind, so that what is appended
/// to it can be recovered.
pub fn keep_log(file: &DataFile, log: Vec<u8>) -> (r: Vec<u8>)
    requires
        file.inv(),
    ensures
        r@ == kept_log(file@, log@),
{
    let mut log = log;
    let (p0, p1) = match (file.read(PageId(0)), file.read(PageId(1))) {
        (Some(p0), Some(p1)) => (p0, p1),
        _ => {
            return log;
        },
    };
    let meta = match pick_active_meta(&p0, &p1) {
        Some((meta, _)) => meta,
        None => {
            return log;
        },
    };
    let none = match recover(log.as_slice(), meta.wal_offset) {
        Ok(actions) => actions.len() == 0,
        Err(_) => false,
    };
    if none && meta.wal_offset <= log.len() as u64 {
        log.truncate(meta.wal_offset as usize);
    }
    log
}

/// Cutting off the end of a log leaves what is recovered from it as it was, and
/// the data file and the log then fit together, unless the log was too short
/// before.
pub proof fn lemma_kept_log(pages: Seq<Seq<u8>>, log: Seq<u8>)
    ensures
        recovered(pages, Some(kept_log(pages, log))) == recovered(pages, Some(log)),
        opened(pages) matches Ok(v) && v.meta.wal_offset <= log.len() ==> accounted(
            pages,
            Some(kept_log(pages, log)),
        ),
{
    if pages.len() >= 2 {
        match file_meta(pages) {
            Some((meta, _)) => {
                if to_replay(meta, log).len() == 0 && meta.wal_offset <= log.len() {
                    lemma_nothing_to_replay(kept_log(pages, log), meta.wal_offset as int);
                }
            },
            None => {},
        }
    }
}

/// A crash in the middle of storing the log of a commit undoes all of it: with
/// a log that was cut anywhere in the commit's records, opening gives the
/// commit before, and what is kept of the log is the log of that commit.
pub proof fn lemma_crash_while_logging(a: Database, b: Database, n: int, db: Database)
    requires
        a.wf(),
        a.stored(),
        b.pager.inv(),
        logged(a, b),
        a.wal@.len() <= n < b.wal@.len(),
        reopened(a.pager@.base, Some(b.wal@.take(n)), db),
    ensures
        openable(recovered(a.pager@.base, Some(b.wal@.take(n)))),
        replay_fits(a.pager@.base, Some(b.wal@.take(n))),
        open_error(a.pager@.base, Some(b.wal@.take(n))) is None,
        db.wf(),
        db.tables() == a.tables(),
        db.current_root == a.current_root,
        db.current_txn_id == a.current_txn_id,
        kept_log(a.pager@.base, b.wal@.take(n)) == a.wal@,
{
    let base = a.pager@.base;
    let v = b.pager@;
    let pages = commit_pages(base, v);
    let recs = commit_records(base, v, b.current_txn_id);
    let log = b.wal@.take(n);
    b.pager.lemma_inv();
    a.pager.lemma_inv();
    lemma_commit_pages(base, v);
    assert forall|j: int| 0 <= j < recs.len() implies whole(#[trigger] recs[j]) by {
        if j < pages.len() {
            assert(recs[j] == pages[j]);
        }
    }
    let k = lemma_cut_log(a.wal@, recs, n - a.wal@.len());
    assert(log =~= a.wal@ + log_of(recs).take(n - a.wal@.len()));
    assert forall|j: int| 0 <= j < recs.take(k).len() implies !(#[trigger] recs.take(
        k,
    )[j] is Commit) by {
        assert(recs.take(k)[j] == pages[j]);
    }
    lemma_uncommitted_writes(recs.take(k));
    let w = opened(base)->Ok_0;
    assert(to_replay(w.meta, log) == Seq::<(u32, Seq<u8>)>::empty());
    assert(recovered(base, Some(log)) == base);
    assert(w.kept() == w);
    assert(log.take(a.wal@.len() as int) =~= a.wal@);
}

proof fn lemma_caught_up(v: PagerView, m: Meta, b: PagerView)
    requires
        opened(v.file) == Ok::<PagerView, PagerError>(v),
        v.meta.txn_id < m.txn_id,
        m.magic == v.meta.magic,
        m.next_page_id >= 2,
        m.next_page_id + chain_len(v.freelist.len() as int) <= u32::MAX,
        committed(v, m, b),
    ensures
        b.kept() == b,
        openable(b.file),
        opened(b.file) == Ok::<PagerView, PagerError>(b),
        b.meta.wal_offset == m.wal_offset,
{
    lemma_commit_survives_reopen(v, m, b);
}

/// What was opened from a data file and a log that fit together, and is well
/// formed, is stored: its pages hold it by themselves, and account for the
/// whole log.
pub proof fn lemma_opened_is_stored(
    pages: Seq<Seq<u8>>,
    log: Option<Seq<u8>>,
    db: Database,
)
    requires
        openable(recovered(pages, log)),
        replay_fits(pages, log),
        accounted(pages, log),
        reopened(pages, log, db),
        db.wf(),
    ensures
        db.stored(),
{
    let v = opened(recovered(pages, log))->Ok_0;
    if catches_up(pages, log) {
        let m = caught_up(v.meta, log_bytes(log));
        lemma_caught_up(v, m, db.pager@);
    } else {
        assert(v.kept() == v);
    }
}

} // verus!

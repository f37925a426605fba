//! Replaying the log.

use crate::page::PAGE_SIZE;
use crate::wal::reader::{
    has_frame, lemma_append_reads_back, lemma_torn_record, next_offset, read_at, WalIter,
};
use crate::wal::record::{frame_of, lemma_frame_len, whole, Rec, WalRecord, PAGE_FRAME};
use crate::wal::WalError;
use vstd::prelude::*;

verus! {

broadcast use crate::bytes::group_byte_lengths;

/// An action to replay during recovery.
#[derive(Debug, Clone, PartialEq, Eq)]
pub enum RecoveryAction {
    ReplayPage { page_id: u32, data: Box<[u8; PAGE_SIZE]> },
}

/// The page and contents of an action.
pub open spec fn action_view(a: RecoveryAction) -> (u32, Seq<u8>) {
    match a {
        RecoveryAction::ReplayPage { page_id, data } => (page_id, (*data)@),
    }
}

/// The pages and contents of a list of actions.
pub open spec fn actions_view(v: Seq<RecoveryAction>) -> Seq<(u32, Seq<u8>)> {
    Seq::new(v.len(), |i: int| action_view(v[i]))
}

/// The records of a log from `off` on, up to the first that cannot be read.
pub open spec fn records_from(log: Seq<u8>, off: int) -> Seq<Rec>
    decreases log.len() - off,
{
    match read_at(log, off) {
        Some(rec) => if has_frame(log, off) {
            seq![rec] + records_from(log, next_offset(log, off))
        } else {
            Seq::empty()
        },
        None => Seq::empty(),
    }
}

/// The page writes among records, in order.
pub open spec fn page_writes(recs: Seq<Rec>) -> Seq<(u32, Seq<u8>)>
    decreases recs.len(),
{
    if recs.len() == 0 {
        Seq::empty()
    } else {
        match recs.last() {
            Rec::PageWrite { page_id, data } => page_writes(recs.drop_last()).push((page_id, data)),
            _ => page_writes(recs.drop_last()),
        }
    }
}

/// The page writes that a commit follows, in order.
pub open spec fn committed_writes(recs: Seq<Rec>) -> Seq<(u32, Seq<u8>)>
    decreases recs.len(),
{
    if recs.len() == 0 {
        Seq::empty()
    } else if recs.last() is Commit {
        page_writes(recs.drop_last())
    } else {
        committed_writes(recs.drop_last())
    }
}

/// The bytes of a log with the given records.
pub open spec fn log_of(recs: Seq<Rec>) -> Seq<u8>
    decreases recs.len(),
{
    if recs.len() == 0 {
        Seq::empty()
    } else {
        log_of(recs.drop_last()) + frame_of(recs.last())
    }
}

/// Records that were appended one after the other are read back in order from
/// where they start, up to a tail at which nothing can be read.
pub proof fn lemma_log_reads_back(start: Seq<u8>, recs: Seq<Rec>, tail: Seq<u8>, i: int)
    requires
        forall|j: int| 0 <= j < recs.len() ==> whole(#[trigger] recs[j]),
        0 <= i <= recs.len(),
        read_at(start + log_of(recs) + tail, (start + log_of(recs)).len() as int) is None,
    ensures
        records_from(start + log_of(recs) + tail, (start + log_of(recs.take(i))).len() as int)
            == recs.skip(i),
    decreases recs.len() - i,
{
    let log = start + log_of(recs) + tail;
    let off = (start + log_of(recs.take(i))).len() as int;
    if i == recs.len() {
        assert(recs.take(i) =~= recs);
        assert(records_from(log, off) =~= recs.skip(i));
    } else {
        let head = start + log_of(recs.take(i));
        let rest = log_of(recs).skip(log_of(recs.take(i + 1)).len() as int) + tail;
        lemma_log_split(start, recs, tail, i);
        lemma_append_reads_back(head, recs[i], rest);
        lemma_log_reads_back(start, recs, tail, i + 1);
        assert(recs.skip(i) =~= seq![recs[i]] + recs.skip(i + 1));
    }
}

proof fn lemma_log_split(start: Seq<u8>, recs: Seq<Rec>, tail: Seq<u8>, i: int)
    requires
        0 <= i < recs.len(),
    ensures
        log_of(recs.take(i + 1)) == log_of(recs.take(i)) + frame_of(recs[i]),
        start + log_of(recs) + tail == start + log_of(recs.take(i)) + frame_of(recs[i]) + (log_of(
            recs,
        ).skip(log_of(recs.take(i + 1)).len() as int) + tail),
{
    let a = log_of(recs.take(i));
    let b = log_of(recs.take(i + 1));
    let all = log_of(recs);
    let f = frame_of(recs[i]);
    assert(recs.take(i + 1).drop_last() =~= recs.take(i));
    assert(recs.take(i + 1).last() == recs[i]);
    assert(b == a + f);
    lemma_log_prefix(recs, i + 1);
    let rest = all.skip(b.len() as int);
    assert(all =~= all.take(b.len() as int) + rest);
    assert(all == a + f + rest);
    assert(start + (a + f + rest) + tail =~= start + a + f + (rest + tail));
}

/// The length of a log of page writes.
pub proof fn lemma_page_log_len(recs: Seq<Rec>)
    requires
        forall|j: int| 0 <= j < recs.len() ==> #[trigger] recs[j] is PageWrite && whole(recs[j]),
    ensures
        log_of(recs).len() == PAGE_FRAME * recs.len(),
    decreases recs.len(),
{
    if recs.len() > 0 {
        let front = recs.drop_last();
        assert forall|j: int| 0 <= j < front.len() implies #[trigger] front[j] is PageWrite
            && whole(front[j]) by {
            assert(front[j] == recs[j]);
        }
        lemma_page_log_len(front);
        assert(recs.last() == recs[recs.len() - 1]);
        lemma_frame_len(recs.last());
    }
}

/// Page writes without a commit behind them are not recovered.
pub proof fn lemma_uncommitted_writes(recs: Seq<Rec>)
    requires
        forall|j: int| 0 <= j < recs.len() ==> !(#[trigger] recs[j] is Commit),
    ensures
        committed_writes(recs) == Seq::<(u32, Seq<u8>)>::empty(),
    decreases recs.len(),
{
    if recs.len() > 0 {
        let front = recs.drop_last();
        assert forall|j: int| 0 <= j < front.len() implies !(#[trigger] front[j] is Commit) by {
            assert(front[j] == recs[j]);
        }
        lemma_uncommitted_writes(front);
        assert(recs.last() == recs[recs.len() - 1]);
    }
}

/// The places of the page writes among records, in order.
proof fn lemma_page_writes(recs: Seq<Rec>) -> (at: Seq<int>)
    ensures
        at.len() == page_writes(recs).len(),
        forall|i: int|
            0 <= i < at.len() ==> 0 <= #[trigger] at[i] < recs.len() && recs[at[i]] == (
            Rec::PageWrite { page_id: page_writes(recs)[i].0, data: page_writes(recs)[i].1 }),
        forall|i: int, j: int| 0 <= i < j < at.len() ==> at[i] < at[j],
        forall|k: int| 0 <= k < recs.len() && #[trigger] recs[k] is PageWrite ==> at.contains(k),
    decreases recs.len(),
{
    if recs.len() == 0 {
        Seq::empty()
    } else {
        let front = recs.drop_last();
        let at = lemma_page_writes(front);
        assert(forall|k: int| 0 <= k < front.len() ==> #[trigger] recs[k] == front[k]);
        let r = if recs.last() is PageWrite {
            at.push(recs.len() - 1)
        } else {
            at
        };
        assert forall|k: int| 0 <= k < recs.len() && #[trigger] recs[k] is PageWrite implies
            r.contains(k) by {
            if k < front.len() {
                assert(front[k] is PageWrite);
                assert(at.contains(k));
                assert(r[at.index_of(k)] == k);
            } else {
                assert(r[r.len() - 1] == k);
            }
        }
        assert forall|i: int| 0 <= i < r.len() implies 0 <= #[trigger] r[i] < recs.len()
            && recs[r[i]] == (Rec::PageWrite {
            page_id: page_writes(recs)[i].0,
            data: page_writes(recs)[i].1,
        }) by {
            if i < at.len() {
                assert(at[i] == r[i]);
                assert(front[at[i]] == recs[at[i]]);
            }
        }
        r
    }
}

/// What is recovered are the page writes that a commit follows, all of them and
/// no others, in the order of the log.
pub proof fn lemma_recovered_are_committed(recs: Seq<Rec>) -> (at: Seq<int>)
    ensures
        at.len() == committed_writes(recs).len(),
        forall|i: int|
            0 <= i < at.len() ==> 0 <= #[trigger] at[i] < recs.len() && recs[at[i]] == (
            Rec::PageWrite {
                page_id: committed_writes(recs)[i].0,
                data: committed_writes(recs)[i].1,
            }),
        forall|i: int, j: int| 0 <= i < j < at.len() ==> at[i] < at[j],
        forall|k: int| #[trigger]
            at.contains(k) <==> 0 <= k < recs.len() && recs[k] is PageWrite && exists|c: int|
                k < c < recs.len() && #[trigger] recs[c] is Commit,
    decreases recs.len(),
{
    if recs.len() == 0 {
        Seq::empty()
    } else {
        let front = recs.drop_last();
        assert(forall|k: int| 0 <= k < front.len() ==> #[trigger] recs[k] == front[k]);
        let n = recs.len() - 1;
        if recs.last() is Commit {
            let at = lemma_page_writes(front);
            assert forall|k: int| #[trigger] at.contains(k) <==> 0 <= k < recs.len()
                && recs[k] is PageWrite && exists|c: int|
                k < c < recs.len() && #[trigger] recs[c] is Commit by {
                assert(recs[n] is Commit);
                if at.contains(k) {
                    let i = at.index_of(k);
                    assert(front[at[i]] is PageWrite);
                }
                if 0 <= k < n && recs[k] is PageWrite {
                    assert(front[k] is PageWrite);
                }
            }
            at
        } else {
            let at = lemma_recovered_are_committed(front);
            assert forall|k: int| #[trigger] at.contains(k) <==> 0 <= k < recs.len()
                && recs[k] is PageWrite && exists|c: int|
                k < c < recs.len() && #[trigger] recs[c] is Commit by {
                if at.contains(k) {
                    let c = choose|c: int| k < c < front.len() && #[trigger] front[c] is Commit;
                    assert(recs[c] is Commit);
                }
                if 0 <= k < recs.len() && recs[k] is PageWrite && exists|c: int|
                    k < c < recs.len() && #[trigger] recs[c] is Commit {
                    let c = choose|c: int| k < c < recs.len() && #[trigger] recs[c] is Commit;
                    assert(c < n);
                    assert(front[c] is Commit);
                    assert(front[k] is PageWrite);
                }
            }
            at
        }
    }
}

proof fn lemma_log_prefix(recs: Seq<Rec>, i: int)
    requires
        0 <= i <= recs.len(),
    ensures
        log_of(recs.take(i)).len() <= log_of(recs).len(),
        log_of(recs).take(log_of(recs.take(i)).len() as int) == log_of(recs.take(i)),
    decreases recs.len() - i,
{
    if i < recs.len() {
        lemma_log_prefix(recs, i + 1);
        assert(recs.take(i + 1).drop_last() =~= recs.take(i));
        let a = log_of(recs.take(i));
        let b = log_of(recs.take(i + 1));
        assert(b =~= a + frame_of(recs.take(i + 1).last()));
        assert(log_of(recs).take(a.len() as int) =~= a) by {
            assert(log_of(recs).take(a.len() as int) =~= log_of(recs).take(b.len() as int).take(
                a.len() as int,
            ));
            assert(b.take(a.len() as int) =~= a);
        }
    } else {
        assert(recs.take(i) =~= recs);
        assert(log_of(recs).take(log_of(recs).len() as int) =~= log_of(recs));
    }
}

/// A log whose last record was torn in a crash reads as the records before it.
pub proof fn lemma_recovery_after_crash(start: Seq<u8>, recs: Seq<Rec>, last: Rec, n: int)
    requires
        forall|j: int| 0 <= j < recs.len() ==> whole(#[trigger] recs[j]),
        whole(last),
        0 <= n < frame_of(last).len(),
    ensures
        records_from(start + log_of(recs) + frame_of(last).take(n), start.len() as int) == recs,
{
    lemma_torn_record(start + log_of(recs), last, n);
    lemma_log_reads_back(start, recs, frame_of(last).take(n), 0);
    assert(recs.take(0) =~= Seq::empty());
    assert(start + log_of(recs.take(0)) =~= start);
    assert(recs.skip(0) =~= recs);
}

/// A log that was cut anywhere reads as the records that stand in it whole.
pub proof fn lemma_cut_log(start: Seq<u8>, recs: Seq<Rec>, n: int) -> (k: int)
    requires
        forall|j: int| 0 <= j < recs.len() ==> whole(#[trigger] recs[j]),
        0 <= n < log_of(recs).len(),
    ensures
        0 <= k < recs.len(),
        records_from(start + log_of(recs).take(n), start.len() as int) == recs.take(k),
    decreases recs.len(),
{
    let front = recs.drop_last();
    let head = log_of(front);
    assert(recs.take(recs.len() - 1) =~= front);
    if n < head.len() {
        assert forall|j: int| 0 <= j < front.len() implies whole(#[trigger] front[j]) by {
            assert(front[j] == recs[j]);
        }
        let k = lemma_cut_log(start, front, n);
        assert(log_of(recs).take(n) =~= head.take(n));
        assert(front.take(k) =~= recs.take(k));
        k
    } else {
        assert forall|j: int| 0 <= j < front.len() implies whole(#[trigger] front[j]) by {
            assert(front[j] == recs[j]);
        }
        let m = n - head.len();
        lemma_recovery_after_crash(start, front, recs.last(), m);
        assert(start + log_of(recs).take(n) =~= start + head + frame_of(recs.last()).take(m));
        recs.len() - 1
    }
}

proof fn lemma_records_step(log: Seq<u8>, off: int)
    requires
        read_at(log, off) is Some,
    ensures
        has_frame(log, off),
        next_offset(log, off) > off,
        records_from(log, off) == seq![read_at(log, off)->0] + records_from(
            log,
            next_offset(log, off),
        ),
{
}

/// Recovers committed transactions from a log starting at `from_offset`.
///
/// Only page writes that a commit record follows are returned; writes at the
/// end that were never committed are dropped. Recovery ends at the first record
/// that cannot be read.
pub fn recover(log: &[u8], from_offset: u64) -> (r: Result<Vec<RecoveryAction>, WalError>)
    ensures
        r matches Ok(v) && actions_view(v@) == committed_writes(
            records_from(log@, from_offset as int),
        ),
{
    let mut it = WalIter::new(log, from_offset);
    let mut pending: Vec<RecoveryAction> = Vec::new();
    let mut done: Vec<RecoveryAction> = Vec::new();
    let ghost all = records_from(log@, from_offset as int);
    let ghost mut seen: Seq<Rec> = Seq::empty();
    proof {
        assert(seen + all =~= all);
        assert(actions_view(pending@) =~= Seq::empty());
        assert(actions_view(done@) =~= Seq::empty());
        assert(actions_view(done@) + actions_view(pending@) =~= Seq::empty());
    }
    loop
        invariant
            it.log() == log@,
            it.at() >= 0,
            all == records_from(log@, from_offset as int),
            seen + records_from(log@, it.at()) == all,
            actions_view(done@) == committed_writes(seen),
            actions_view(done@) + actions_view(pending@) == page_writes(seen),
        decreases log@.len() - it.at(),
    {
        let ghost at = it.at();
        match it.next() {
            None => {
                proof {
                    assert(records_from(log@, at) =~= Seq::empty());
                    assert(seen =~= all);
                }
                return Ok(done);
            },
            Some(Err(e)) => {
                return Err(e);
            },
            Some(Ok(record)) => {
                let ghost rec = record@;
                let ghost before = seen;
                proof {
                    lemma_records_step(log@, at);
                    seen = before.push(rec);
                    assert(seen.drop_last() =~= before);
                    assert(seen + records_from(log@, it.at()) =~= before + (seq![rec]
                        + records_from(log@, it.at())));
                }
                match record {
                    WalRecord::PageWrite { page_id, data } => {
                        let ghost p0 = pending@;
                        pending.push(RecoveryAction::ReplayPage { page_id, data });
                        proof {
                            assert(actions_view(pending@) =~= actions_view(p0).push(
                                (page_id, (*data)@),
                            ));
                            assert(actions_view(done@) + actions_view(pending@) =~= (actions_view(
                                done@,
                            ) + actions_view(p0)).push((page_id, (*data)@)));
                        }
                    },
                    WalRecord::Commit { .. } => {
                        let ghost p0 = pending@;
                        let ghost d0 = done@;
                        done.append(&mut pending);
                        proof {
                            assert(actions_view(done@) =~= actions_view(d0) + actions_view(p0));
                            assert(actions_view(pending@) =~= Seq::empty());
                            assert(actions_view(done@) + actions_view(pending@) =~= actions_view(
                                done@,
                            ));
                        }
                    },
                    WalRecord::Checkpoint { .. } => {},
                }
            },
        }
    }
}

} // verus!

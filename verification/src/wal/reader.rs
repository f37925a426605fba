//! Reading the log.

use crate::bytes::{le32, le32_bytes, lemma_le32_inverse, lemma_le32_round_trip, read_le32};
use crate::checksum::{crc32c, crc32c_of};
use crate::wal::record::{
    body_of, frame_of, framed, lemma_record_round_trip, parsed, payload_of, type_of, whole, Rec,
    WalRecord,
};
use crate::wal::WalError;
use vstd::prelude::*;

verus! {

broadcast use crate::bytes::group_byte_lengths;

/// The length that the log gives for the record at `off`.
pub open spec fn length_at(log: Seq<u8>, off: int) -> int {
    le32(log, off)
}

/// Whether a whole record, checksum included, stands at `off`.
pub open spec fn has_frame(log: Seq<u8>, off: int) -> bool {
    &&& off + 4 <= log.len()
    &&& length_at(log, off) > 0
    &&& off + 8 + length_at(log, off) <= log.len()
}

/// The body of the record at `off`.
pub open spec fn body_at(log: Seq<u8>, off: int) -> Seq<u8> {
    log.subrange(off + 4, off + 4 + length_at(log, off))
}

/// The checksum that is stored with the record at `off`.
pub open spec fn crc_at(log: Seq<u8>, off: int) -> u32 {
    le32(log, off + 4 + length_at(log, off)) as u32
}

/// The record that a body with checksum `stored` stands for, given the checksum
/// that belongs to it: none where they differ, or where the body makes no sense.
pub open spec fn accepted(body: Seq<u8>, stored: u32, computed: u32) -> Option<Rec> {
    if stored != computed {
        None
    } else {
        parsed(body[0], body.subrange(1, body.len() as int))
    }
}

/// What reading the log at `off` gives: a record, or nothing at a truncated or
/// corrupt record and at the end.
pub open spec fn read_at(log: Seq<u8>, off: int) -> Option<Rec> {
    if has_frame(log, off) {
        accepted(body_at(log, off), crc_at(log, off), crc32c_of(body_at(log, off)))
    } else {
        None
    }
}

/// Where the record after the one at `off` starts.
pub open spec fn next_offset(log: Seq<u8>, off: int) -> int {
    off + 8 + length_at(log, off)
}

/// A record that may be missing, as a value.
pub open spec fn opt_rec(r: Option<WalRecord>) -> Option<Rec> {
    match r {
        None => None,
        Some(rec) => Some(rec@),
    }
}

/// A record that was appended reads back at the place where it was appended,
/// and the next record starts where it ends, whatever follows it.
pub proof fn lemma_append_reads_back(log: Seq<u8>, r: Rec, rest: Seq<u8>)
    requires
        whole(r),
    ensures
        read_at(log + frame_of(r) + rest, log.len() as int) == Some(r),
        next_offset(log + frame_of(r) + rest, log.len() as int) == log.len() + frame_of(r).len(),
{
    reveal(framed);
    let body = body_of(type_of(r), payload_of(r));
    let f = frame_of(r);
    let all = log + f + rest;
    let off = log.len() as int;
    lemma_record_round_trip(r);
    lemma_body_len(r);
    let n = body.len() as u32;
    lemma_le32_round_trip(n);
    lemma_le32_round_trip(crc32c_of(body));
    assert(all.subrange(off, off + 4) =~= le32_bytes(n));
    assert(le32(all, off) == le32(all.subrange(off, off + 4), 0));
    assert(body_at(all, off) =~= body);
    let end = off + 4 + n;
    assert(all.subrange(end, end + 4) =~= le32_bytes(crc32c_of(body)));
    assert(le32(all, end) == le32(all.subrange(end, end + 4), 0));
    assert(body.subrange(1, body.len() as int) =~= payload_of(r));
}

proof fn lemma_body_len(r: Rec)
    requires
        whole(r),
    ensures
        1 < body_of(type_of(r), payload_of(r)).len() <= 4101,
{
}

/// What was in the log before an append reads as it did.
pub proof fn lemma_append_keeps(log: Seq<u8>, rest: Seq<u8>, off: int)
    requires
        0 <= off,
        has_frame(log, off),
    ensures
        read_at(log + rest, off) == read_at(log, off),
        next_offset(log + rest, off) == next_offset(log, off),
{
    let all = log + rest;
    assert(le32(all, off) == le32(log, off));
    assert(body_at(all, off) =~= body_at(log, off));
    let end = off + 4 + length_at(log, off);
    assert(le32(all, end) == le32(log, end));
}

/// A record that was cut off before its end is not read.
pub proof fn lemma_torn_record(log: Seq<u8>, r: Rec, n: int)
    requires
        whole(r),
        0 <= n < frame_of(r).len(),
    ensures
        read_at(log + frame_of(r).take(n), log.len() as int) is None,
{
    reveal(framed);
    let body = body_of(type_of(r), payload_of(r));
    let f = frame_of(r);
    let all = log + f.take(n);
    let off = log.len() as int;
    lemma_body_len(r);
    let k = body.len() as u32;
    lemma_le32_round_trip(k);
    if n >= 4 {
        assert(all.subrange(off, off + 4) =~= le32_bytes(k));
        assert(le32(all, off) == le32(all.subrange(off, off + 4), 0));
    }
}

/// The record that a body with its stored checksum stands for, given the
/// checksum that belongs to the body.
pub fn accept_record(body: &[u8], stored: u32, computed: u32) -> (r: Option<WalRecord>)
    requires
        body@.len() > 0,
    ensures
        opt_rec(r) == accepted(body@, stored, computed),
{
    if stored != computed {
        return None;
    }
    let record_type: u8 = body[0];
    let payload = vstd::slice::slice_subrange(body, 1, body.len());
    match WalRecord::from_raw(record_type, payload) {
        Ok(record) => Some(record),
        Err(_) => None,
    }
}

/// Reads records from a log.
pub struct WalReader {
    bytes: Vec<u8>,
}

impl View for WalReader {
    type V = Seq<u8>;

    closed spec fn view(&self) -> Seq<u8> {
        self.bytes@
    }
}

impl WalReader {
    /// Reads an existing log.
    pub fn open(bytes: Vec<u8>) -> (r: Self)
        ensures
            r@ == bytes@,
    {
        WalReader { bytes }
    }

    /// A cursor over the records from the given byte offset on.
    pub fn iter_from(&self, offset: u64) -> (r: WalIter<'_>)
        ensures
            r.log() == self@,
            r.at() == offset,
    {
        WalIter { bytes: self.bytes.as_slice(), offset }
    }
}

/// A cursor that yields the records of a log.
///
/// At a truncated or corrupt record the cursor stops with `None` rather than an
/// error: after a crash a torn record at the end is expected.
pub struct WalIter<'a> {
    bytes: &'a [u8],
    offset: u64,
}

impl<'a> WalIter<'a> {
    /// The log.
    pub closed spec fn log(&self) -> Seq<u8> {
        self.bytes@
    }

    /// The offset of the record to read next.
    pub closed spec fn at(&self) -> int {
        self.offset as int
    }

    /// A cursor over the records of `bytes` from `offset` on.
    pub fn new(bytes: &'a [u8], offset: u64) -> (r: Self)
        ensures
            r.log() == bytes@,
            r.at() == offset,
    {
        WalIter { bytes, offset }
    }

    /// Reads the next record and moves past it. At a record that cannot be read
    /// the cursor stays.
    pub fn next(&mut self) -> (r: Option<Result<WalRecord, WalError>>)
        ensures
            final(self).log() == old(self).log(),
            match r {
                Some(Ok(record)) => read_at(old(self).log(), old(self).at()) == Some(record@),
                Some(Err(_)) => false,
                None => read_at(old(self).log(), old(self).at()) is None,
            },
            final(self).at() == (if r is Some {
                next_offset(old(self).log(), old(self).at())
            } else {
                old(self).at()
            }),
    {
        let n: usize = self.bytes.len();
        if self.offset > n as u64 {
            return None;
        }
        let off: usize = self.offset as usize;
        if n - off < 4 {
            return None;
        }
        proof {
            lemma_le32_inverse(self.bytes@, off as int);
        }
        let length: u32 = read_le32(self.bytes, off);
        if length == 0 {
            return None;
        }
        if (n - off - 4) as u64 <= 3 || (n - off - 4) as u64 - 4 < length as u64 {
            return None;
        }
        let end: usize = off + 4 + length as usize;
        let body = vstd::slice::slice_subrange(self.bytes, off + 4, end);
        let stored_crc: u32 = read_le32(self.bytes, end);
        let computed_crc: u32 = crc32c(body);
        match accept_record(body, stored_crc, computed_crc) {
            Some(record) => {
                self.offset = end as u64 + 4;
                Some(Ok(record))
            },
            None => None,
        }
    }
}

} // verus!

//! Log records and their bytes.

use crate::bytes::{
    append_bytes, le32, le32_bytes, le64, le64_bytes, lemma_le32_inverse, lemma_le32_round_trip,
    lemma_le64_round_trip, push_le32, push_le64, read_le32, read_le64,
};
use crate::checksum::crc32c_of;
use crate::page::{write_bytes, PAGE_SIZE};
use crate::wal::WalError;
use vstd::prelude::*;

verus! {

broadcast use crate::bytes::group_byte_lengths;

pub const PAGE_WRITE: u8 = 1;

pub const COMMIT: u8 = 2;

pub const CHECKPOINT: u8 = 3;

/// Bytes that a page write takes in the log.
pub const PAGE_FRAME: u64 = 4109;

/// Bytes that a commit takes in the log.
pub const COMMIT_FRAME: u64 = 17;

/// A log record.
#[derive(Debug, Clone, PartialEq, Eq)]
pub enum WalRecord {
    /// A page got new contents.
    PageWrite { page_id: u32, data: Box<[u8; PAGE_SIZE]> },
    /// Everything before this record is committed.
    Commit { txn_id: u64 },
    /// The data file holds everything up to here.
    Checkpoint { txn_id: u64 },
}

/// A log record, as a value.
pub enum Rec {
    PageWrite { page_id: u32, data: Seq<u8> },
    Commit { txn_id: u64 },
    Checkpoint { txn_id: u64 },
}

impl View for WalRecord {
    type V = Rec;

    open spec fn view(&self) -> Rec {
        match self {
            WalRecord::PageWrite { page_id, data } => Rec::PageWrite {
                page_id: *page_id,
                data: (**data)@,
            },
            WalRecord::Commit { txn_id } => Rec::Commit { txn_id: *txn_id },
            WalRecord::Checkpoint { txn_id } => Rec::Checkpoint { txn_id: *txn_id },
        }
    }
}

/// The byte that stands for a record's type.
pub open spec fn type_of(r: Rec) -> u8 {
    match r {
        Rec::PageWrite { .. } => PAGE_WRITE,
        Rec::Commit { .. } => COMMIT,
        Rec::Checkpoint { .. } => CHECKPOINT,
    }
}

/// A record's bytes after the type.
pub open spec fn payload_of(r: Rec) -> Seq<u8> {
    match r {
        Rec::PageWrite { page_id, data } => le32_bytes(page_id) + data,
        Rec::Commit { txn_id } => le64_bytes(txn_id),
        Rec::Checkpoint { txn_id } => le64_bytes(txn_id),
    }
}

/// The record that a type and a payload stand for, if they stand for one.
pub open spec fn parsed(record_type: u8, payload: Seq<u8>) -> Option<Rec> {
    if record_type == PAGE_WRITE && payload.len() == 4 + PAGE_SIZE {
        Some(
            Rec::PageWrite {
                page_id: le32(payload, 0) as u32,
                data: payload.subrange(4, payload.len() as int),
            },
        )
    } else if record_type == COMMIT && payload.len() == 8 {
        Some(Rec::Commit { txn_id: le64(payload, 0) as u64 })
    } else if record_type == CHECKPOINT && payload.len() == 8 {
        Some(Rec::Checkpoint { txn_id: le64(payload, 0) as u64 })
    } else {
        None
    }
}

/// Whether a record can be written: a page is a whole page.
pub open spec fn whole(r: Rec) -> bool {
    r matches Rec::PageWrite { data, .. } ==> data.len() == PAGE_SIZE
}

/// A record reads back from its own type and payload.
pub proof fn lemma_record_round_trip(r: Rec)
    requires
        whole(r),
    ensures
        parsed(type_of(r), payload_of(r)) == Some(r),
{
    match r {
        Rec::PageWrite { page_id, data } => {
            let p = payload_of(r);
            lemma_le32_round_trip(page_id);
            assert(p.subrange(0, 4) =~= le32_bytes(page_id));
            assert(le32(p, 0) == le32(p.subrange(0, 4), 0));
            assert(p.subrange(4, p.len() as int) =~= data);
        },
        Rec::Commit { txn_id } => {
            lemma_le64_round_trip(txn_id);
        },
        Rec::Checkpoint { txn_id } => {
            lemma_le64_round_trip(txn_id);
        },
    }
}

/// The checksummed part of a record: its type and payload.
pub open spec fn body_of(record_type: u8, payload: Seq<u8>) -> Seq<u8> {
    seq![record_type] + payload
}

/// A record as it stands in the log: the length of its body, the body, and the
/// body's checksum.
#[verifier::opaque]
pub open spec fn framed(body: Seq<u8>) -> Seq<u8> {
    le32_bytes(body.len() as u32) + body + le32_bytes(crc32c_of(body))
}

/// The bytes of a record in the log.
pub open spec fn frame_of(r: Rec) -> Seq<u8> {
    framed(body_of(type_of(r), payload_of(r)))
}

/// The length of a record in the log.
pub proof fn lemma_frame_len(r: Rec)
    requires
        whole(r),
    ensures
        frame_of(r).len() == (if r is PageWrite {
            PAGE_FRAME
        } else {
            COMMIT_FRAME
        }),
{
    reveal(framed);
}

impl WalRecord {
    /// The record type byte.
    pub fn record_type(&self) -> (r: u8)
        ensures
            r == type_of(self@),
    {
        match self {
            WalRecord::PageWrite { .. } => PAGE_WRITE,
            WalRecord::Commit { .. } => COMMIT,
            WalRecord::Checkpoint { .. } => CHECKPOINT,
        }
    }

    /// The payload: everything after the record type byte.
    pub fn payload(&self) -> (r: Vec<u8>)
        ensures
            r@ == payload_of(self@),
    {
        let mut buf: Vec<u8> = Vec::new();
        match self {
            WalRecord::PageWrite { page_id, data } => {
                push_le32(&mut buf, *page_id);
                append_bytes(&mut buf, (**data).as_slice());
            },
            WalRecord::Commit { txn_id } => {
                push_le64(&mut buf, *txn_id);
            },
            WalRecord::Checkpoint { txn_id } => {
                push_le64(&mut buf, *txn_id);
            },
        }
        assert(buf@ =~= payload_of(self@));
        buf
    }

    /// The record that a type byte and a payload stand for. Fails on an unknown
    /// type and on a payload of another length than the type has.
    pub fn from_raw(record_type: u8, payload: &[u8]) -> (r: Result<Self, WalError>)
        ensures
            match r {
                Ok(rec) => parsed(record_type, payload@) == Some(rec@),
                Err(e) => parsed(record_type, payload@) is None && e == WalError::CorruptRecord,
            },
    {
        if record_type == PAGE_WRITE {
            if payload.len() != 4 + PAGE_SIZE {
                return Err(WalError::CorruptRecord);
            }
            let page_id: u32 = read_le32(payload, 0);
            let mut data: [u8; PAGE_SIZE] = [0u8;PAGE_SIZE];
            write_bytes(&mut data, 0, vstd::slice::slice_subrange(payload, 4, payload.len()));
            proof {
                lemma_le32_inverse(payload@, 0);
                assert(data@ =~= payload@.subrange(4, payload@.len() as int)) by {
                    assert(data@.subrange(0, PAGE_SIZE as int) =~= data@);
                }
            }
            Ok(WalRecord::PageWrite { page_id, data: Box::new(data) })
        } else if record_type == COMMIT {
            if payload.len() != 8 {
                return Err(WalError::CorruptRecord);
            }
            Ok(WalRecord::Commit { txn_id: read_le64(payload, 0) })
        } else if record_type == CHECKPOINT {
            if payload.len() != 8 {
                return Err(WalError::CorruptRecord);
            }
            Ok(WalRecord::Checkpoint { txn_id: read_le64(payload, 0) })
        } else {
            Err(WalError::CorruptRecord)
        }
    }
}

} // verus!

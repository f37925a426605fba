//! Appending to the log.

use crate::bytes::{append_bytes, push_le32, push_le64};
use crate::checksum::crc32c;
use crate::page::PAGE_SIZE;
use crate::wal::record::{
    body_of, frame_of, framed, payload_of, Rec, CHECKPOINT, COMMIT, PAGE_WRITE,
};
use crate::wal::WalError;
use vstd::prelude::*;

verus! {

broadcast use crate::bytes::group_byte_lengths;

/// Appends records to a log held in memory.
pub struct WalWriter {
    bytes: Vec<u8>,
}

impl View for WalWriter {
    type V = Seq<u8>;

    closed spec fn view(&self) -> Seq<u8> {
        self.bytes@
    }
}

impl WalWriter {
    /// A new, empty log.
    pub fn create() -> (r: Self)
        ensures
            r@ == Seq::<u8>::empty(),
    {
        WalWriter { bytes: Vec::new() }
    }

    /// Goes on at the end of an existing log.
    pub fn open(bytes: Vec<u8>) -> (r: Self)
        ensures
            r@ == bytes@,
    {
        WalWriter { bytes }
    }

    /// The bytes of the log.
    pub fn bytes(&self) -> (r: &[u8])
        ensures
            r@ == self@,
    {
        self.bytes.as_slice()
    }

    /// Gives up the bytes of the log, to be stored or opened again.
    pub fn into_bytes(self) -> (r: Vec<u8>)
        ensures
            r@ == self@,
    {
        self.bytes
    }

    /// Current write offset in the log.
    pub fn offset(&self) -> (r: u64)
        ensures
            r == self@.len(),
    {
        self.bytes.len() as u64
    }

    /// Appends a page write. Returns the offset where the record starts.
    pub fn append_page_write(&mut self, page_id: u32, data: &[u8; PAGE_SIZE]) -> (r: Result<
        u64,
        WalError,
    >)
        ensures
            r == Ok::<u64, WalError>(old(self)@.len() as u64),
            final(self)@ == old(self)@ + frame_of(Rec::PageWrite { page_id, data: data@ }),
            old(self)@.len() <= u64::MAX,
    {
        let mut payload: Vec<u8> = Vec::new();
        push_le32(&mut payload, page_id);
        append_bytes(&mut payload, data.as_slice());
        assert(payload@ =~= payload_of(Rec::PageWrite { page_id, data: data@ }));
        self.append_record(PAGE_WRITE, payload.as_slice())
    }

    /// Appends a commit. Returns the offset where the record starts.
    pub fn append_commit(&mut self, txn_id: u64) -> (r: Result<u64, WalError>)
        ensures
            r == Ok::<u64, WalError>(old(self)@.len() as u64),
            final(self)@ == old(self)@ + frame_of(Rec::Commit { txn_id }),
            old(self)@.len() <= u64::MAX,
    {
        let mut payload: Vec<u8> = Vec::new();
        push_le64(&mut payload, txn_id);
        assert(payload@ =~= payload_of(Rec::Commit { txn_id }));
        self.append_record(COMMIT, payload.as_slice())
    }

    /// Appends a checkpoint. Returns the offset where the record starts.
    pub fn append_checkpoint(&mut self, txn_id: u64) -> (r: Result<u64, WalError>)
        ensures
            r == Ok::<u64, WalError>(old(self)@.len() as u64),
            final(self)@ == old(self)@ + frame_of(Rec::Checkpoint { txn_id }),
            old(self)@.len() <= u64::MAX,
    {
        let mut payload: Vec<u8> = Vec::new();
        push_le64(&mut payload, txn_id);
        assert(payload@ =~= payload_of(Rec::Checkpoint { txn_id }));
        self.append_record(CHECKPOINT, payload.as_slice())
    }

    /// Appends a framed record: length, type, payload, checksum.
    fn append_record(&mut self, record_type: u8, payload: &[u8]) -> (r: Result<u64, WalError>)
        requires
            payload@.len() < u32::MAX,
        ensures
            r == Ok::<u64, WalError>(old(self)@.len() as u64),
            final(self)@ == old(self)@ + framed(body_of(record_type, payload@)),
            old(self)@.len() <= u64::MAX,
    {
        let ghost before = self@;
        let start: u64 = self.bytes.len() as u64;
        let length: u32 = 1 + payload.len() as u32;
        let mut body: Vec<u8> = Vec::new();
        body.push(record_type);
        append_bytes(&mut body, payload);
        assert(body@ =~= body_of(record_type, payload@));
        let crc: u32 = crc32c(body.as_slice());
        push_le32(&mut self.bytes, length);
        append_bytes(&mut self.bytes, body.as_slice());
        push_le32(&mut self.bytes, crc);
        proof {
            reveal(framed);
            assert(self@ =~= before + framed(body@));
        }
        Ok(start)
    }
}

} // verus!

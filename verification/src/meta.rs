//! The meta pages: two slots that describe the committed state of a file.

use crate::bytes::{
    append_bytes, bytes_equal, le32, le32_bytes, le64, le64_bytes, lemma_le32_round_trip,
    lemma_le64_round_trip, push_le32, push_le64, read_le64,
};
use crate::checksum::{crc32c, crc32c_of};
use crate::page::{
    page_slice, read_u32, write_bytes, write_page_header, write_u32, PageId, PageType, PAGE_SIZE,
};
use vstd::prelude::*;

verus! {

broadcast use crate::bytes::group_byte_lengths;

/// The four bytes that mark a meta page: `GMGR`.
pub const META_MAGIC: [u8; 4] = [71, 77, 71, 82];

/// Offset of the serialized fields in a meta page.
pub const META_FIELDS_OFFSET: usize = 5;

/// Size of the serialized meta fields before the checksum.
pub const META_FIELDS_SIZE: usize = 32;

/// Offset of the checksum in a meta page.
pub const META_CHECKSUM_OFFSET: usize = 37;

/// The meta page descriptor, stored in pages 0 and 1.
#[derive(Debug, Clone, Copy, PartialEq, Eq)]
pub struct Meta {
    pub magic: [u8; 4],
    pub version: u32,
    pub root_page_id: u32,
    pub next_page_id: u32,
    pub txn_id: u64,
    pub wal_offset: u64,
    pub checksum: u32,
}

/// The serialized fields, checksum excluded.
pub open spec fn meta_fields(m: Meta) -> Seq<u8> {
    m.magic@ + le32_bytes(m.version) + le32_bytes(m.root_page_id) + le32_bytes(m.next_page_id)
        + le64_bytes(m.txn_id) + le64_bytes(m.wal_offset)
}

/// The checksum that belongs to a meta's fields.
pub open spec fn meta_checksum(m: Meta) -> u32 {
    crc32c_of(meta_fields(m))
}

/// The meta with the checksum that belongs to its fields.
pub open spec fn sealed(m: Meta) -> Meta {
    Meta { checksum: meta_checksum(m), ..m }
}

/// Whether a page carries the magic bytes of a meta page.
pub open spec fn has_magic(page: Seq<u8>) -> bool {
    page.subrange(5, 9) == META_MAGIC@
}

/// The meta that a page with the magic bytes holds.
pub open spec fn meta_of(page: Seq<u8>) -> Meta {
    Meta {
        magic: META_MAGIC,
        version: le32(page, 9) as u32,
        root_page_id: le32(page, 13) as u32,
        next_page_id: le32(page, 17) as u32,
        txn_id: le64(page, 21) as u64,
        wal_offset: le64(page, 29) as u64,
        checksum: le32(page, 37) as u32,
    }
}

/// The meta of a page that carries the magic bytes and a matching checksum.
pub open spec fn valid_meta(page: Seq<u8>) -> Option<Meta> {
    if has_magic(page) && meta_of(page).checksum == meta_checksum(meta_of(page)) {
        Some(meta_of(page))
    } else {
        None
    }
}

/// The choice between the metas of slot 0 and slot 1: the one that is there,
/// or the one with the higher transaction number, slot 0 on a tie.
pub open spec fn active_meta(m0: Option<Meta>, m1: Option<Meta>) -> Option<(Meta, u8)> {
    match (m0, m1) {
        (Some(a), Some(b)) => if b.txn_id > a.txn_id {
            Some((b, 1u8))
        } else {
            Some((a, 0u8))
        },
        (Some(a), None) => Some((a, 0u8)),
        (None, Some(b)) => Some((b, 1u8)),
        (None, None) => None,
    }
}

/// The meta that is chosen is one that is there, and no other has a higher
/// transaction number; there is one wherever one is there.
pub proof fn lemma_newest_meta_is_active(m0: Option<Meta>, m1: Option<Meta>)
    ensures
        active_meta(m0, m1) is None <==> m0 is None && m1 is None,
        active_meta(m0, m1) matches Some((m, slot)) ==> {
            &&& slot == 0 && m0 == Some(m) || slot == 1 && m1 == Some(m)
            &&& m0 matches Some(a) ==> a.txn_id <= m.txn_id
            &&& m1 matches Some(b) ==> b.txn_id <= m.txn_id
            &&& m0 matches Some(a) ==> (a.txn_id == m.txn_id ==> slot == 0)
        },
{
}

/// The exact bytes of a meta page: header, fields, checksum, zeros.
pub open spec fn is_meta_page(page: Seq<u8>, m: Meta, slot: u8) -> bool {
    &&& page.len() == PAGE_SIZE
    &&& page[0] == 0
    &&& le32(page, 1) == slot
    &&& page.subrange(5, 37) == meta_fields(m)
    &&& le32(page, 37) == m.checksum
    &&& forall|x: int| 41 <= x < PAGE_SIZE ==> page[x] == 0
}

proof fn lemma_meta_parts(m: Meta)
    ensures
        meta_fields(m).len() == 32,
        meta_fields(m).subrange(0, 4) == m.magic@,
        meta_fields(m).subrange(4, 8) == le32_bytes(m.version),
        meta_fields(m).subrange(8, 12) == le32_bytes(m.root_page_id),
        meta_fields(m).subrange(12, 16) == le32_bytes(m.next_page_id),
        meta_fields(m).subrange(16, 24) == le64_bytes(m.txn_id),
        meta_fields(m).subrange(24, 32) == le64_bytes(m.wal_offset),
{
    let f = meta_fields(m);
    assert(m.magic@.len() == 4);
    assert(f.subrange(0, 4) =~= m.magic@);
    assert(f.subrange(4, 8) =~= le32_bytes(m.version));
    assert(f.subrange(8, 12) =~= le32_bytes(m.root_page_id));
    assert(f.subrange(12, 16) =~= le32_bytes(m.next_page_id));
    assert(f.subrange(16, 24) =~= le64_bytes(m.txn_id));
    assert(f.subrange(24, 32) =~= le64_bytes(m.wal_offset));
}

proof fn lemma_meta_field32(page: Seq<u8>, at: int, v: u32)
    requires
        page.len() == PAGE_SIZE,
        0 <= at <= 28,
        page.subrange(5, 37).subrange(at, at + 4) == le32_bytes(v),
    ensures
        le32(page, 5 + at) == v,
{
    let s = page.subrange(5, 37).subrange(at, at + 4);
    lemma_le32_round_trip(v);
    assert(s[0] == page[5 + at] && s[1] == page[6 + at] && s[2] == page[7 + at] && s[3] == page[8
        + at]);
}

proof fn lemma_meta_field64(page: Seq<u8>, at: int, v: u64)
    requires
        page.len() == PAGE_SIZE,
        0 <= at <= 24,
        page.subrange(5, 37).subrange(at, at + 8) == le64_bytes(v),
    ensures
        le64(page, 5 + at) == v,
{
    let s = page.subrange(5, 37).subrange(at, at + 8);
    lemma_le64_round_trip(v);
    assert(s[0] == page[5 + at] && s[1] == page[6 + at] && s[2] == page[7 + at] && s[3] == page[8
        + at]);
    assert(s[4] == page[9 + at] && s[5] == page[10 + at] && s[6] == page[11 + at] && s[7]
        == page[12 + at]);
}

/// A page that starts as a meta page does holds that meta, whatever follows
/// the checksum.
pub proof fn lemma_meta_page_round_trip(page: Seq<u8>, m: Meta)
    requires
        page.len() == PAGE_SIZE,
        page.subrange(5, 37) == meta_fields(m),
        le32(page, 37) == m.checksum,
    ensures
        has_magic(page) <==> m.magic@ == META_MAGIC@,
        has_magic(page) ==> meta_of(page) == m,
        has_magic(page) ==> valid_meta(page) == (if m.checksum == meta_checksum(m) {
            Some(m)
        } else {
            None
        }),
{
    lemma_meta_parts(m);
    lemma_meta_field32(page, 4, m.version);
    lemma_meta_field32(page, 8, m.root_page_id);
    lemma_meta_field32(page, 12, m.next_page_id);
    lemma_meta_field64(page, 16, m.txn_id);
    lemma_meta_field64(page, 24, m.wal_offset);
    assert(page.subrange(5, 37).subrange(0, 4) =~= page.subrange(5, 9));
    if has_magic(page) {
        assert(m.magic =~= META_MAGIC);
        assert(meta_of(page) == m);
    }
}

impl Meta {
    /// A fresh meta: pages 0 and 1 are taken, nothing else is.
    pub fn new_initial() -> (r: Self)
        ensures
            r == sealed(
                Meta {
                    magic: META_MAGIC,
                    version: 1,
                    root_page_id: 0,
                    next_page_id: 2,
                    txn_id: 0,
                    wal_offset: 0,
                    checksum: 0,
                },
            ),
    {
        let mut m = Meta {
            magic: META_MAGIC,
            version: 1,
            root_page_id: 0,
            next_page_id: 2,
            txn_id: 0,
            wal_offset: 0,
            checksum: 0,
        };
        m.checksum = m.compute_checksum();
        m
    }

    /// CRC-32C over the serialized fields, the checksum itself excluded.
    pub fn compute_checksum(&self) -> (r: u32)
        ensures
            r == meta_checksum(*self),
    {
        let fields = self.serialize_fields();
        crc32c(fields.as_slice())
    }

    /// Makes the checksum field match the other fields.
    pub fn update_checksum(&mut self)
        ensures
            *final(self) == sealed(*old(self)),
    {
        self.checksum = self.compute_checksum();
    }

    /// Whether the stored checksum matches the fields.
    pub fn validate_checksum(&self) -> (r: bool)
        ensures
            r == (self.checksum == meta_checksum(*self)),
    {
        self.checksum == self.compute_checksum()
    }

    fn serialize_fields(&self) -> (r: Vec<u8>)
        ensures
            r@ == meta_fields(*self),
            r@.len() == META_FIELDS_SIZE,
    {
        let mut buf: Vec<u8> = Vec::new();
        append_bytes(&mut buf, self.magic.as_slice());
        push_le32(&mut buf, self.version);
        push_le32(&mut buf, self.root_page_id);
        push_le32(&mut buf, self.next_page_id);
        push_le64(&mut buf, self.txn_id);
        push_le64(&mut buf, self.wal_offset);
        assert(buf@ =~= meta_fields(*self));
        buf
    }

    /// Writes the full meta, checksum included, into a page-sized buffer.
    pub fn to_page(&self, slot: u8) -> (r: [u8; PAGE_SIZE])
        ensures
            is_meta_page(r@, *self, slot),
    {
        let mut buf: [u8; PAGE_SIZE] = [0u8;PAGE_SIZE];
        write_page_header(&mut buf, PageType::Meta, PageId(slot as u32));
        let fields = self.serialize_fields();
        write_bytes(&mut buf, META_FIELDS_OFFSET, fields.as_slice());
        let ghost mid = buf@;
        write_u32(&mut buf, META_CHECKSUM_OFFSET, self.checksum);
        assert(buf@.subrange(5, 37) =~= mid.subrange(5, 37));
        buf
    }

    /// Reads a meta from a page buffer; `None` where the magic is wrong.
    pub fn from_page(buf: &[u8; PAGE_SIZE]) -> (r: Option<Self>)
        ensures
            r == (if has_magic(buf@) {
                Some(meta_of(buf@))
            } else {
                None
            }),
    {
        let magic = page_slice(buf, META_FIELDS_OFFSET, 9);
        let expected: [u8; 4] = META_MAGIC;
        if !bytes_equal(magic.as_slice(), expected.as_slice()) {
            return None;
        }
        Some(
            Meta {
                magic: META_MAGIC,
                version: read_u32(buf, 9),
                root_page_id: read_u32(buf, 13),
                next_page_id: read_u32(buf, 17),
                txn_id: read_le64(buf.as_slice(), 21),
                wal_offset: read_le64(buf.as_slice(), 29),
                checksum: read_u32(buf, META_CHECKSUM_OFFSET),
            },
        )
    }
}

/// The choice between two slots whose metas have already been validated.
pub fn pick_meta(m0: Option<Meta>, m1: Option<Meta>) -> (r: Option<(Meta, u8)>)
    ensures
        r == active_meta(m0, m1),
{
    match (m0, m1) {
        (Some(a), Some(b)) => {
            if b.txn_id > a.txn_id {
                Some((b, 1))
            } else {
                Some((a, 0))
            }
        },
        (Some(a), None) => Some((a, 0)),
        (None, Some(b)) => Some((b, 1)),
        (None, None) => None,
    }
}

fn read_valid_meta(buf: &[u8; PAGE_SIZE]) -> (r: Option<Meta>)
    ensures
        r == valid_meta(buf@),
{
    match Meta::from_page(buf) {
        Some(m) => {
            if m.validate_checksum() {
                Some(m)
            } else {
                None
            }
        },
        None => None,
    }
}

/// The active meta of the two meta pages and its slot, 0 or 1. A page without
/// the magic or with a wrong checksum does not count; `None` where neither does.
pub fn pick_active_meta(page0: &[u8; PAGE_SIZE], page1: &[u8; PAGE_SIZE]) -> (r: Option<(Meta, u8)>)
    ensures
        r == active_meta(valid_meta(page0@), valid_meta(page1@)),
{
    pick_meta(read_valid_meta(page0), read_valid_meta(page1))
}

} // verus!

//! Fixed-size pages, page numbers and the header that starts every page.

use crate::bytes::{le16, le32};
use vstd::prelude::*;

verus! {

/// Fixed page size in bytes.
pub const PAGE_SIZE: usize = 4096;

/// Size of the per-page header: one byte of page type, four of page number.
pub const PAGE_HEADER_SIZE: usize = 5;

/// Usable payload bytes per page after the header.
pub const PAGE_PAYLOAD_SIZE: usize = PAGE_SIZE - PAGE_HEADER_SIZE;

/// A page number.
#[derive(Debug, Clone, Copy, PartialEq, Eq, Hash, Structural)]
pub struct PageId(pub u32);

impl PageId {
    /// Byte offset of this page within the data file.
    pub fn offset(self) -> (r: u64)
        ensures
            r == self.0 * PAGE_SIZE,
    {
        self.0 as u64 * PAGE_SIZE as u64
    }
}

/// What a page holds; stored in its first byte.
#[derive(Debug, Clone, Copy, PartialEq, Eq, Structural)]
pub enum PageType {
    Meta,
    FreeList,
    BtreeInternal,
    BtreeLeaf,
    Overflow,
}

/// The byte that stands for a page type.
pub open spec fn page_type_code(t: PageType) -> u8 {
    match t {
        PageType::Meta => 0,
        PageType::FreeList => 1,
        PageType::BtreeInternal => 2,
        PageType::BtreeLeaf => 3,
        PageType::Overflow => 4,
    }
}

/// The page type that a byte stands for, if it stands for one.
pub open spec fn page_type_of(v: u8) -> Option<PageType> {
    match v {
        0 => Some(PageType::Meta),
        1 => Some(PageType::FreeList),
        2 => Some(PageType::BtreeInternal),
        3 => Some(PageType::BtreeLeaf),
        4 => Some(PageType::Overflow),
        _ => None,
    }
}

impl PageType {
    /// The page type that `v` stands for; `None` for an unknown byte.
    pub fn from_u8(v: u8) -> (r: Option<Self>)
        ensures
            r == page_type_of(v),
            forall|t: PageType| page_type_code(t) == v <==> r == Some(t),
    {
        match v {
            0 => Some(PageType::Meta),
            1 => Some(PageType::FreeList),
            2 => Some(PageType::BtreeInternal),
            3 => Some(PageType::BtreeLeaf),
            4 => Some(PageType::Overflow),
            _ => None,
        }
    }

    /// The byte that stands for this page type.
    pub fn to_u8(self) -> (r: u8)
        ensures
            r == page_type_code(self),
    {
        match self {
            PageType::Meta => 0,
            PageType::FreeList => 1,
            PageType::BtreeInternal => 2,
            PageType::BtreeLeaf => 3,
            PageType::Overflow => 4,
        }
    }
}

/// The page type in a page's header; an unknown byte reads as `Meta`.
pub open spec fn header_type(page: Seq<u8>) -> PageType {
    match page_type_of(page[0]) {
        Some(t) => t,
        None => PageType::Meta,
    }
}

/// The page number in a page's header.
pub open spec fn header_id(page: Seq<u8>) -> PageId {
    PageId(le32(page, 1) as u32)
}

/// Reads two bytes, least significant first.
pub fn read_u16(buf: &[u8; PAGE_SIZE], off: usize) -> (r: u16)
    requires
        off + 2 <= PAGE_SIZE,
    ensures
        r == le16(buf@, off as int),
{
    buf[off] as u16 + 256 * (buf[off + 1] as u16)
}

/// Writes two bytes, least significant first, and nothing else.
pub fn write_u16(buf: &mut [u8; PAGE_SIZE], off: usize, v: u16)
    requires
        off + 2 <= PAGE_SIZE,
    ensures
        le16(final(buf)@, off as int) == v,
        forall|i: int|
            0 <= i < PAGE_SIZE && !(off <= i < off + 2) ==> final(buf)@[i] == old(buf)@[i],
{
    buf[off] = (v % 256) as u8;
    buf[off + 1] = (v / 256) as u8;
}

/// Reads four bytes, least significant first.
pub fn read_u32(buf: &[u8; PAGE_SIZE], off: usize) -> (r: u32)
    requires
        off + 4 <= PAGE_SIZE,
    ensures
        r == le32(buf@, off as int),
{
    buf[off] as u32 + 256 * (buf[off + 1] as u32) + 65536 * (buf[off + 2] as u32) + 16777216 * (
    buf[off + 3] as u32)
}

/// Writes four bytes, least significant first, and nothing else.
pub fn write_u32(buf: &mut [u8; PAGE_SIZE], off: usize, v: u32)
    requires
        off + 4 <= PAGE_SIZE,
    ensures
        le32(final(buf)@, off as int) == v,
        forall|i: int|
            0 <= i < PAGE_SIZE && !(off <= i < off + 4) ==> final(buf)@[i] == old(buf)@[i],
{
    buf[off] = (v % 256) as u8;
    buf[off + 1] = (v / 256 % 256) as u8;
    buf[off + 2] = (v / 65536 % 256) as u8;
    buf[off + 3] = (v / 16777216) as u8;
}

/// Copies `src` into a page at `off`, and changes nothing else.
pub fn write_bytes(buf: &mut [u8; PAGE_SIZE], off: usize, src: &[u8])
    requires
        off + src@.len() <= PAGE_SIZE,
    ensures
        final(buf)@.subrange(off as int, off + src@.len()) == src@,
        forall|i: int|
            0 <= i < PAGE_SIZE && !(off <= i < off + src@.len()) ==> final(buf)@[i] == old(buf)@[i],
{
    let mut j: usize = 0;
    while j < src.len()
        invariant
            j <= src@.len(),
            off + src@.len() <= PAGE_SIZE,
            forall|i: int| off <= i < off + j ==> buf@[i] == src@[i - off],
            forall|i: int|
                0 <= i < PAGE_SIZE && !(off <= i < off + src@.len()) ==> buf@[i] == old(buf)@[i],
        decreases src@.len() - j,
    {
        buf[off + j] = src[j];
        j = j + 1;
    }
    assert(buf@.subrange(off as int, off + src@.len()) =~= src@);
}

/// A copy of the bytes `from..to` of a page.
pub fn page_slice(buf: &[u8; PAGE_SIZE], from: usize, to: usize) -> (r: Vec<u8>)
    requires
        from <= to <= PAGE_SIZE,
    ensures
        r@ == buf@.subrange(from as int, to as int),
{
    vstd::slice::slice_to_vec(vstd::slice::slice_subrange(buf.as_slice(), from, to))
}

/// Writes the five-byte header into a page buffer.
pub fn write_page_header(buf: &mut [u8; PAGE_SIZE], page_type: PageType, page_id: PageId)
    ensures
        final(buf)@[0] == page_type_code(page_type),
        le32(final(buf)@, 1) == page_id.0,
        header_type(final(buf)@) == page_type,
        header_id(final(buf)@) == page_id,
        forall|i: int| 5 <= i < PAGE_SIZE ==> final(buf)@[i] == old(buf)@[i],
{
    buf[0] = page_type.to_u8();
    write_u32(buf, 1, page_id.0);
}

/// Reads the five-byte header of a page buffer.
pub fn read_page_header(buf: &[u8; PAGE_SIZE]) -> (r: (PageType, PageId))
    ensures
        r.0 == header_type(buf@),
        r.1 == header_id(buf@),
{
    let pt = match PageType::from_u8(buf[0]) {
        Some(t) => t,
        None => PageType::Meta,
    };
    let id: u32 = read_u32(buf, 1);
    (pt, PageId(id))
}

} // verus!

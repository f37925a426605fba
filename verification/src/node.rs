//! In-memory representations of B+tree leaf and internal nodes.
//!
//! Each node occupies exactly one page. After the page header come the number
//! of entries and the start of the data area; an array of slots grows forward
//! from there, and the keys and values grow backward from the end of the page.

use crate::bytes::{
    compare_keys, copy_bytes, key_less, key_lt, le16, le32, lemma_key_asymmetric,
    lemma_key_irreflexive, lemma_key_total, lemma_key_transitive, KeyOrder,
};
use crate::error::BTreeError;
use crate::page::{
    header_id, header_type, page_slice, read_page_header, read_u16, read_u32, write_bytes,
    write_page_header, write_u16, write_u32, PageId, PageType, PAGE_SIZE,
};
use vstd::prelude::*;

verus! {

/// Offset of the entry count, right after the page header.
pub const NUM_OFFSET: usize = 5;

/// Offset of the start of the data area.
pub const DATA_END_OFFSET: usize = 7;

/// Start of the leaf slot array.
pub const LEAF_SLOTS_OFFSET: usize = 9;

/// Bytes per leaf slot: key length, value length, data offset.
pub const LEAF_SLOT_SIZE: usize = 6;

/// Offset of the rightmost child in an internal node.
pub const INTERNAL_RIGHT_CHILD_OFFSET: usize = 9;

/// Start of the internal slot array.
pub const INTERNAL_SLOTS_OFFSET: usize = 13;

/// Bytes per internal slot: key length, data offset, child.
pub const INTERNAL_SLOT_SIZE: usize = 8;

// ---------------------------------------------------------------------------
// Sorted key sequences
// ---------------------------------------------------------------------------

/// Keys in strictly ascending order.
pub open spec fn sorted_keys(keys: Seq<Seq<u8>>) -> bool {
    forall|i: int, j: int| 0 <= i < j < keys.len() ==> #[trigger] key_lt(keys[i], keys[j])
}

/// The number of leading keys that are smaller than `key`.
pub open spec fn lower_bound(keys: Seq<Seq<u8>>, key: Seq<u8>) -> int
    decreases keys.len(),
{
    if keys.len() == 0 || !key_lt(keys[0], key) {
        0
    } else {
        1 + lower_bound(keys.drop_first(), key)
    }
}

/// The index of the first key that is greater than `key`, or the number of keys.
pub open spec fn child_index(keys: Seq<Seq<u8>>, key: Seq<u8>) -> int
    decreases keys.len(),
{
    if keys.len() == 0 || key_lt(key, keys[0]) {
        0
    } else {
        1 + child_index(keys.drop_first(), key)
    }
}

pub proof fn lemma_lower_bound(keys: Seq<Seq<u8>>, key: Seq<u8>)
    ensures
        0 <= lower_bound(keys, key) <= keys.len(),
        forall|j: int| 0 <= j < lower_bound(keys, key) ==> #[trigger] key_lt(keys[j], key),
        lower_bound(keys, key) < keys.len() ==> !key_lt(keys[lower_bound(keys, key)], key),
        sorted_keys(keys) ==> forall|j: int|
            lower_bound(keys, key) < j < keys.len() ==> #[trigger] key_lt(key, keys[j]),
    decreases keys.len(),
{
    let b = lower_bound(keys, key);
    if keys.len() > 0 && key_lt(keys[0], key) {
        lemma_lower_bound(keys.drop_first(), key);
        let rest = keys.drop_first();
        assert forall|j: int| 0 <= j < b implies #[trigger] key_lt(keys[j], key) by {
            if j > 0 {
                assert(key_lt(rest[j - 1], key));
            }
        }
    }
    if sorted_keys(keys) {
        assert forall|j: int| b < j < keys.len() implies #[trigger] key_lt(key, keys[j]) by {
            assert(key_lt(keys[b], keys[j]));
            lemma_key_total(key, keys[b]);
            if key_lt(key, keys[b]) {
                lemma_key_transitive(key, keys[b], keys[j]);
            }
        }
    }
}

pub proof fn lemma_lower_bound_unique(keys: Seq<Seq<u8>>, key: Seq<u8>, i: int)
    requires
        0 <= i <= keys.len(),
        forall|j: int| 0 <= j < i ==> #[trigger] key_lt(keys[j], key),
        i < keys.len() ==> !key_lt(keys[i], key),
    ensures
        lower_bound(keys, key) == i,
{
    lemma_lower_bound(keys, key);
    let b = lower_bound(keys, key);
    if b < i {
        assert(key_lt(keys[b], key));
    } else if i < b {
        assert(key_lt(keys[i], key));
    }
}

pub proof fn lemma_child_index(keys: Seq<Seq<u8>>, key: Seq<u8>)
    ensures
        0 <= child_index(keys, key) <= keys.len(),
        forall|j: int| 0 <= j < child_index(keys, key) ==> !#[trigger] key_lt(key, keys[j]),
        child_index(keys, key) < keys.len() ==> key_lt(key, keys[child_index(keys, key)]),
    decreases keys.len(),
{
    let b = child_index(keys, key);
    if keys.len() > 0 && !key_lt(key, keys[0]) {
        lemma_child_index(keys.drop_first(), key);
        let rest = keys.drop_first();
        assert forall|j: int| 0 <= j < b implies !#[trigger] key_lt(key, keys[j]) by {
            if j > 0 {
                assert(!key_lt(key, rest[j - 1]));
            }
        }
    }
}

pub proof fn lemma_child_index_unique(keys: Seq<Seq<u8>>, key: Seq<u8>, i: int)
    requires
        0 <= i <= keys.len(),
        forall|j: int| 0 <= j < i ==> !#[trigger] key_lt(key, keys[j]),
        i < keys.len() ==> key_lt(key, keys[i]),
    ensures
        child_index(keys, key) == i,
{
    lemma_child_index(keys, key);
    let b = child_index(keys, key);
    if b < i {
        assert(!key_lt(key, keys[b]));
    } else if i < b {
        assert(!key_lt(key, keys[i]));
    }
}

// ---------------------------------------------------------------------------
// Leaf contents
// ---------------------------------------------------------------------------

/// The keys of a sequence of entries.
pub open spec fn keys_of(es: Seq<(Seq<u8>, Seq<u8>)>) -> Seq<Seq<u8>> {
    Seq::new(es.len(), |i: int| es[i].0)
}

/// Bytes that the keys and values of `es` take together.
pub open spec fn data_len(es: Seq<(Seq<u8>, Seq<u8>)>) -> int
    decreases es.len(),
{
    if es.len() == 0 {
        0
    } else {
        data_len(es.drop_last()) + es.last().0.len() + es.last().1.len()
    }
}

/// Whether a leaf with these entries fits in one page.
pub open spec fn leaf_fits(es: Seq<(Seq<u8>, Seq<u8>)>) -> bool {
    LEAF_SLOTS_OFFSET + LEAF_SLOT_SIZE * es.len() + data_len(es) <= PAGE_SIZE
}

/// The entries with `key` set to `value`: replaced where it is there, put in
/// its place among the others where it is not.
pub open spec fn upserted(
    es: Seq<(Seq<u8>, Seq<u8>)>,
    key: Seq<u8>,
    value: Seq<u8>,
) -> Seq<(Seq<u8>, Seq<u8>)> {
    let i = lower_bound(keys_of(es), key);
    if i < es.len() && es[i].0 == key {
        es.update(i, (key, value))
    } else {
        es.insert(i, (key, value))
    }
}

/// The entries without `key`.
pub open spec fn removed(es: Seq<(Seq<u8>, Seq<u8>)>, key: Seq<u8>) -> Seq<(Seq<u8>, Seq<u8>)> {
    let i = lower_bound(keys_of(es), key);
    if i < es.len() && es[i].0 == key {
        es.remove(i)
    } else {
        es
    }
}

pub proof fn lemma_data_len_step(es: Seq<(Seq<u8>, Seq<u8>)>, i: int)
    requires
        0 <= i < es.len(),
    ensures
        data_len(es.take(i + 1)) == data_len(es.take(i)) + es[i].0.len() + es[i].1.len(),
{
    assert(es.take(i + 1).drop_last() =~= es.take(i));
}

pub proof fn lemma_data_len_mono(es: Seq<(Seq<u8>, Seq<u8>)>, i: int, j: int)
    requires
        0 <= i <= j <= es.len(),
    ensures
        0 <= data_len(es.take(i)) <= data_len(es.take(j)),
    decreases j,
{
    if i < j {
        lemma_data_len_mono(es, i, j - 1);
        lemma_data_len_step(es, j - 1);
    } else if i > 0 {
        lemma_data_len_mono(es, i - 1, i - 1);
        lemma_data_len_step(es, i - 1);
    } else {
        assert(es.take(0).len() == 0);
    }
}

pub proof fn lemma_data_len_concat(a: Seq<(Seq<u8>, Seq<u8>)>, b: Seq<(Seq<u8>, Seq<u8>)>)
    ensures
        data_len(a + b) == data_len(a) + data_len(b),
    decreases b.len(),
{
    if b.len() == 0 {
        assert(a + b =~= a);
    } else {
        assert((a + b).drop_last() =~= a + b.drop_last());
        lemma_data_len_concat(a, b.drop_last());
    }
}

// ---------------------------------------------------------------------------
// Leaf pages
// ---------------------------------------------------------------------------

/// The number of entries that a node page claims to hold.
pub open spec fn page_count(page: Seq<u8>) -> int {
    le16(page, NUM_OFFSET as int)
}

/// Where slot `i` of a leaf page starts.
pub open spec fn leaf_slot(i: int) -> int {
    LEAF_SLOTS_OFFSET + i * LEAF_SLOT_SIZE
}

/// Whether the data of slot `i` of a leaf page lies inside the page.
pub open spec fn leaf_slot_ok(page: Seq<u8>, i: int) -> bool {
    le16(page, leaf_slot(i)) + le16(page, leaf_slot(i) + 2) + le16(page, leaf_slot(i) + 4)
        <= PAGE_SIZE
}

/// The key and value that slot `i` of a leaf page points to.
pub open spec fn leaf_entry(page: Seq<u8>, i: int) -> (Seq<u8>, Seq<u8>) {
    let key_len = le16(page, leaf_slot(i));
    let val_len = le16(page, leaf_slot(i) + 2);
    let off = le16(page, leaf_slot(i) + 4);
    (page.subrange(off, off + key_len), page.subrange(off + key_len, off + key_len + val_len))
}

/// Whether the slot array of a leaf page ends inside the page.
pub open spec fn leaf_slots_fit(page: Seq<u8>) -> bool {
    leaf_slot(page_count(page)) <= PAGE_SIZE
}

/// Whether the data of the first `i` slots of a leaf page lies inside the page.
pub open spec fn leaf_slots_ok(page: Seq<u8>, i: int) -> bool {
    forall|j: int| 0 <= j < i ==> #[trigger] leaf_slot_ok(page, j)
}

/// Whether the slots of a leaf page lie inside the page, up to the first whose
/// data does not.
pub open spec fn leaf_slots_reached(page: Seq<u8>) -> bool {
    forall|i: int|
        0 <= i < page_count(page) && #[trigger] leaf_slots_ok(page, i) ==> leaf_slot(i + 1)
            <= PAGE_SIZE
}

/// Whether a page can be read as a leaf.
pub open spec fn leaf_readable(page: Seq<u8>) -> bool {
    &&& header_type(page) == PageType::BtreeLeaf
    &&& leaf_slots_fit(page)
    &&& forall|i: int| 0 <= i < page_count(page) ==> #[trigger] leaf_slot_ok(page, i)
}

/// The entries of a leaf page.
pub open spec fn leaf_entries(page: Seq<u8>) -> Seq<(Seq<u8>, Seq<u8>)> {
    Seq::new(page_count(page) as nat, |i: int| leaf_entry(page, i))
}

/// The exact bytes of a leaf page: header, count, data area start, slots in
/// entry order, data packed downward from the page's end, zeros in between.
#[verifier::opaque]
pub open spec fn is_leaf_page(page: Seq<u8>, id: PageId, es: Seq<(Seq<u8>, Seq<u8>)>) -> bool {
    &&& page.len() == PAGE_SIZE
    &&& page[0] == 3
    &&& le32(page, 1) == id.0
    &&& page_count(page) == es.len()
    &&& le16(page, DATA_END_OFFSET as int) == PAGE_SIZE - data_len(es)
    &&& forall|i: int|
        0 <= i < es.len() ==> {
            &&& le16(page, #[trigger] leaf_slot(i)) == es[i].0.len()
            &&& le16(page, leaf_slot(i) + 2) == es[i].1.len()
            &&& le16(page, leaf_slot(i) + 4) == PAGE_SIZE - data_len(es.take(i + 1))
            &&& leaf_entry(page, i) == es[i]
        }
    &&& forall|x: int|
        leaf_slot(es.len() as int) <= x < PAGE_SIZE - data_len(es) ==> page[x] == 0
}

/// A leaf page reads back as exactly the node that was written.
pub proof fn lemma_leaf_page_round_trip(
    page: Seq<u8>,
    id: PageId,
    es: Seq<(Seq<u8>, Seq<u8>)>,
)
    requires
        is_leaf_page(page, id, es),
        leaf_fits(es),
    ensures
        leaf_readable(page),
        header_id(page) == id,
        leaf_entries(page) == es,
{
    reveal(is_leaf_page);
    lemma_data_len_mono(es, 0, es.len() as int);
    assert(es.take(es.len() as int) =~= es);
    assert forall|i: int| 0 <= i < page_count(page) implies #[trigger] leaf_slot_ok(page, i) by {
        assert(le16(page, leaf_slot(i)) == es[i].0.len());
        lemma_data_len_step(es, i);
        lemma_data_len_mono(es, 0, i);
    }
    assert forall|i: int| 0 <= i < es.len() implies leaf_entries(page)[i] == es[i] by {
        assert(le16(page, leaf_slot(i)) == es[i].0.len());
    }
    assert(leaf_entries(page) =~= es);
}

/// A slot and its data read the same on two pages that agree on their bytes.
proof fn lemma_leaf_entry_frame(a: Seq<u8>, b: Seq<u8>, i: int)
    requires
        a.len() == PAGE_SIZE,
        b.len() == PAGE_SIZE,
        0 <= i,
        leaf_slot(i) + 6 <= PAGE_SIZE,
        leaf_slot_ok(a, i),
        forall|x: int| leaf_slot(i) <= x < leaf_slot(i) + 6 ==> a[x] == b[x],
        forall|x: int|
            le16(a, leaf_slot(i) + 4) <= x < le16(a, leaf_slot(i) + 4) + le16(a, leaf_slot(i))
                + le16(a, leaf_slot(i) + 2) ==> a[x] == b[x],
    ensures
        le16(a, leaf_slot(i)) == le16(b, leaf_slot(i)),
        le16(a, leaf_slot(i) + 2) == le16(b, leaf_slot(i) + 2),
        le16(a, leaf_slot(i) + 4) == le16(b, leaf_slot(i) + 4),
        leaf_entry(a, i) == leaf_entry(b, i),
{
    assert(leaf_entry(a, i).0 =~= leaf_entry(b, i).0);
    assert(leaf_entry(a, i).1 =~= leaf_entry(b, i).1);
}

/// Writes slot `i` of a leaf page and the entry's bytes at `off`.
fn put_leaf_entry(buf: &mut [u8; PAGE_SIZE], i: usize, off: usize, key: &[u8], value: &[u8])
    requires
        leaf_slot(i as int) + 6 <= off,
        off + key@.len() + value@.len() <= PAGE_SIZE,
    ensures
        le16(final(buf)@, leaf_slot(i as int)) == key@.len(),
        le16(final(buf)@, leaf_slot(i as int) + 2) == value@.len(),
        le16(final(buf)@, leaf_slot(i as int) + 4) == off,
        leaf_entry(final(buf)@, i as int) == (key@, value@),
        forall|x: int|
            0 <= x < PAGE_SIZE && !(leaf_slot(i as int) <= x < leaf_slot(i as int) + 6) && !(off
                <= x < off + key@.len() + value@.len()) ==> final(buf)@[x] == old(buf)@[x],
{
    assert(key.len() == key@.len() && value.len() == value@.len());
    write_bytes(buf, off, key);
    let ghost one = buf@;
    write_bytes(buf, off + key.len(), value);
    let ghost two = buf@;
    let slot_off: usize = LEAF_SLOTS_OFFSET + i * LEAF_SLOT_SIZE;
    write_u16(buf, slot_off, key.len() as u16);
    let ghost three = buf@;
    write_u16(buf, slot_off + 2, value.len() as u16);
    let ghost four = buf@;
    write_u16(buf, slot_off + 4, off as u16);
    proof {
        assert(le16(four, slot_off as int) == le16(three, slot_off as int));
        assert(le16(buf@, slot_off as int) == le16(four, slot_off as int));
        assert(le16(buf@, slot_off + 2) == le16(four, slot_off + 2));
        assert(leaf_entry(buf@, i as int).0 =~= one.subrange(off as int, off + key@.len()));
        assert(leaf_entry(buf@, i as int).1 =~= two.subrange(
            off + key@.len(),
            off + key@.len() + value@.len(),
        ));
    }
}

/// A key-value entry of a leaf node.
#[derive(Debug, Clone)]
pub struct LeafEntry {
    pub key: Vec<u8>,
    pub value: Vec<u8>,
}

/// In-memory representation of a B+tree leaf node.
#[derive(Debug, Clone)]
pub struct LeafNode {
    pub page_id: PageId,
    pub entries: Vec<LeafEntry>,
}

impl View for LeafNode {
    type V = Seq<(Seq<u8>, Seq<u8>)>;

    open spec fn view(&self) -> Seq<(Seq<u8>, Seq<u8>)> {
        Seq::new(self.entries@.len(), |i: int| (self.entries@[i].key@, self.entries@[i].value@))
    }
}

impl LeafNode {
    /// An empty leaf node for the given page.
    pub fn new(page_id: PageId) -> (r: Self)
        ensures
            r.page_id == page_id,
            r@ == Seq::<(Seq<u8>, Seq<u8>)>::empty(),
    {
        let r = LeafNode { page_id, entries: Vec::new() };
        assert(r@ =~= Seq::<(Seq<u8>, Seq<u8>)>::empty());
        r
    }

    /// Reads a leaf node from a page buffer. Fails on a page of another type,
    /// and on a slot whose data would lie outside the page.
    pub fn from_page(buf: &[u8; PAGE_SIZE]) -> (r: Result<Self, BTreeError>)
        requires
            header_type(buf@) == PageType::BtreeLeaf ==> leaf_slots_reached(buf@),
        ensures
            match r {
                Ok(node) => leaf_readable(buf@) && node.page_id == header_id(buf@) && node@
                    == leaf_entries(buf@),
                Err(e) => !leaf_readable(buf@) && e == BTreeError::CorruptNode,
            },
    {
        let (pt, page_id) = read_page_header(buf);
        if pt != PageType::BtreeLeaf {
            return Err(BTreeError::CorruptNode);
        }
        let num: usize = read_u16(buf, NUM_OFFSET) as usize;
        let mut entries: Vec<LeafEntry> = Vec::new();
        let mut i: usize = 0;
        while i < num
            invariant
                num == page_count(buf@),
                leaf_slots_reached(buf@),
                leaf_slot(i as int) <= PAGE_SIZE,
                header_type(buf@) == PageType::BtreeLeaf,
                i <= num,
                entries@.len() == i,
                forall|j: int| 0 <= j < i ==> #[trigger] leaf_slot_ok(buf@, j),
                forall|j: int|
                    0 <= j < i ==> (#[trigger] entries@[j].key@, entries@[j].value@) == leaf_entry(
                        buf@,
                        j,
                    ),
            decreases num - i,
        {
            let slot_off: usize = LEAF_SLOTS_OFFSET + i * LEAF_SLOT_SIZE;
            assert(slot_off == leaf_slot(i as int));
            assert(leaf_slots_ok(buf@, i as int));
            let key_len: usize = read_u16(buf, slot_off) as usize;
            let val_len: usize = read_u16(buf, slot_off + 2) as usize;
            let data_off: usize = read_u16(buf, slot_off + 4) as usize;
            if data_off + key_len + val_len > PAGE_SIZE {
                assert(!leaf_slot_ok(buf@, i as int));
                return Err(BTreeError::CorruptNode);
            }
            let key = page_slice(buf, data_off, data_off + key_len);
            let value = page_slice(buf, data_off + key_len, data_off + key_len + val_len);
            entries.push(LeafEntry { key, value });
            i = i + 1;
        }
        let node = LeafNode { page_id, entries };
        assert(node@ =~= leaf_entries(buf@));
        Ok(node)
    }

    /// Writes this leaf node into a page buffer.
    pub fn to_page(&self) -> (r: [u8; PAGE_SIZE])
        requires
            leaf_fits(self@),
        ensures
            is_leaf_page(r@, self.page_id, self@),
            leaf_readable(r@),
            header_id(r@) == self.page_id,
            leaf_entries(r@) == self@,
    {
        let mut buf: [u8; PAGE_SIZE] = [0u8;PAGE_SIZE];
        write_page_header(&mut buf, PageType::BtreeLeaf, self.page_id);
        proof {
            lemma_data_len_mono(self@, 0, self@.len() as int);
            assert(self@.take(self@.len() as int) =~= self@);
            assert(self@.take(0) =~= Seq::empty());
        }
        let num: u16 = self.entries.len() as u16;
        write_u16(&mut buf, NUM_OFFSET, num);
        let mut data_cursor: usize = PAGE_SIZE;
        let mut i: usize = 0;
        let ghost es = self@;
        while i < self.entries.len()
            invariant
                es == self@,
                leaf_fits(es),
                i <= self.entries@.len(),
                data_cursor == PAGE_SIZE - data_len(es.take(i as int)),
                data_len(es.take(i as int)) <= data_len(es),
                buf@[0] == 3,
                le32(buf@, 1) == self.page_id.0,
                page_count(buf@) == es.len(),
                forall|j: int|
                    0 <= j < i ==> {
                        &&& le16(buf@, #[trigger] leaf_slot(j)) == es[j].0.len()
                        &&& le16(buf@, leaf_slot(j) + 2) == es[j].1.len()
                        &&& le16(buf@, leaf_slot(j) + 4) == PAGE_SIZE - data_len(es.take(j + 1))
                        &&& leaf_entry(buf@, j) == es[j]
                    },
                forall|x: int| leaf_slot(i as int) <= x < data_cursor ==> buf@[x] == 0,
            decreases self.entries@.len() - i,
        {
            let entry = &self.entries[i];
            proof {
                lemma_data_len_step(es, i as int);
                lemma_data_len_mono(es, 0, i as int);
                lemma_data_len_mono(es, i + 1, es.len() as int);
                assert(es.take(es.len() as int) =~= es);
                assert(es[i as int] == (entry.key@, entry.value@));
            }
            let total: usize = entry.key.len() + entry.value.len();
            data_cursor = data_cursor - total;
            let ghost before = buf@;
            put_leaf_entry(&mut buf, i, data_cursor, entry.key.as_slice(), entry.value.as_slice());
            proof {
                assert forall|j: int| 0 <= j <= i implies {
                    &&& le16(buf@, #[trigger] leaf_slot(j)) == es[j].0.len()
                    &&& le16(buf@, leaf_slot(j) + 2) == es[j].1.len()
                    &&& le16(buf@, leaf_slot(j) + 4) == PAGE_SIZE - data_len(es.take(j + 1))
                    &&& leaf_entry(buf@, j) == es[j]
                } by {
                    if j < i {
                        assert(le16(before, leaf_slot(j)) == es[j].0.len());
                        lemma_data_len_step(es, j);
                        lemma_data_len_mono(es, 0, j);
                        lemma_data_len_mono(es, j + 1, i as int);
                        lemma_leaf_entry_frame(before, buf@, j);
                    }
                }
            }
            i = i + 1;
        }
        let ghost before = buf@;
        write_u16(&mut buf, DATA_END_OFFSET, data_cursor as u16);
        proof {
            assert(es.take(es.len() as int) =~= es);
            assert forall|j: int| 0 <= j < es.len() implies {
                &&& le16(buf@, #[trigger] leaf_slot(j)) == es[j].0.len()
                &&& le16(buf@, leaf_slot(j) + 2) == es[j].1.len()
                &&& le16(buf@, leaf_slot(j) + 4) == PAGE_SIZE - data_len(es.take(j + 1))
                &&& leaf_entry(buf@, j) == es[j]
            } by {
                assert(le16(before, leaf_slot(j)) == es[j].0.len());
                lemma_data_len_step(es, j);
                lemma_data_len_mono(es, 0, j);
                lemma_data_len_mono(es, j + 1, es.len() as int);
                lemma_leaf_entry_frame(before, buf@, j);
            }
            reveal(is_leaf_page);
            lemma_leaf_page_round_trip(buf@, self.page_id, es);
        }
        buf
    }

    /// The number of free bytes available for new entries.
    pub fn free_space(&self) -> (r: usize)
        requires
            data_len(self@) <= PAGE_SIZE,
            LEAF_SLOTS_OFFSET + LEAF_SLOT_SIZE * self@.len() <= usize::MAX,
        ensures
            leaf_fits(self@) ==> r == PAGE_SIZE - data_len(self@) - LEAF_SLOTS_OFFSET
                - LEAF_SLOT_SIZE * self@.len(),
            !leaf_fits(self@) ==> r == 0,
    {
        let slot_end: usize = LEAF_SLOTS_OFFSET + self.entries.len() * LEAF_SLOT_SIZE;
        let data_start: usize = self.data_area_end();
        if data_start > slot_end {
            data_start - slot_end
        } else {
            0
        }
    }

    /// Space needed to insert a key-value pair.
    pub fn space_needed(key_len: usize, val_len: usize) -> (r: usize)
        requires
            LEAF_SLOT_SIZE + key_len + val_len <= usize::MAX,
        ensures
            r == LEAF_SLOT_SIZE + key_len + val_len,
    {
        LEAF_SLOT_SIZE + key_len + val_len
    }

    /// Whether this node can fit another entry with the given key and value sizes.
    pub fn can_fit(&self, key_len: usize, val_len: usize) -> (r: bool)
        requires
            data_len(self@) <= PAGE_SIZE,
            LEAF_SLOTS_OFFSET + LEAF_SLOT_SIZE * self@.len() <= usize::MAX,
            LEAF_SLOT_SIZE + key_len + val_len <= usize::MAX,
        ensures
            r <==> LEAF_SLOTS_OFFSET + LEAF_SLOT_SIZE * (self@.len() + 1) + data_len(self@)
                + key_len + val_len <= PAGE_SIZE,
    {
        self.free_space() >= Self::space_needed(key_len, val_len)
    }

    /// Binary search for a key: `Ok` with its index, or `Err` with the place
    /// where it belongs.
    pub fn search(&self, key: &[u8]) -> (r: Result<usize, usize>)
        ensures
            match r {
                Ok(i) => i < self@.len() && self@[i as int].0 == key@,
                Err(i) => i <= self@.len(),
            },
            sorted_keys(keys_of(self@)) ==> match r {
                Ok(i) => i == lower_bound(keys_of(self@), key@),
                Err(i) => i == lower_bound(keys_of(self@), key@) && (i < self@.len() ==> self@[
                    i as int].0 != key@),
            },
    {
        let mut lo: usize = 0;
        let mut hi: usize = self.entries.len();
        let ghost keys = keys_of(self@);
        while lo < hi
            invariant
                lo <= hi <= self.entries@.len(),
                keys == keys_of(self@),
                sorted_keys(keys) ==> forall|j: int| 0 <= j < lo ==> #[trigger] key_lt(keys[j], key@),
                sorted_keys(keys) ==> forall|j: int|
                    hi <= j < keys.len() ==> #[trigger] key_lt(key@, keys[j]),
            decreases hi - lo,
        {
            let mid: usize = lo + (hi - lo) / 2;
            assert(keys[mid as int] == self.entries@[mid as int].key@);
            match compare_keys(self.entries[mid].key.as_slice(), key) {
                KeyOrder::Equal => {
                    proof {
                        if sorted_keys(keys) {
                            lemma_key_irreflexive(key@);
                            assert forall|j: int| 0 <= j < mid implies #[trigger] key_lt(
                                keys[j],
                                key@,
                            ) by {
                                assert(key_lt(keys[j], keys[mid as int]));
                            }
                            lemma_lower_bound_unique(keys, key@, mid as int);
                        }
                    }
                    return Ok(mid);
                },
                KeyOrder::Less => {
                    proof {
                        if sorted_keys(keys) {
                            assert forall|j: int| 0 <= j < mid + 1 implies #[trigger] key_lt(
                                keys[j],
                                key@,
                            ) by {
                                if j < mid {
                                    assert(key_lt(keys[j], keys[mid as int]));
                                    lemma_key_transitive(keys[j], keys[mid as int], key@);
                                }
                            }
                        }
                    }
                    lo = mid + 1;
                },
                KeyOrder::Greater => {
                    proof {
                        if sorted_keys(keys) {
                            assert forall|j: int| mid <= j < keys.len() implies #[trigger] key_lt(
                                key@,
                                keys[j],
                            ) by {
                                if j > mid {
                                    assert(key_lt(keys[mid as int], keys[j]));
                                    lemma_key_transitive(key@, keys[mid as int], keys[j]);
                                }
                            }
                        }
                    }
                    hi = mid;
                },
            }
        }
        proof {
            if sorted_keys(keys) {
                if lo < keys.len() {
                    assert(key_lt(key@, keys[lo as int]));
                    lemma_key_asymmetric(key@, keys[lo as int]);
                }
                lemma_lower_bound_unique(keys, key@, lo as int);
            }
        }
        Err(lo)
    }

    /// Inserts or updates a key-value pair, keeping the entries sorted. Does
    /// not look at the free space.
    pub fn upsert(&mut self, key: &[u8], value: &[u8])
        ensures
            final(self).page_id == old(self).page_id,
            sorted_keys(keys_of(old(self)@)) ==> final(self)@ == upserted(
                old(self)@,
                key@,
                value@,
            ),
    {
        let ghost before = self@;
        match self.search(key) {
            Ok(i) => {
                let entry = LeafEntry { key: copy_bytes(key), value: copy_bytes(value) };
                self.entries[i] = entry;
                assert(self@ =~= before.update(i as int, (key@, value@)));
            },
            Err(i) => {
                let entry = LeafEntry { key: copy_bytes(key), value: copy_bytes(value) };
                self.entries.insert(i, entry);
                assert(self@ =~= before.insert(i as int, (key@, value@)));
            },
        }
    }

    /// Moves the entries from `mid` on into a new right neighbour and hands
    /// that out with the separator, its first key.
    pub fn split_at(&mut self, mid: usize, new_page_id: PageId) -> (r: (LeafNode, Vec<u8>))
        requires
            mid < old(self)@.len(),
        ensures
            final(self).page_id == old(self).page_id,
            final(self)@ == old(self)@.take(mid as int),
            r.0.page_id == new_page_id,
            r.0@ == old(self)@.skip(mid as int),
            r.1@ == old(self)@[mid as int].0,
    {
        let ghost before = self@;
        let right_entries = self.entries.split_off(mid);
        let sep = copy_bytes(right_entries[0].key.as_slice());
        let right = LeafNode { page_id: new_page_id, entries: right_entries };
        assert(self@ =~= before.take(mid as int));
        assert(right@ =~= before.skip(mid as int));
        assert(right@[0] == before[mid as int]);
        (right, sep)
    }

    /// Splits this node in half by number of entries, returning the new right
    /// leaf and the separator key, its first key.
    pub fn split(&mut self, new_page_id: PageId) -> (r: (LeafNode, Vec<u8>))
        requires
            old(self)@.len() > 0,
        ensures
            final(self).page_id == old(self).page_id,
            final(self)@ == old(self)@.take(old(self)@.len() as int / 2),
            r.0.page_id == new_page_id,
            r.0@ == old(self)@.skip(old(self)@.len() as int / 2),
            r.1@ == old(self)@[old(self)@.len() as int / 2].0,
    {
        let mid: usize = self.entries.len() / 2;
        self.split_at(mid, new_page_id)
    }

    /// Deletes an entry by key. Returns true if it was found and removed.
    pub fn delete(&mut self, key: &[u8]) -> (r: bool)
        ensures
            final(self).page_id == old(self).page_id,
            sorted_keys(keys_of(old(self)@)) ==> final(self)@ == removed(old(self)@, key@),
            sorted_keys(keys_of(old(self)@)) ==> (r <==> keys_of(old(self)@).contains(key@)),
            !r ==> final(self)@ == old(self)@,
    {
        let ghost before = self@;
        let ghost keys = keys_of(before);
        if let Ok(i) = self.search(key) {
            let _ = self.entries.remove(i);
            assert(self@ =~= before.remove(i as int));
            assert(keys[i as int] == key@);
            true
        } else {
            proof {
                if sorted_keys(keys) {
                    lemma_not_in_sorted(keys, key@);
                }
            }
            false
        }
    }

    /// Bytes that the first `n` entries take with their slots.
    fn prefix_used(&self, n: usize) -> (r: usize)
        requires
            n <= self@.len(),
            LEAF_SLOT_SIZE * self@.len() + data_len(self@) <= 10000,
        ensures
            r == LEAF_SLOT_SIZE * n + data_len(self@.take(n as int)),
    {
        let mut used: usize = 0;
        let mut i: usize = 0;
        assert(self@.take(0) =~= Seq::empty());
        while i < n
            invariant
                i <= n <= self.entries@.len(),
                LEAF_SLOT_SIZE * self@.len() + data_len(self@) <= 10000,
                used == LEAF_SLOT_SIZE * i + data_len(self@.take(i as int)),
            decreases n - i,
        {
            proof {
                lemma_data_len_step(self@, i as int);
                lemma_data_len_mono(self@, 0, i as int);
                lemma_data_len_mono(self@, i + 1, self@.len() as int);
                assert(self@.take(self@.len() as int) =~= self@);
            }
            used = used + (LEAF_SLOT_SIZE + self.entries[i].key.len() + self.entries[i].value.len());
            i = i + 1;
        }
        used
    }

    /// Whether this node fits in one page.
    pub fn fits(&self) -> (r: bool)
        requires
            LEAF_SLOT_SIZE * self@.len() + data_len(self@) <= 10000,
        ensures
            r == leaf_fits(self@),
    {
        assert(self@.take(self@.len() as int) =~= self@);
        LEAF_SLOTS_OFFSET + self.prefix_used(self.entries.len()) <= PAGE_SIZE
    }

    /// Where to split a node that has grown past its page: in half by number
    /// of entries where both halves then fit, else after as many entries as fit.
    pub fn split_point(&self) -> (p: usize)
        requires
            !leaf_fits(self@),
            LEAF_SLOT_SIZE * self@.len() + data_len(self@) <= 6093,
            forall|i: int|
                0 <= i < self@.len() ==> (#[trigger] self@[i]).0.len() + self@[i].1.len() <= 2000,
        ensures
            0 < p < self@.len(),
            leaf_fits(self@.take(p as int)),
            leaf_fits(self@.skip(p as int)),
            leaf_fits(self@.take(self@.len() as int / 2)) && leaf_fits(
                self@.skip(self@.len() as int / 2),
            ) ==> p == self@.len() / 2,
    {
        let ghost es = self@;
        let n: usize = self.entries.len();
        let total: usize = self.prefix_used(n);
        assert(es.take(n as int) =~= es);
        let mid: usize = n / 2;
        let left: usize = self.prefix_used(mid);
        proof {
            assert(es.take(mid as int) + es.skip(mid as int) =~= es);
            lemma_data_len_concat(es.take(mid as int), es.skip(mid as int));
            lemma_data_len_mono(es, mid as int, n as int);
            lemma_data_len_mono(es, 0, mid as int);
        }
        if left <= 4087 && total - left <= 4087 && mid > 0 {
            return mid;
        }
        let mut p: usize = 0;
        assert(es.take(0) =~= Seq::empty());
        while self.prefix_used(p + 1) <= 4087
            invariant
                es == self@,
                n == es.len(),
                n == self.entries@.len(),
                total == LEAF_SLOT_SIZE * n + data_len(es),
                4087 < total <= 6093,
                p < n,
                LEAF_SLOT_SIZE * p + data_len(es.take(p as int)) <= 4087,
            decreases n - p,
        {
            assert(es.take(n as int) =~= es);
            p = p + 1;
        }
        proof {
            assert(es[p as int].0.len() + es[p as int].1.len() <= 2000);
            lemma_data_len_step(es, p as int);
            assert(es.take(p as int) + es.skip(p as int) =~= es);
            lemma_data_len_concat(es.take(p as int), es.skip(p as int));
            assert(p > 0) by {
                if p == 0 {
                    assert(es.take(0) =~= Seq::empty());
                }
            }
        }
        p
    }

    fn data_area_end(&self) -> (r: usize)
        requires
            data_len(self@) <= PAGE_SIZE,
        ensures
            r == PAGE_SIZE - data_len(self@),
    {
        let mut used: usize = 0;
        let mut i: usize = 0;
        assert(self@.take(0) =~= Seq::empty());
        while i < self.entries.len()
            invariant
                i <= self.entries@.len(),
                data_len(self@) <= PAGE_SIZE,
                used == data_len(self@.take(i as int)),
                used <= PAGE_SIZE,
            decreases self.entries@.len() - i,
        {
            proof {
                lemma_data_len_step(self@, i as int);
                lemma_data_len_mono(self@, i + 1, self@.len() as int);
                assert(self@.take(self@.len() as int) =~= self@);
            }
            used = used + (self.entries[i].key.len() + self.entries[i].value.len());
            i = i + 1;
        }
        assert(self@.take(self@.len() as int) =~= self@);
        PAGE_SIZE - used
    }
}

/// Where the key at its lower bound is not the one sought, it is nowhere.
pub proof fn lemma_not_in_sorted(keys: Seq<Seq<u8>>, key: Seq<u8>)
    requires
        sorted_keys(keys),
        lower_bound(keys, key) < keys.len() ==> keys[lower_bound(keys, key)] != key,
    ensures
        !keys.contains(key),
{
    lemma_lower_bound(keys, key);
    lemma_key_irreflexive(key);
    if keys.contains(key) {
        let j = keys.index_of(key);
        let b = lower_bound(keys, key);
        if j < b {
            assert(key_lt(keys[j], key));
        } else if j > b {
            assert(key_lt(key, keys[j]));
        }
    }
}

// ---------------------------------------------------------------------------
// Internal nodes
// ---------------------------------------------------------------------------

/// Bytes that a sequence of keys takes.
pub open spec fn keys_len(keys: Seq<Seq<u8>>) -> int
    decreases keys.len(),
{
    if keys.len() == 0 {
        0
    } else {
        keys_len(keys.drop_last()) + keys.last().len()
    }
}

/// Whether an internal node with these keys fits in one page.
pub open spec fn internal_fits(keys: Seq<Seq<u8>>) -> bool {
    INTERNAL_SLOTS_OFFSET + INTERNAL_SLOT_SIZE * keys.len() + keys_len(keys) <= PAGE_SIZE
}

pub proof fn lemma_keys_len_step(keys: Seq<Seq<u8>>, i: int)
    requires
        0 <= i < keys.len(),
    ensures
        keys_len(keys.take(i + 1)) == keys_len(keys.take(i)) + keys[i].len(),
{
    assert(keys.take(i + 1).drop_last() =~= keys.take(i));
}

pub proof fn lemma_keys_len_mono(keys: Seq<Seq<u8>>, i: int, j: int)
    requires
        0 <= i <= j <= keys.len(),
    ensures
        0 <= keys_len(keys.take(i)) <= keys_len(keys.take(j)),
    decreases j,
{
    if i < j {
        lemma_keys_len_mono(keys, i, j - 1);
        lemma_keys_len_step(keys, j - 1);
    } else if i > 0 {
        lemma_keys_len_mono(keys, i - 1, i - 1);
        lemma_keys_len_step(keys, i - 1);
    } else {
        assert(keys.take(0).len() == 0);
    }
}

pub proof fn lemma_keys_len_concat(a: Seq<Seq<u8>>, b: Seq<Seq<u8>>)
    ensures
        keys_len(a + b) == keys_len(a) + keys_len(b),
    decreases b.len(),
{
    if b.len() == 0 {
        assert(a + b =~= a);
    } else {
        assert((a + b).drop_last() =~= a + b.drop_last());
        lemma_keys_len_concat(a, b.drop_last());
    }
}

/// Where slot `i` of an internal page starts.
pub open spec fn internal_slot(i: int) -> int {
    INTERNAL_SLOTS_OFFSET + i * INTERNAL_SLOT_SIZE
}

/// Whether the key of slot `i` of an internal page lies inside the page.
pub open spec fn internal_slot_ok(page: Seq<u8>, i: int) -> bool {
    le16(page, internal_slot(i)) + le16(page, internal_slot(i) + 2) <= PAGE_SIZE
}

/// The key that slot `i` of an internal page points to.
pub open spec fn internal_key(page: Seq<u8>, i: int) -> Seq<u8> {
    let key_len = le16(page, internal_slot(i));
    let off = le16(page, internal_slot(i) + 2);
    page.subrange(off, off + key_len)
}

/// Child `i` of an internal page; the last one stands apart from the slots.
pub open spec fn internal_kid(page: Seq<u8>, i: int) -> PageId {
    if i < page_count(page) {
        PageId(le32(page, internal_slot(i) + 4) as u32)
    } else {
        PageId(le32(page, INTERNAL_RIGHT_CHILD_OFFSET as int) as u32)
    }
}

/// Whether the slot array of an internal page ends inside the page.
pub open spec fn internal_slots_fit(page: Seq<u8>) -> bool {
    internal_slot(page_count(page)) <= PAGE_SIZE
}

/// Whether the keys of the first `i` slots of an internal page lie inside the
/// page.
pub open spec fn internal_slots_ok(page: Seq<u8>, i: int) -> bool {
    forall|j: int| 0 <= j < i ==> #[trigger] internal_slot_ok(page, j)
}

/// Whether the slots of an internal page lie inside the page, up to the first
/// whose key does not.
pub open spec fn internal_slots_reached(page: Seq<u8>) -> bool {
    forall|i: int|
        0 <= i < page_count(page) && #[trigger] internal_slots_ok(page, i) ==> internal_slot(i + 1)
            <= PAGE_SIZE
}

/// Whether a page can be read as an internal node.
pub open spec fn internal_readable(page: Seq<u8>) -> bool {
    &&& header_type(page) == PageType::BtreeInternal
    &&& internal_slots_fit(page)
    &&& forall|i: int| 0 <= i < page_count(page) ==> #[trigger] internal_slot_ok(page, i)
}

/// The keys of an internal page.
pub open spec fn internal_keys(page: Seq<u8>) -> Seq<Seq<u8>> {
    Seq::new(page_count(page) as nat, |i: int| internal_key(page, i))
}

/// The children of an internal page, one more than it has keys.
pub open spec fn internal_kids(page: Seq<u8>) -> Seq<PageId> {
    Seq::new((page_count(page) + 1) as nat, |i: int| internal_kid(page, i))
}

/// The exact bytes of an internal page, laid out as a leaf page is.
#[verifier::opaque]
pub open spec fn is_internal_page(
    page: Seq<u8>,
    id: PageId,
    keys: Seq<Seq<u8>>,
    kids: Seq<PageId>,
) -> bool {
    &&& page.len() == PAGE_SIZE
    &&& kids.len() == keys.len() + 1
    &&& page[0] == 2
    &&& le32(page, 1) == id.0
    &&& page_count(page) == keys.len()
    &&& le16(page, DATA_END_OFFSET as int) == PAGE_SIZE - keys_len(keys)
    &&& le32(page, INTERNAL_RIGHT_CHILD_OFFSET as int) == kids.last().0
    &&& forall|i: int|
        0 <= i < keys.len() ==> {
            &&& le16(page, #[trigger] internal_slot(i)) == keys[i].len()
            &&& le16(page, internal_slot(i) + 2) == PAGE_SIZE - keys_len(keys.take(i + 1))
            &&& le32(page, internal_slot(i) + 4) == kids[i].0
            &&& internal_key(page, i) == keys[i]
        }
    &&& forall|x: int|
        internal_slot(keys.len() as int) <= x < PAGE_SIZE - keys_len(keys) ==> page[x] == 0
}

proof fn lemma_internal_page_header(
    page: Seq<u8>,
    id: PageId,
    keys: Seq<Seq<u8>>,
    kids: Seq<PageId>,
)
    requires
        is_internal_page(page, id, keys, kids),
        internal_fits(keys),
    ensures
        page_count(page) == keys.len(),
        kids.len() == keys.len() + 1,
        header_type(page) == PageType::BtreeInternal,
        header_id(page) == id,
        internal_slots_fit(page),
        internal_kid(page, keys.len() as int) == kids.last(),
{
    reveal(is_internal_page);
    lemma_keys_len_mono(keys, 0, keys.len() as int);
    assert(keys.take(keys.len() as int) =~= keys);
}

proof fn lemma_internal_page_entry(
    page: Seq<u8>,
    id: PageId,
    keys: Seq<Seq<u8>>,
    kids: Seq<PageId>,
    i: int,
)
    requires
        is_internal_page(page, id, keys, kids),
        internal_fits(keys),
        0 <= i < keys.len(),
    ensures
        internal_slot_ok(page, i),
        internal_key(page, i) == keys[i],
        internal_kid(page, i) == kids[i],
{
    reveal(is_internal_page);
    assert(le16(page, internal_slot(i)) == keys[i].len());
    lemma_keys_len_step(keys, i);
    lemma_keys_len_mono(keys, 0, i);
    lemma_keys_len_mono(keys, i + 1, keys.len() as int);
    assert(keys.take(keys.len() as int) =~= keys);
}

/// An internal page reads back as exactly the node that was written.
pub proof fn lemma_internal_page_round_trip(
    page: Seq<u8>,
    id: PageId,
    keys: Seq<Seq<u8>>,
    kids: Seq<PageId>,
)
    requires
        is_internal_page(page, id, keys, kids),
        internal_fits(keys),
    ensures
        internal_readable(page),
        header_id(page) == id,
        internal_keys(page) == keys,
        internal_kids(page) == kids,
{
    lemma_internal_page_header(page, id, keys, kids);
    assert forall|i: int| 0 <= i < page_count(page) implies #[trigger] internal_slot_ok(
        page,
        i,
    ) by {
        lemma_internal_page_entry(page, id, keys, kids, i);
    }
    assert forall|i: int| 0 <= i < keys.len() implies internal_keys(page)[i] == keys[i] by {
        lemma_internal_page_entry(page, id, keys, kids, i);
    }
    assert forall|i: int| 0 <= i < kids.len() implies internal_kids(page)[i] == kids[i] by {
        if i < keys.len() {
            lemma_internal_page_entry(page, id, keys, kids, i);
        }
    }
    assert(internal_keys(page) =~= keys);
    assert(internal_kids(page) =~= kids);
}

proof fn lemma_internal_entry_frame(a: Seq<u8>, b: Seq<u8>, i: int)
    requires
        a.len() == PAGE_SIZE,
        b.len() == PAGE_SIZE,
        0 <= i,
        internal_slot(i) + 8 <= PAGE_SIZE,
        internal_slot_ok(a, i),
        forall|x: int| internal_slot(i) <= x < internal_slot(i) + 8 ==> a[x] == b[x],
        forall|x: int|
            le16(a, internal_slot(i) + 2) <= x < le16(a, internal_slot(i) + 2) + le16(
                a,
                internal_slot(i),
            ) ==> a[x] == b[x],
    ensures
        le16(a, internal_slot(i)) == le16(b, internal_slot(i)),
        le16(a, internal_slot(i) + 2) == le16(b, internal_slot(i) + 2),
        le32(a, internal_slot(i) + 4) == le32(b, internal_slot(i) + 4),
        internal_key(a, i) == internal_key(b, i),
{
    assert(internal_key(a, i) =~= internal_key(b, i));
}

/// Writes slot `i` of an internal page and the key's bytes at `off`.
fn put_internal_entry(buf: &mut [u8; PAGE_SIZE], i: usize, off: usize, key: &[u8], child: PageId)
    requires
        internal_slot(i as int) + 8 <= off,
        off + key@.len() <= PAGE_SIZE,
    ensures
        le16(final(buf)@, internal_slot(i as int)) == key@.len(),
        le16(final(buf)@, internal_slot(i as int) + 2) == off,
        le32(final(buf)@, internal_slot(i as int) + 4) == child.0,
        internal_key(final(buf)@, i as int) == key@,
        forall|x: int|
            0 <= x < PAGE_SIZE && !(internal_slot(i as int) <= x < internal_slot(i as int) + 8)
                && !(off <= x < off + key@.len()) ==> final(buf)@[x] == old(buf)@[x],
{
    assert(key.len() == key@.len());
    write_bytes(buf, off, key);
    let ghost one = buf@;
    let slot_off: usize = INTERNAL_SLOTS_OFFSET + i * INTERNAL_SLOT_SIZE;
    write_u16(buf, slot_off, key.len() as u16);
    let ghost two = buf@;
    write_u16(buf, slot_off + 2, off as u16);
    let ghost three = buf@;
    write_u32(buf, slot_off + 4, child.0);
    proof {
        assert(le16(three, slot_off as int) == le16(two, slot_off as int));
        assert(le16(buf@, slot_off as int) == le16(three, slot_off as int));
        assert(le16(buf@, slot_off + 2) == le16(three, slot_off + 2));
        assert(internal_key(buf@, i as int) =~= one.subrange(off as int, off + key@.len()));
    }
}

/// Keys that do not fit in one page are at least five.
proof fn lemma_many_keys(keys: Seq<Seq<u8>>)
    requires
        !internal_fits(keys),
        forall|i: int| 0 <= i < keys.len() ==> (#[trigger] keys[i]).len() <= 1000,
    ensures
        keys.len() >= 5,
{
    lemma_keys_len_bound(keys);
}

proof fn lemma_keys_len_bound(keys: Seq<Seq<u8>>)
    requires
        forall|i: int| 0 <= i < keys.len() ==> (#[trigger] keys[i]).len() <= 1000,
    ensures
        keys_len(keys) <= 1000 * keys.len(),
    decreases keys.len(),
{
    if keys.len() > 0 {
        let rest = keys.drop_last();
        assert forall|i: int| 0 <= i < rest.len() implies (#[trigger] rest[i]).len() <= 1000 by {
            assert(rest[i] == keys[i]);
        }
        lemma_keys_len_bound(rest);
        assert(keys[keys.len() - 1].len() <= 1000);
    }
}

/// A key of an internal node and the child to its left.
#[derive(Debug, Clone)]
pub struct InternalEntry {
    pub key: Vec<u8>,
    pub child: PageId,
}

/// In-memory representation of a B+tree internal node.
#[derive(Debug, Clone)]
pub struct InternalNode {
    pub page_id: PageId,
    pub entries: Vec<InternalEntry>,
    pub right_child: PageId,
}

impl InternalNode {
    /// The separator keys.
    pub open spec fn keys(&self) -> Seq<Seq<u8>> {
        Seq::new(self.entries@.len(), |i: int| self.entries@[i].key@)
    }

    /// The children, one more than there are keys.
    pub open spec fn kids(&self) -> Seq<PageId> {
        Seq::new(
            self.entries@.len() + 1,
            |i: int|
                if i < self.entries@.len() {
                    self.entries@[i].child
                } else {
                    self.right_child
                },
        )
    }

    /// An internal node with a single separator key and two children.
    pub fn new(page_id: PageId, left: PageId, key: Vec<u8>, right: PageId) -> (r: Self)
        ensures
            r.page_id == page_id,
            r.keys() == seq![key@],
            r.kids() == seq![left, right],
    {
        let mut entries: Vec<InternalEntry> = Vec::new();
        entries.push(InternalEntry { key, child: left });
        let r = InternalNode { page_id, entries, right_child: right };
        assert(r.keys() =~= seq![key@]);
        assert(r.kids() =~= seq![left, right]);
        r
    }

    /// Reads an internal node from a page buffer. Fails on a page of another
    /// type, and on a slot whose key would lie outside the page.
    pub fn from_page(buf: &[u8; PAGE_SIZE]) -> (r: Result<Self, BTreeError>)
        requires
            header_type(buf@) == PageType::BtreeInternal ==> internal_slots_reached(buf@),
        ensures
            match r {
                Ok(node) => internal_readable(buf@) && node.page_id == header_id(buf@)
                    && node.keys() == internal_keys(buf@) && node.kids() == internal_kids(buf@),
                Err(e) => !internal_readable(buf@) && e == BTreeError::CorruptNode,
            },
    {
        let (pt, page_id) = read_page_header(buf);
        if pt != PageType::BtreeInternal {
            return Err(BTreeError::CorruptNode);
        }
        let num: usize = read_u16(buf, NUM_OFFSET) as usize;
        let right_child = PageId(read_u32(buf, INTERNAL_RIGHT_CHILD_OFFSET));
        let mut entries: Vec<InternalEntry> = Vec::new();
        let mut i: usize = 0;
        while i < num
            invariant
                num == page_count(buf@),
                internal_slots_reached(buf@),
                internal_slot(i as int) <= PAGE_SIZE,
                header_type(buf@) == PageType::BtreeInternal,
                i <= num,
                entries@.len() == i,
                forall|j: int| 0 <= j < i ==> #[trigger] internal_slot_ok(buf@, j),
                forall|j: int|
                    0 <= j < i ==> (#[trigger] entries@[j]).key@ == internal_key(buf@, j)
                        && entries@[j].child == internal_kid(buf@, j),
            decreases num - i,
        {
            let slot_off: usize = INTERNAL_SLOTS_OFFSET + i * INTERNAL_SLOT_SIZE;
            assert(slot_off == internal_slot(i as int));
            assert(internal_slots_ok(buf@, i as int));
            let key_len: usize = read_u16(buf, slot_off) as usize;
            let data_off: usize = read_u16(buf, slot_off + 2) as usize;
            let child = PageId(read_u32(buf, slot_off + 4));
            if data_off + key_len > PAGE_SIZE {
                assert(!internal_slot_ok(buf@, i as int));
                return Err(BTreeError::CorruptNode);
            }
            let key = page_slice(buf, data_off, data_off + key_len);
            entries.push(InternalEntry { key, child });
            i = i + 1;
        }
        let node = InternalNode { page_id, entries, right_child };
        assert(node.keys() =~= internal_keys(buf@));
        assert(node.kids() =~= internal_kids(buf@));
        Ok(node)
    }

    /// Writes this internal node into a page buffer.
    pub fn to_page(&self) -> (r: [u8; PAGE_SIZE])
        requires
            internal_fits(self.keys()),
        ensures
            is_internal_page(r@, self.page_id, self.keys(), self.kids()),
            internal_readable(r@),
            header_id(r@) == self.page_id,
            internal_keys(r@) == self.keys(),
            internal_kids(r@) == self.kids(),
    {
        let mut buf: [u8; PAGE_SIZE] = [0u8;PAGE_SIZE];
        write_page_header(&mut buf, PageType::BtreeInternal, self.page_id);
        let ghost keys = self.keys();
        let ghost kids = self.kids();
        proof {
            lemma_keys_len_mono(keys, 0, keys.len() as int);
            assert(keys.take(keys.len() as int) =~= keys);
            assert(keys.take(0) =~= Seq::empty());
        }
        let num: u16 = self.entries.len() as u16;
        write_u16(&mut buf, NUM_OFFSET, num);
        write_u32(&mut buf, INTERNAL_RIGHT_CHILD_OFFSET, self.right_child.0);
        let mut data_cursor: usize = PAGE_SIZE;
        let mut i: usize = 0;
        while i < self.entries.len()
            invariant
                keys == self.keys(),
                kids == self.kids(),
                internal_fits(keys),
                i <= self.entries@.len(),
                data_cursor == PAGE_SIZE - keys_len(keys.take(i as int)),
                keys_len(keys.take(i as int)) <= keys_len(keys),
                buf@[0] == 2,
                le32(buf@, 1) == self.page_id.0,
                le32(buf@, INTERNAL_RIGHT_CHILD_OFFSET as int) == self.right_child.0,
                page_count(buf@) == keys.len(),
                forall|j: int|
                    0 <= j < i ==> {
                        &&& le16(buf@, #[trigger] internal_slot(j)) == keys[j].len()
                        &&& le16(buf@, internal_slot(j) + 2) == PAGE_SIZE - keys_len(
                            keys.take(j + 1),
                        )
                        &&& le32(buf@, internal_slot(j) + 4) == kids[j].0
                        &&& internal_key(buf@, j) == keys[j]
                    },
                forall|x: int| internal_slot(i as int) <= x < data_cursor ==> buf@[x] == 0,
            decreases self.entries@.len() - i,
        {
            let entry = &self.entries[i];
            proof {
                lemma_keys_len_step(keys, i as int);
                lemma_keys_len_mono(keys, 0, i as int);
                lemma_keys_len_mono(keys, i + 1, keys.len() as int);
                assert(keys.take(keys.len() as int) =~= keys);
                assert(keys[i as int] == entry.key@);
            }
            data_cursor = data_cursor - entry.key.len();
            let ghost before = buf@;
            put_internal_entry(&mut buf, i, data_cursor, entry.key.as_slice(), entry.child);
            proof {
                assert forall|j: int| 0 <= j <= i implies {
                    &&& le16(buf@, #[trigger] internal_slot(j)) == keys[j].len()
                    &&& le16(buf@, internal_slot(j) + 2) == PAGE_SIZE - keys_len(keys.take(j + 1))
                    &&& le32(buf@, internal_slot(j) + 4) == kids[j].0
                    &&& internal_key(buf@, j) == keys[j]
                } by {
                    if j < i {
                        assert(le16(before, internal_slot(j)) == keys[j].len());
                        lemma_keys_len_step(keys, j);
                        lemma_keys_len_mono(keys, 0, j);
                        lemma_keys_len_mono(keys, j + 1, i as int);
                        lemma_internal_entry_frame(before, buf@, j);
                    }
                }
            }
            i = i + 1;
        }
        let ghost before = buf@;
        write_u16(&mut buf, DATA_END_OFFSET, data_cursor as u16);
        proof {
            assert(keys.take(keys.len() as int) =~= keys);
            assert forall|j: int| 0 <= j < keys.len() implies {
                &&& le16(buf@, #[trigger] internal_slot(j)) == keys[j].len()
                &&& le16(buf@, internal_slot(j) + 2) == PAGE_SIZE - keys_len(keys.take(j + 1))
                &&& le32(buf@, internal_slot(j) + 4) == kids[j].0
                &&& internal_key(buf@, j) == keys[j]
            } by {
                assert(le16(before, internal_slot(j)) == keys[j].len());
                lemma_keys_len_step(keys, j);
                lemma_keys_len_mono(keys, 0, j);
                lemma_keys_len_mono(keys, j + 1, keys.len() as int);
                lemma_internal_entry_frame(before, buf@, j);
            }
            reveal(is_internal_page);
            lemma_internal_page_round_trip(buf@, self.page_id, keys, kids);
        }
        buf
    }

    /// Free space available for new keys and slots.
    pub fn free_space(&self) -> (r: usize)
        requires
            keys_len(self.keys()) <= PAGE_SIZE,
            INTERNAL_SLOTS_OFFSET + INTERNAL_SLOT_SIZE * self.keys().len() <= usize::MAX,
        ensures
            internal_fits(self.keys()) ==> r == PAGE_SIZE - keys_len(self.keys())
                - INTERNAL_SLOTS_OFFSET - INTERNAL_SLOT_SIZE * self.keys().len(),
            !internal_fits(self.keys()) ==> r == 0,
    {
        let slot_end: usize = INTERNAL_SLOTS_OFFSET + self.entries.len() * INTERNAL_SLOT_SIZE;
        let data_start: usize = self.data_area_end();
        if data_start > slot_end {
            data_start - slot_end
        } else {
            0
        }
    }

    /// Space needed to insert a key.
    pub fn space_needed(key_len: usize) -> (r: usize)
        requires
            INTERNAL_SLOT_SIZE + key_len <= usize::MAX,
        ensures
            r == INTERNAL_SLOT_SIZE + key_len,
    {
        INTERNAL_SLOT_SIZE + key_len
    }

    /// Whether this node can fit another key.
    pub fn can_fit(&self, key_len: usize) -> (r: bool)
        requires
            keys_len(self.keys()) <= PAGE_SIZE,
            INTERNAL_SLOTS_OFFSET + INTERNAL_SLOT_SIZE * self.keys().len() <= usize::MAX,
            INTERNAL_SLOT_SIZE + key_len <= usize::MAX,
        ensures
            r <==> INTERNAL_SLOTS_OFFSET + INTERNAL_SLOT_SIZE * (self.keys().len() + 1) + keys_len(
                self.keys(),
            ) + key_len <= PAGE_SIZE,
    {
        self.free_space() >= Self::space_needed(key_len)
    }

    /// The child page to follow for a search key, and its index; the index is
    /// the number of entries where it is the rightmost child.
    pub fn find_child(&self, key: &[u8]) -> (r: (PageId, usize))
        ensures
            r.1 == child_index(self.keys(), key@),
            r.1 <= self.keys().len(),
            r.0 == self.kids()[r.1 as int],
    {
        let mut i: usize = 0;
        let ghost keys = self.keys();
        while i < self.entries.len()
            invariant
                i <= self.entries@.len(),
                keys == self.keys(),
                forall|j: int| 0 <= j < i ==> !#[trigger] key_lt(key@, keys[j]),
            decreases self.entries@.len() - i,
        {
            assert(keys[i as int] == self.entries@[i as int].key@);
            if key_less(key, self.entries[i].key.as_slice()) {
                proof {
                    lemma_child_index_unique(keys, key@, i as int);
                }
                return (self.entries[i].child, i);
            }
            i = i + 1;
        }
        proof {
            lemma_child_index_unique(keys, key@, i as int);
        }
        (self.right_child, self.entries.len())
    }

    fn position(&self, key: &[u8]) -> (r: usize)
        ensures
            r <= self.keys().len(),
            sorted_keys(self.keys()) ==> r == lower_bound(self.keys(), key@),
    {
        let mut lo: usize = 0;
        let mut hi: usize = self.entries.len();
        let ghost keys = self.keys();
        while lo < hi
            invariant
                lo <= hi <= self.entries@.len(),
                keys == self.keys(),
                sorted_keys(keys) ==> forall|j: int| 0 <= j < lo ==> #[trigger] key_lt(keys[j], key@),
                sorted_keys(keys) ==> forall|j: int|
                    hi <= j < keys.len() ==> !#[trigger] key_lt(keys[j], key@),
            decreases hi - lo,
        {
            let mid: usize = lo + (hi - lo) / 2;
            assert(keys[mid as int] == self.entries@[mid as int].key@);
            if key_less(self.entries[mid].key.as_slice(), key) {
                proof {
                    if sorted_keys(keys) {
                        assert forall|j: int| 0 <= j < mid + 1 implies #[trigger] key_lt(
                            keys[j],
                            key@,
                        ) by {
                            if j < mid {
                                assert(key_lt(keys[j], keys[mid as int]));
                                lemma_key_transitive(keys[j], keys[mid as int], key@);
                            }
                        }
                    }
                }
                lo = mid + 1;
            } else {
                proof {
                    if sorted_keys(keys) {
                        assert forall|j: int| mid <= j < keys.len() implies !#[trigger] key_lt(
                            keys[j],
                            key@,
                        ) by {
                            if j > mid {
                                assert(key_lt(keys[mid as int], keys[j]));
                                if key_lt(keys[j], key@) {
                                    lemma_key_transitive(keys[mid as int], keys[j], key@);
                                }
                            }
                        }
                    }
                }
                hi = mid;
            }
        }
        proof {
            if sorted_keys(keys) {
                lemma_lower_bound_unique(keys, key@, lo as int);
            }
        }
        lo
    }

    /// Inserts a separator key at its place; `left_child` stands before it and
    /// `right_child` takes the place of the child that stood there.
    pub fn insert_key(&mut self, key: Vec<u8>, left_child: PageId, right_child: PageId)
        ensures
            final(self).page_id == old(self).page_id,
            sorted_keys(old(self).keys()) ==> {
                let pos = lower_bound(old(self).keys(), key@);
                &&& final(self).keys() == old(self).keys().insert(pos, key@)
                &&& final(self).kids() == old(self).kids().update(pos, right_child).insert(
                    pos,
                    left_child,
                )
            },
    {
        let ghost keys = self.keys();
        let ghost kids = self.kids();
        let pos: usize = self.position(key.as_slice());
        let ghost key_view = key@;
        if pos < self.entries.len() {
            let old_key = copy_bytes(self.entries[pos].key.as_slice());
            self.entries[pos] = InternalEntry { key: old_key, child: right_child };
        } else {
            self.right_child = right_child;
        }
        assert(self.keys() =~= keys);
        assert(self.kids() =~= kids.update(pos as int, right_child));
        self.entries.insert(pos, InternalEntry { key, child: left_child });
        assert(self.keys() =~= keys.insert(pos as int, key_view));
        assert(self.kids() =~= kids.update(pos as int, right_child).insert(
            pos as int,
            left_child,
        ));
    }

    /// Moves the keys after `mid` and their children into a new right
    /// neighbour, and hands that out with the key at `mid`, which leaves.
    pub fn split_at(&mut self, mid: usize, new_page_id: PageId) -> (r: (InternalNode, Vec<u8>))
        requires
            mid < old(self).keys().len(),
        ensures
            final(self).page_id == old(self).page_id,
            final(self).keys() == old(self).keys().take(mid as int),
            final(self).kids() == old(self).kids().take(mid + 1),
            r.0.page_id == new_page_id,
            r.0.keys() == old(self).keys().skip(mid + 1),
            r.0.kids() == old(self).kids().skip(mid + 1),
            r.1@ == old(self).keys()[mid as int],
    {
        let ghost keys = self.keys();
        let ghost kids = self.kids();
        assert(mid < self.entries.len());
        let sep_key = copy_bytes(self.entries[mid].key.as_slice());
        let new_left_right_child = self.entries[mid].child;
        let right_entries = self.entries.split_off(mid + 1);
        let _ = self.entries.pop();
        let old_right_child = self.right_child;
        self.right_child = new_left_right_child;
        let right = InternalNode {
            page_id: new_page_id,
            entries: right_entries,
            right_child: old_right_child,
        };
        assert(self.keys() =~= keys.take(mid as int));
        assert(self.kids() =~= kids.take(mid + 1));
        assert(right.keys() =~= keys.skip(mid + 1));
        assert(right.kids() =~= kids.skip(mid + 1));
        (right, sep_key)
    }

    /// Splits this node in half by number of keys. Returns the new right node
    /// and the middle key, which goes up to the parent.
    pub fn split(&mut self, new_page_id: PageId) -> (r: (InternalNode, Vec<u8>))
        requires
            old(self).keys().len() > 0,
        ensures
            final(self).page_id == old(self).page_id,
            final(self).keys() == old(self).keys().take(old(self).keys().len() as int / 2),
            final(self).kids() == old(self).kids().take(old(self).keys().len() as int / 2 + 1),
            r.0.page_id == new_page_id,
            r.0.keys() == old(self).keys().skip(old(self).keys().len() as int / 2 + 1),
            r.0.kids() == old(self).kids().skip(old(self).keys().len() as int / 2 + 1),
            r.1@ == old(self).keys()[old(self).keys().len() as int / 2],
    {
        let mid: usize = self.entries.len() / 2;
        self.split_at(mid, new_page_id)
    }

    /// Bytes that the first `n` keys take with their slots.
    fn prefix_used(&self, n: usize) -> (r: usize)
        requires
            n <= self.keys().len(),
            INTERNAL_SLOT_SIZE * self.keys().len() + keys_len(self.keys()) <= 10000,
        ensures
            r == INTERNAL_SLOT_SIZE * n + keys_len(self.keys().take(n as int)),
    {
        let ghost keys = self.keys();
        let mut used: usize = 0;
        let mut i: usize = 0;
        assert(keys.take(0) =~= Seq::empty());
        while i < n
            invariant
                keys == self.keys(),
                i <= n <= self.entries@.len(),
                INTERNAL_SLOT_SIZE * keys.len() + keys_len(keys) <= 10000,
                used == INTERNAL_SLOT_SIZE * i + keys_len(keys.take(i as int)),
            decreases n - i,
        {
            proof {
                lemma_keys_len_step(keys, i as int);
                lemma_keys_len_mono(keys, 0, i as int);
                lemma_keys_len_mono(keys, i + 1, keys.len() as int);
                assert(keys.take(keys.len() as int) =~= keys);
            }
            used = used + (INTERNAL_SLOT_SIZE + self.entries[i].key.len());
            i = i + 1;
        }
        used
    }

    /// Whether this node fits in one page.
    pub fn fits(&self) -> (r: bool)
        requires
            INTERNAL_SLOT_SIZE * self.keys().len() + keys_len(self.keys()) <= 10000,
        ensures
            r == internal_fits(self.keys()),
    {
        assert(self.keys().take(self.keys().len() as int) =~= self.keys());
        INTERNAL_SLOTS_OFFSET + self.prefix_used(self.entries.len()) <= PAGE_SIZE
    }

    /// Which key to split at in a node that has grown past its page: the
    /// middle one where both halves then fit, else one as far on as fits.
    pub fn split_point(&self) -> (p: usize)
        requires
            !internal_fits(self.keys()),
            INTERNAL_SLOT_SIZE * self.keys().len() + keys_len(self.keys()) <= 5091,
            forall|i: int|
                0 <= i < self.keys().len() ==> (#[trigger] self.keys()[i]).len() <= 1000,
        ensures
            0 < p,
            p + 1 < self.keys().len(),
            internal_fits(self.keys().take(p as int)),
            internal_fits(self.keys().skip(p + 1)),
            internal_fits(self.keys().take(self.keys().len() as int / 2)) && internal_fits(
                self.keys().skip(self.keys().len() as int / 2 + 1),
            ) ==> p == self.keys().len() / 2,
    {
        let ghost keys = self.keys();
        let n: usize = self.entries.len();
        let total: usize = self.prefix_used(n);
        assert(keys.take(n as int) =~= keys);
        proof {
            lemma_many_keys(keys);
        }
        let mid: usize = n / 2;
        let left: usize = self.prefix_used(mid);
        let upto: usize = self.prefix_used(mid + 1);
        proof {
            assert(keys.take(mid + 1) + keys.skip(mid + 1) =~= keys);
            lemma_keys_len_concat(keys.take(mid + 1), keys.skip(mid + 1));
            lemma_keys_len_mono(keys, mid as int, mid + 1);
            lemma_keys_len_mono(keys, mid + 1, n as int);
        }
        if left <= 4083 && total - upto <= 4083 {
            return mid;
        }
        let mut p: usize = 0;
        assert(keys.take(0) =~= Seq::empty());
        while p + 2 < n && self.prefix_used(p + 1) <= 4083
            invariant
                keys == self.keys(),
                n == keys.len(),
                n == self.entries@.len(),
                n >= 5,
                total == INTERNAL_SLOT_SIZE * n + keys_len(keys),
                4083 < total <= 5091,
                p + 2 <= n,
                INTERNAL_SLOT_SIZE * p + keys_len(keys.take(p as int)) <= 4083,
            decreases n - p,
        {
            p = p + 1;
        }
        proof {
            assert(keys[p as int].len() <= 1000);
            lemma_keys_len_step(keys, p as int);
            assert(keys.take(p + 1) + keys.skip(p + 1) =~= keys);
            lemma_keys_len_concat(keys.take(p + 1), keys.skip(p + 1));
            lemma_keys_len_mono(keys, 0, p as int);
            if p + 2 == n {
                assert(keys.skip(p + 1).drop_last() =~= Seq::empty());
                assert(keys.skip(p + 1).last() == keys[p + 1]);
                reveal_with_fuel(keys_len, 2);
            }
            assert(p > 0) by {
                if p == 0 {
                    assert(keys.take(0) =~= Seq::empty());
                }
            }
        }
        p
    }

    fn data_area_end(&self) -> (r: usize)
        requires
            keys_len(self.keys()) <= PAGE_SIZE,
        ensures
            r == PAGE_SIZE - keys_len(self.keys()),
    {
        let ghost keys = self.keys();
        let mut used: usize = 0;
        let mut i: usize = 0;
        assert(keys.take(0) =~= Seq::empty());
        while i < self.entries.len()
            invariant
                i <= self.entries@.len(),
                keys == self.keys(),
                keys_len(keys) <= PAGE_SIZE,
                used == keys_len(keys.take(i as int)),
                used <= PAGE_SIZE,
            decreases self.entries@.len() - i,
        {
            proof {
                lemma_keys_len_step(keys, i as int);
                lemma_keys_len_mono(keys, i + 1, keys.len() as int);
                assert(keys.take(keys.len() as int) =~= keys);
            }
            used = used + self.entries[i].key.len();
            i = i + 1;
        }
        assert(keys.take(keys.len() as int) =~= keys);
        PAGE_SIZE - used
    }
}

} // verus!

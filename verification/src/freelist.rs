//! The freelist: page numbers that can be handed out again, and the chain of
//! pages that keeps them across restarts.

use crate::bytes::{le32, le32_bytes, lemma_le32_round_trip};
use crate::page::{
    read_u32, write_page_header, write_u32, PageId, PageType, PAGE_SIZE,
};
use vstd::prelude::*;

verus! {

broadcast use crate::bytes::group_byte_lengths;

/// Number of page numbers that fit in one chain page, at four bytes each between
/// the pointer to the next chain page and the entry count.
pub const ENTRIES_PER_PAGE: usize = 1020;

/// Number of page numbers that can be read from one chain page before its end.
pub const READABLE_ENTRIES: usize = 1021;

/// Offset of the pointer to the next chain page.
pub const NEXT_OFFSET: usize = 5;

/// Offset of the first entry of a chain page.
pub const ENTRIES_OFFSET: usize = 9;

/// Offset of the entry count, in the last four bytes of a chain page.
pub const COUNT_OFFSET: usize = 4092;

/// Chain pages that `n` entries take.
pub open spec fn chain_len(n: int) -> int {
    (n + ENTRIES_PER_PAGE - 1) / (ENTRIES_PER_PAGE as int)
}

/// The end of chunk `i` of `n` entries.
pub open spec fn chunk_end(n: int, i: int) -> int {
    if (i + 1) * ENTRIES_PER_PAGE <= n {
        (i + 1) * ENTRIES_PER_PAGE
    } else {
        n
    }
}

/// The entries that chain page `i` stores.
pub open spec fn chunk(pages: Seq<PageId>, i: int) -> Seq<PageId> {
    pages.subrange(i * ENTRIES_PER_PAGE, chunk_end(pages.len() as int, i))
}

/// The exact bytes of a chain page.
pub open spec fn is_chain_page(page: Seq<u8>, id: PageId, next: u32, entries: Seq<PageId>) -> bool {
    &&& page.len() == PAGE_SIZE
    &&& page[0] == 1
    &&& le32(page, 1) == id.0
    &&& le32(page, NEXT_OFFSET as int) == next
    &&& forall|j: int, b: int|
        0 <= j < entries.len() && 0 <= b < 4
            ==> page[ENTRIES_OFFSET + 4 * j + b] == #[trigger] le32_bytes(entries[j].0)[b]
    &&& forall|x: int| ENTRIES_OFFSET + 4 * entries.len() <= x < COUNT_OFFSET ==> page[x] == 0
    &&& le32(page, COUNT_OFFSET as int) == entries.len()
}

/// The entries that a chain page is read as.
pub open spec fn chain_entries(page: Seq<u8>) -> Seq<PageId> {
    Seq::new(
        le32(page, COUNT_OFFSET as int) as nat,
        |j: int| PageId(le32(page, ENTRIES_OFFSET + 4 * j) as u32),
    )
}

/// Whether the chain from `head` ends within `n` pages, each with a count that
/// can be read from its page.
pub open spec fn chain_ends(read: spec_fn(PageId) -> Seq<u8>, head: u32, n: nat) -> bool
    decreases n,
{
    head == 0 || (n > 0 && le32(read(PageId(head)), COUNT_OFFSET as int) <= READABLE_ENTRIES
        && chain_ends(read, le32(read(PageId(head)), NEXT_OFFSET as int) as u32, (n - 1) as nat))
}

/// The entries of the chain from `head`, in chain order.
pub open spec fn chain_list(read: spec_fn(PageId) -> Seq<u8>, head: u32, n: nat) -> Seq<PageId>
    decreases n,
{
    if head == 0 || n == 0 {
        Seq::empty()
    } else {
        chain_entries(read(PageId(head))) + chain_list(
            read,
            le32(read(PageId(head)), NEXT_OFFSET as int) as u32,
            (n - 1) as nat,
        )
    }
}

/// Whether `f` takes the number of each page of the chain from `head`, up to
/// `n` of them, and hands out for it the page that `m` says. Of other page
/// numbers, 0 among them, nothing is asked.
pub open spec fn serves<F: FnMut(PageId) -> [u8; PAGE_SIZE]>(
    f: F,
    m: spec_fn(PageId) -> Seq<u8>,
    head: u32,
    n: nat,
) -> bool
    decreases n,
{
    head == 0 || n == 0 || {
        &&& f.requires((PageId(head),))
        &&& forall|p: [u8; PAGE_SIZE]| #[trigger]
            f.ensures((PageId(head),), p) ==> p@ == m(PageId(head))
        &&& serves(f, m, le32(m(PageId(head)), NEXT_OFFSET as int) as u32, (n - 1) as nat)
    }
}

/// Whether `images` are the chain pages of `pages` on the page numbers `ids`.
pub open spec fn is_chain(
    images: Seq<(PageId, Seq<u8>)>,
    ids: Seq<PageId>,
    pages: Seq<PageId>,
) -> bool {
    &&& images.len() == chain_len(pages.len() as int)
    &&& images.len() <= ids.len()
    &&& forall|i: int|
        0 <= i < images.len() ==> (#[trigger] images[i]).0 == ids[i] && is_chain_page(
            images[i].1,
            ids[i],
            if i + 1 < images.len() {
                ids[i + 1].0
            } else {
                0
            },
            chunk(pages, i),
        )
}

/// Page numbers with the bytes of their pages.
pub open spec fn page_views(pages: Seq<(PageId, [u8; PAGE_SIZE])>) -> Seq<(PageId, Seq<u8>)> {
    Seq::new(pages.len(), |i: int| (pages[i].0, pages[i].1@))
}

proof fn lemma_chunk_bounds(n: int, i: int)
    requires
        0 <= n,
        0 <= i < chain_len(n),
    ensures
        0 <= i * ENTRIES_PER_PAGE < chunk_end(n, i) <= n,
        chunk_end(n, i) - i * ENTRIES_PER_PAGE <= ENTRIES_PER_PAGE,
        i + 1 < chain_len(n) ==> chunk_end(n, i) == (i + 1) * ENTRIES_PER_PAGE,
        i + 1 == chain_len(n) ==> chunk_end(n, i) == n,
{
}

proof fn lemma_chain_page_entries(page: Seq<u8>, id: PageId, next: u32, entries: Seq<PageId>)
    requires
        is_chain_page(page, id, next, entries),
        entries.len() <= ENTRIES_PER_PAGE,
    ensures
        chain_entries(page) == entries,
{
    assert forall|j: int| 0 <= j < entries.len() implies chain_entries(page)[j] == entries[j] by {
        let v = entries[j].0;
        let o = ENTRIES_OFFSET + 4 * j;
        lemma_le32_round_trip(v);
        assert(page[o + 0] == le32_bytes(v)[0]);
        assert(page[o + 1] == le32_bytes(v)[1]);
        assert(page[o + 2] == le32_bytes(v)[2]);
        assert(page[o + 3] == le32_bytes(v)[3]);
        assert(le32(page, o) == le32(le32_bytes(v), 0));
    }
    assert(chain_entries(page) =~= entries);
}

/// Restoring a persisted freelist gives back its entries in order.
pub proof fn lemma_freelist_round_trip(
    images: Seq<(PageId, Seq<u8>)>,
    ids: Seq<PageId>,
    pages: Seq<PageId>,
    read: spec_fn(PageId) -> Seq<u8>,
)
    requires
        pages.len() > 0,
        is_chain(images, ids, pages),
        forall|i: int| 0 <= i < images.len() ==> (#[trigger] ids[i]).0 != 0,
        forall|i: int| 0 <= i < images.len() ==> read(#[trigger] ids[i]) == images[i].1,
    ensures
        chain_ends(read, ids[0].0, images.len()),
        chain_list(read, ids[0].0, images.len()) == pages,
{
    lemma_chain_suffix(images, ids, pages, read, 0);
    assert(pages.skip(0) =~= pages);
}

/// A reader that takes just the pages of a persisted freelist, and hands out
/// each as it was persisted, is all that it takes to restore the list: what
/// `restore` gives for it is the same page numbers in the same order.
pub proof fn lemma_persisted_is_restored<F: FnMut(PageId) -> [u8; PAGE_SIZE]>(
    f: F,
    images: Seq<(PageId, Seq<u8>)>,
    ids: Seq<PageId>,
    pages: Seq<PageId>,
) -> (m: spec_fn(PageId) -> Seq<u8>)
    requires
        pages.len() > 0,
        is_chain(images, ids, pages),
        forall|i: int| 0 <= i < images.len() ==> (#[trigger] ids[i]).0 != 0,
        forall|i: int, j: int| 0 <= i < j < images.len() ==> ids[i] != ids[j],
        forall|i: int| 0 <= i < images.len() ==> f.requires((#[trigger] ids[i],)),
        forall|i: int, p: [u8; PAGE_SIZE]|
            0 <= i < images.len() && #[trigger] f.ensures((ids[i],), p) ==> p@ == images[i].1,
    ensures
        serves(f, m, ids[0].0, images.len()),
        chain_ends(m, ids[0].0, images.len()),
        chain_list(m, ids[0].0, images.len()) == pages,
{
    let m = |id: PageId| images[ids.take(images.len() as int).index_of(id)].1;
    let chain = ids.take(images.len() as int);
    assert forall|i: int| 0 <= i < images.len() implies m(#[trigger] ids[i]) == images[i].1 by {
        assert(chain[i] == ids[i]);
        assert(chain.contains(ids[i]));
        let k = chain.index_of(ids[i]);
        assert(chain[k] == ids[i] && 0 <= k < chain.len());
    }
    lemma_freelist_round_trip(images, ids, pages, m);
    lemma_chain_served(f, m, images, ids, pages, 0);
    m
}

proof fn lemma_chain_served<F: FnMut(PageId) -> [u8; PAGE_SIZE]>(
    f: F,
    m: spec_fn(PageId) -> Seq<u8>,
    images: Seq<(PageId, Seq<u8>)>,
    ids: Seq<PageId>,
    pages: Seq<PageId>,
    i: int,
)
    requires
        is_chain(images, ids, pages),
        forall|i: int| 0 <= i < images.len() ==> m(#[trigger] ids[i]) == images[i].1,
        forall|i: int| 0 <= i < images.len() ==> f.requires((#[trigger] ids[i],)),
        forall|i: int, p: [u8; PAGE_SIZE]|
            0 <= i < images.len() && #[trigger] f.ensures((ids[i],), p) ==> p@ == images[i].1,
        0 <= i < images.len(),
    ensures
        serves(f, m, ids[i].0, (images.len() - i) as nat),
    decreases images.len() - i,
{
    let next = if i + 1 < images.len() {
        ids[i + 1].0
    } else {
        0
    };
    assert(images[i].0 == ids[i]);
    assert(PageId(ids[i].0) == ids[i]);
    assert(m(ids[i]) == images[i].1);
    assert(le32(m(PageId(ids[i].0)), NEXT_OFFSET as int) == next);
    reveal_with_fuel(serves, 2);
    assert(f.requires((PageId(ids[i].0),)));
    assert forall|p: [u8; PAGE_SIZE]| #[trigger] f.ensures((PageId(ids[i].0),), p) implies p@ == m(
        PageId(ids[i].0),
    ) by {
        assert(f.ensures((ids[i],), p));
    }
    if i + 1 < images.len() {
        lemma_chain_served(f, m, images, ids, pages, i + 1);
    }
}

proof fn lemma_chain_suffix(
    images: Seq<(PageId, Seq<u8>)>,
    ids: Seq<PageId>,
    pages: Seq<PageId>,
    read: spec_fn(PageId) -> Seq<u8>,
    i: int,
)
    requires
        pages.len() > 0,
        is_chain(images, ids, pages),
        forall|i: int| 0 <= i < images.len() ==> (#[trigger] ids[i]).0 != 0,
        forall|i: int| 0 <= i < images.len() ==> read(#[trigger] ids[i]) == images[i].1,
        0 <= i < images.len(),
    ensures
        chain_ends(read, ids[i].0, (images.len() - i) as nat),
        chain_list(read, ids[i].0, (images.len() - i) as nat) == pages.skip(i * ENTRIES_PER_PAGE),
    decreases images.len() - i,
{
    let n = pages.len() as int;
    lemma_chunk_bounds(n, i);
    let page = images[i].1;
    let part = chunk(pages, i);
    let next = if i + 1 < images.len() {
        ids[i + 1].0
    } else {
        0
    };
    assert(ids[i] == images[i].0);
    assert(PageId(ids[i].0) == ids[i]);
    lemma_chain_page_entries(page, ids[i], next, part);
    reveal_with_fuel(chain_ends, 2);
    reveal_with_fuel(chain_list, 2);
    assert(read(PageId(ids[i].0)) == page);
    assert(le32(page, NEXT_OFFSET as int) == next);
    if i + 1 < images.len() {
        lemma_chain_suffix(images, ids, pages, read, i + 1);
        assert(pages.skip(i * ENTRIES_PER_PAGE) =~= part + pages.skip((i + 1) * ENTRIES_PER_PAGE));
    } else {
        assert(pages.skip(i * ENTRIES_PER_PAGE) =~= part + Seq::<PageId>::empty());
    }
}

/// An in-memory freelist of available page numbers.
#[derive(Debug)]
pub struct FreeList {
    pub pages: Vec<PageId>,
}

impl FreeList {
    /// A freelist with nothing in it.
    pub fn new() -> (r: Self)
        ensures
            r.pages@ == Seq::<PageId>::empty(),
    {
        FreeList { pages: Vec::new() }
    }

    /// Takes the page that was freed last; `None` where the list is empty.
    pub fn alloc_page(&mut self) -> (r: Option<PageId>)
        ensures
            old(self).pages@.len() > 0 ==> r == Some(old(self).pages@.last())
                && final(self).pages@ == old(self).pages@.drop_last(),
            old(self).pages@.len() == 0 ==> r is None && final(self).pages@ == old(self).pages@,
    {
        self.pages.pop()
    }

    /// Returns a page to the freelist.
    pub fn free(&mut self, id: PageId)
        ensures
            final(self).pages@ == old(self).pages@.push(id),
    {
        self.pages.push(id);
    }

    /// Writes the freelist into a chain of pages with the given numbers, and
    /// returns each number with its page.
    pub fn persist(&self, chain_page_ids: &[PageId]) -> (r: Vec<(PageId, [u8; PAGE_SIZE])>)
        requires
            chain_len(self.pages@.len() as int) <= chain_page_ids@.len(),
        ensures
            is_chain(page_views(r@), chain_page_ids@, self.pages@),
    {
        let mut result: Vec<(PageId, [u8; PAGE_SIZE])> = Vec::new();
        let n: usize = self.pages.len();
        let needed: usize = self.chain_pages_needed();
        let mut i: usize = 0;
        while i < needed
            invariant
                n == self.pages@.len(),
                needed == chain_len(n as int),
                needed <= chain_page_ids@.len(),
                i <= needed,
                result@.len() == i,
                forall|k: int|
                    0 <= k < i ==> (#[trigger] result@[k]).0 == chain_page_ids@[k] && is_chain_page(
                        result@[k].1@,
                        chain_page_ids@[k],
                        if k + 1 < needed {
                            chain_page_ids@[k + 1].0
                        } else {
                            0
                        },
                        chunk(self.pages@, k),
                    ),
            decreases needed - i,
        {
            let pid = chain_page_ids[i];
            let next: u32 = if i + 1 < needed {
                chain_page_ids[i + 1].0
            } else {
                0
            };
            proof {
                lemma_chunk_bounds(n as int, i as int);
            }
            let from: usize = i * ENTRIES_PER_PAGE;
            let to: usize = if n - from > ENTRIES_PER_PAGE {
                from + ENTRIES_PER_PAGE
            } else {
                n
            };
            assert(to == chunk_end(n as int, i as int));
            let buf = chain_page(pid, next, &self.pages, from, to);
            assert(self.pages@.subrange(from as int, to as int) == chunk(self.pages@, i as int));
            result.push((pid, buf));
            i = i + 1;
        }
        proof {
            let images = page_views(result@);
            assert forall|i: int| 0 <= i < images.len() implies (#[trigger] images[i]).0
                == chain_page_ids@[i] && is_chain_page(
                images[i].1,
                chain_page_ids@[i],
                if i + 1 < images.len() {
                    chain_page_ids@[i + 1].0
                } else {
                    0
                },
                chunk(self.pages@, i),
            ) by {
                assert(images[i] == (result@[i].0, result@[i].1@));
            }
        }
        result
    }

    /// Restores the freelist by following the chain of pages from `head`;
    /// `read_fn` reads a page by its number, and 0 ends the chain. No page but
    /// those of the chain is read.
    pub fn restore<F: FnMut(PageId) -> [u8; PAGE_SIZE]>(head: PageId, mut read_fn: F) -> (r: Self)
        requires
            exists|m: spec_fn(PageId) -> Seq<u8>, n: nat| #[trigger]
                serves(read_fn, m, head.0, n) && chain_ends(m, head.0, n),
        ensures
            forall|m: spec_fn(PageId) -> Seq<u8>, n: nat| #[trigger]
                serves(read_fn, m, head.0, n) && chain_ends(m, head.0, n) ==> r.pages@
                    == chain_list(m, head.0, n),
    {
        let mut pages: Vec<PageId> = Vec::new();
        let mut current: u32 = head.0;
        let ghost (m0, n0) = choose|m: spec_fn(PageId) -> Seq<u8>, n: nat| #[trigger]
            serves(read_fn, m, head.0, n) && chain_ends(m, head.0, n);
        let ghost mut steps: nat = 0;
        let ghost f = read_fn;
        while current != 0
            invariant
                read_fn == f,
                serves(f, m0, head.0, n0),
                chain_ends(m0, head.0, n0),
                forall|m: spec_fn(PageId) -> Seq<u8>, n: nat| #[trigger]
                    serves(f, m, head.0, n) && chain_ends(m, head.0, n) ==> {
                        &&& steps <= n
                        &&& serves(f, m, current, (n - steps) as nat)
                        &&& chain_ends(m, current, (n - steps) as nat)
                        &&& pages@ + chain_list(m, current, (n - steps) as nat) == chain_list(
                            m,
                            head.0,
                            n,
                        )
                    },
            decreases n0 - steps,
        {
            assert(serves(f, m0, current, (n0 - steps) as nat));
            assert(chain_ends(m0, current, (n0 - steps) as nat));
            let buf = read_fn(PageId(current));
            let next: u32 = read_u32(&buf, NEXT_OFFSET);
            let count: usize = read_u32(&buf, COUNT_OFFSET) as usize;
            let ghost before = pages@;
            assert(buf@ == m0(PageId(current)));
            let mut j: usize = 0;
            while j < count
                invariant
                    count == le32(buf@, COUNT_OFFSET as int),
                    count <= READABLE_ENTRIES,
                    j <= count,
                    pages@ == before + chain_entries(buf@).take(j as int),
                decreases count - j,
            {
                let id: u32 = read_u32(&buf, ENTRIES_OFFSET + 4 * j);
                pages.push(PageId(id));
                j = j + 1;
                assert(pages@ =~= before + chain_entries(buf@).take(j as int));
            }
            proof {
                assert(chain_entries(buf@).take(count as int) =~= chain_entries(buf@));
                assert forall|m: spec_fn(PageId) -> Seq<u8>, n: nat| #[trigger]
                    serves(f, m, head.0, n) && chain_ends(m, head.0, n) implies {
                    &&& steps + 1 <= n
                    &&& serves(f, m, next, (n - (steps + 1)) as nat)
                    &&& chain_ends(m, next, (n - (steps + 1)) as nat)
                    &&& pages@ + chain_list(m, next, (n - (steps + 1)) as nat) == chain_list(
                        m,
                        head.0,
                        n,
                    )
                } by {
                    assert(serves(f, m, current, (n - steps) as nat));
                    assert(buf@ == m(PageId(current)));
                    let rest = chain_list(m, next, (n - (steps + 1)) as nat);
                    assert(pages@ + rest =~= before + (chain_entries(buf@) + rest));
                }
                steps = steps + 1;
            }
            current = next;
        }
        proof {
            assert forall|m: spec_fn(PageId) -> Seq<u8>, n: nat| #[trigger]
                serves(f, m, head.0, n) && chain_ends(m, head.0, n) implies pages@ == chain_list(
                m,
                head.0,
                n,
            ) by {
                assert(pages@ + chain_list(m, 0, (n - steps) as nat) =~= pages@);
            }
        }
        FreeList { pages }
    }

    /// Number of chain pages needed to persist this freelist.
    pub fn chain_pages_needed(&self) -> (r: usize)
        ensures
            r == chain_len(self.pages@.len() as int),
    {
        let n: usize = self.pages.len();
        if n % ENTRIES_PER_PAGE == 0 {
            n / ENTRIES_PER_PAGE
        } else {
            n / ENTRIES_PER_PAGE + 1
        }
    }
}

/// One chain page for the entries `from..to`.
fn chain_page(pid: PageId, next: u32, pages: &Vec<PageId>, from: usize, to: usize) -> (buf: [u8;
    PAGE_SIZE])
    requires
        from <= to <= pages@.len(),
        to - from <= ENTRIES_PER_PAGE,
    ensures
        is_chain_page(buf@, pid, next, pages@.subrange(from as int, to as int)),
{
    let ghost entries = pages@.subrange(from as int, to as int);
    let mut buf: [u8; PAGE_SIZE] = [0u8;PAGE_SIZE];
    write_page_header(&mut buf, PageType::FreeList, pid);
    write_u32(&mut buf, NEXT_OFFSET, next);
    let count: usize = to - from;
    let mut j: usize = 0;
    while j < count
        invariant
            from <= to <= pages@.len(),
            count == to - from,
            count <= ENTRIES_PER_PAGE,
            j <= count,
            entries == pages@.subrange(from as int, to as int),
            buf@[0] == 1,
            le32(buf@, 1) == pid.0,
            le32(buf@, NEXT_OFFSET as int) == next,
            forall|k: int, b: int|
                0 <= k < j && 0 <= b < 4 ==> buf@[ENTRIES_OFFSET + 4 * k + b]
                    == #[trigger] le32_bytes(entries[k].0)[b],
            forall|x: int| ENTRIES_OFFSET + 4 * j <= x < PAGE_SIZE ==> buf@[x] == 0,
        decreases count - j,
    {
        let off: usize = ENTRIES_OFFSET + 4 * j;
        let v: u32 = pages[from + j].0;
        let ghost before = buf@;
        buf[off] = (v % 256) as u8;
        buf[off + 1] = (v / 256 % 256) as u8;
        buf[off + 2] = (v / 65536 % 256) as u8;
        buf[off + 3] = (v / 16777216) as u8;
        proof {
            assert(entries[j as int].0 == v);
            reveal(le32_bytes);
            assert forall|k: int, b: int| 0 <= k < j + 1 && 0 <= b < 4 implies buf@[ENTRIES_OFFSET
                + 4 * k + b] == #[trigger] le32_bytes(entries[k].0)[b] by {
                if k < j {
                    assert(before[ENTRIES_OFFSET + 4 * k + b] == le32_bytes(entries[k].0)[b]);
                }
            }
        }
        j = j + 1;
    }
    let ghost before = buf@;
    write_u32(&mut buf, COUNT_OFFSET, count as u32);
    proof {
        assert forall|k: int, b: int|
            0 <= k < entries.len() && 0 <= b < 4 implies buf@[ENTRIES_OFFSET + 4 * k + b]
            == #[trigger] le32_bytes(entries[k].0)[b] by {
            assert(before[ENTRIES_OFFSET + 4 * k + b] == le32_bytes(entries[k].0)[b]);
        }
    }
    buf
}

} // verus!

//! The pager: reads, writes and hands out pages, and commits meta pages.

use crate::bytes::le32;
use crate::cache::{moved_to_back, without, PageCache};
use crate::datafile::{changed_numbers, written, zero_page, DataFile};
use crate::error::{IoError, PagerError};
use crate::freelist::{
    chain_ends, chain_len, chain_list, chunk, is_chain, is_chain_page,
    lemma_freelist_round_trip, page_views, serves, FreeList, COUNT_OFFSET, NEXT_OFFSET,
    READABLE_ENTRIES,
};
use crate::meta::{
    active_meta, is_meta_page, lemma_meta_page_round_trip, meta_checksum, meta_fields,
    pick_active_meta, sealed, valid_meta, Meta, META_MAGIC,
};
use crate::page::{read_u32, write_u32, PageId, PAGE_SIZE};
use vstd::prelude::*;

verus! {

/// Default cache capacity: 4096 pages, 16 MB of cached data.
pub const DEFAULT_CACHE_CAPACITY: usize = 4096;

/// Offset in a meta page of the freelist's first chain page, right after the
/// checksum.
pub const FREELIST_HEAD_OFFSET: usize = 41;

/// What a pager is, its cache aside.
#[verifier::ext_equal]
pub struct PagerView {
    /// The pages of the data file.
    pub file: Seq<Seq<u8>>,
    /// The pages of the data file as they were at the last commit.
    pub base: Seq<Seq<u8>>,
    /// The current meta.
    pub meta: Meta,
    /// The slot that the last committed meta stands in.
    pub meta_slot: u8,
    /// The freed pages, the one freed last at the end.
    pub freelist: Seq<PageId>,
    /// The first chain page of the committed freelist, 0 for none.
    pub freelist_head: u32,
}

impl PagerView {
    /// Whether `id` is a page that can still be handed out.
    pub open spec fn is_free(self, id: u32) -> bool {
        self.freelist.contains(PageId(id)) || id >= self.meta.next_page_id
    }

    /// The pager with its pages as they were at the last commit.
    pub open spec fn kept(self) -> PagerView {
        PagerView { file: self.base, ..self }
    }

    /// Page numbers below the two meta pages are never handed out, and none is
    /// handed out twice.
    pub open spec fn alloc_ok(self) -> bool {
        &&& self.meta.next_page_id >= 2
        &&& self.freelist.no_duplicates()
        &&& forall|i: int|
            0 <= i < self.freelist.len() ==> 2 <= (#[trigger] self.freelist[i]).0
                < self.meta.next_page_id
    }
}

/// How pages read from a file, a page past its end as zeros.
pub open spec fn reader(file: Seq<Seq<u8>>) -> spec_fn(PageId) -> Seq<u8> {
    |id: PageId|
        if id.0 < file.len() {
            file[id.0 as int]
        } else {
            zero_page()
        }
}

/// The freelist head that a meta page carries.
pub open spec fn freelist_head_of(page: Seq<u8>) -> u32 {
    le32(page, FREELIST_HEAD_OFFSET as int) as u32
}

/// The freelist that is stored in a file from chain page `head` on.
pub open spec fn stored_freelist(file: Seq<Seq<u8>>, head: u32) -> Seq<PageId> {
    chain_list(reader(file), head, file.len() + 1)
}

/// The active meta of a file and its slot.
pub open spec fn file_meta(file: Seq<Seq<u8>>) -> Option<(Meta, u8)> {
    active_meta(valid_meta(file[0]), valid_meta(file[1]))
}

/// Whether the freelist chain of a file can be followed to its end.
pub open spec fn openable(file: Seq<Seq<u8>>) -> bool {
    file.len() >= 2 ==> match file_meta(file) {
        Some((_, slot)) => chain_ends(
            reader(file),
            freelist_head_of(file[slot as int]),
            file.len() + 1,
        ),
        None => true,
    }
}

/// The pager that a file holds, or the error that opening it gives.
pub open spec fn opened(file: Seq<Seq<u8>>) -> Result<PagerView, PagerError> {
    if file.len() < 2 {
        Err(PagerError::Io(IoError::UnexpectedEof))
    } else {
        match file_meta(file) {
            None => Err(PagerError::CorruptMeta),
            Some((meta, slot)) => {
                let head = freelist_head_of(file[slot as int]);
                Ok(
                    PagerView {
                        file,
                        base: file,
                        meta,
                        meta_slot: slot,
                        freelist: stored_freelist(file, head),
                        freelist_head: head,
                    },
                )
            },
        }
    }
}

/// The exact bytes of a committed meta page.
pub open spec fn is_committed_page(page: Seq<u8>, m: Meta, slot: u8, head: u32) -> bool {
    &&& page.len() == PAGE_SIZE
    &&& page[0] == 0
    &&& le32(page, 1) == slot
    &&& page.subrange(5, 37) == meta_fields(m)
    &&& le32(page, 37) == m.checksum
    &&& le32(page, FREELIST_HEAD_OFFSET as int) == head
    &&& forall|x: int| 45 <= x < PAGE_SIZE ==> page[x] == 0
}

/// The page numbers `next..next + n`.
pub open spec fn chain_ids(next: u32, n: int) -> Seq<PageId> {
    Seq::new(n as nat, |i: int| PageId((next + i) as u32))
}

/// How storing the freelist on the page numbers from `next` on changes a pager:
/// the pages of its chain are written, and nothing else.
pub open spec fn chained(before: PagerView, next: u32, after: PagerView) -> bool {
    let n = chain_len(before.freelist.len() as int);
    &&& after == (PagerView {
        file: after.file,
        freelist_head: if n == 0 {
            0
        } else {
            next
        },
        ..before
    })
    &&& after.file.len() == (if n > 0 && next + n > before.file.len() {
        next + n
    } else {
        before.file.len() as int
    })
    &&& forall|i: int|
        0 <= i < n ==> is_chain_page(
            #[trigger] after.file[next + i],
            PageId((next + i) as u32),
            if i + 1 < n {
                (next + i + 1) as u32
            } else {
                0
            },
            chunk(before.freelist, i),
        )
    &&& forall|x: int|
        0 <= x < after.file.len() && !(next <= x < next + n) ==> #[trigger] after.file[x] == (if x
            < before.file.len() {
            before.file[x]
        } else {
            zero_page()
        })
}

/// How a commit of `m` changes a pager: the freelist goes into a chain on new
/// page numbers, the sealed meta into the other slot, and nothing else changes.
pub open spec fn committed(before: PagerView, m: Meta, after: PagerView) -> bool {
    let n = chain_len(before.freelist.len() as int);
    let next = m.next_page_id;
    let slot = (1 - before.meta_slot) as u8;
    &&& after.meta == sealed(Meta { next_page_id: (next + n) as u32, ..m })
    &&& after.meta_slot == slot
    &&& after.base == after.file
    &&& is_committed_page(after.file[slot as int], after.meta, slot, after.freelist_head)
    &&& after.freelist == before.freelist
    &&& after.freelist_head == (if n == 0 {
        0
    } else {
        next
    })
    &&& after.file.len() == (if n > 0 && next + n > before.file.len() {
        next + n
    } else {
        before.file.len() as int
    })
    &&& forall|i: int|
        0 <= i < n ==> is_chain_page(
            #[trigger] after.file[next + i],
            PageId((next + i) as u32),
            if i + 1 < n {
                (next + i + 1) as u32
            } else {
                0
            },
            chunk(before.freelist, i),
        )
    &&& forall|x: int|
        0 <= x < after.file.len() && x != slot && !(next <= x < next + n)
            ==> #[trigger] after.file[x] == (if x < before.file.len() {
            before.file[x]
        } else {
            zero_page()
        })
}

/// Storing the freelist, then the meta, and keeping the pages is a commit.
pub proof fn lemma_commit_parts(before: PagerView, m: Meta, mid: PagerView, after: PagerView)
    requires
        before.file.len() >= 2,
        before.meta_slot <= 1,
        m.next_page_id >= 2,
        m.next_page_id + chain_len(before.freelist.len() as int) <= u32::MAX,
        chained(before, m.next_page_id, mid),
        ({
            let n = chain_len(before.freelist.len() as int);
            let slot = (1 - before.meta_slot) as u8;
            let meta = sealed(Meta { next_page_id: (m.next_page_id + n) as u32, ..m });
            &&& is_committed_page(after.file[slot as int], meta, slot, mid.freelist_head)
            &&& after == (PagerView {
                file: mid.file.update(slot as int, after.file[slot as int]),
                base: after.file,
                meta,
                meta_slot: slot,
                ..mid
            })
        }),
    ensures
        committed(before, m, after),
{
    let n = chain_len(before.freelist.len() as int);
    let next = m.next_page_id;
    let slot = (1 - before.meta_slot) as u8;
    assert forall|i: int| 0 <= i < n implies is_chain_page(
        #[trigger] after.file[next + i],
        PageId((next + i) as u32),
        if i + 1 < n {
            (next + i + 1) as u32
        } else {
            0
        },
        chunk(before.freelist, i),
    ) by {
        assert(after.file[next + i] == mid.file[next + i]);
    }
    assert forall|x: int|
        0 <= x < after.file.len() && x != slot && !(next <= x < next
            + n) implies #[trigger] after.file[x] == (if x < before.file.len() {
        before.file[x]
    } else {
        zero_page()
    }) by {
        assert(after.file[x] == mid.file[x]);
    }
}

/// Anything that pages can be read from.
pub trait PageSource {
    /// What the source is.
    spec fn state(&self) -> PagerView;

    /// Whether the source can be read.
    spec fn ready(&self) -> bool;

    /// Reads a page.
    fn fetch(&mut self, id: PageId) -> (r: Result<[u8; PAGE_SIZE], PagerError>)
        requires
            old(self).ready(),
            id.0 >= 2,
        ensures
            final(self).ready(),
            final(self).state() == old(self).state(),
            id.0 < old(self).state().file.len() ==> r is Ok && r->Ok_0@ == old(self).state().file[
                id.0 as int],
            id.0 >= old(self).state().file.len() ==> r == Err::<[u8; PAGE_SIZE], PagerError>(
                PagerError::Io(IoError::UnexpectedEof),
            ),
    ;
}

/// Reads, writes and hands out the pages of a data file.
pub struct Pager {
    file: DataFile,
    meta: Meta,
    meta_slot: u8,
    freelist: Vec<PageId>,
    freelist_head: u32,
    cache: PageCache,
}

impl View for Pager {
    type V = PagerView;

    closed spec fn view(&self) -> PagerView {
        PagerView {
            file: self.file@,
            base: self.file.kept(),
            meta: self.meta,
            meta_slot: self.meta_slot,
            freelist: self.freelist@,
            freelist_head: self.freelist_head,
        }
    }
}

impl Pager {
    /// The cached pages.
    pub closed spec fn cached(&self) -> Map<u32, Seq<u8>> {
        self.cache.pages()
    }

    /// The cached page numbers, the least recently used first.
    pub closed spec fn lru(&self) -> Seq<u32> {
        self.cache.order()
    }

    /// A cached page is in the file, and beyond the two meta pages, which a
    /// commit writes past the cache, its contents are those in the file.
    pub closed spec fn inv(&self) -> bool {
        &&& self.file.inv()
        &&& self.cache.inv()
        &&& self.cache.capacity() == DEFAULT_CACHE_CAPACITY
        &&& self.meta_slot <= 1
        &&& self.file@.len() >= 2
        &&& self.file.kept().len() >= 2
        &&& forall|k: u32| #[trigger]
            self.cache.pages().contains_key(k) ==> k < self.file@.len() && (k >= 2
                ==> self.cache.pages()[k] == self.file@[k as int])
    }

    /// What the invariant gives to callers.
    pub proof fn lemma_inv(&self)
        requires
            self.inv(),
        ensures
            self@.meta_slot <= 1,
            2 <= self@.file.len() <= 4294967296,
            forall|i: int| 0 <= i < self@.file.len() ==> (#[trigger] self@.file[i]).len()
                == PAGE_SIZE,
            2 <= self@.base.len() <= self@.file.len(),
            forall|i: int| 0 <= i < self@.base.len() ==> (#[trigger] self@.base[i]).len()
                == PAGE_SIZE,
            self.lru().len() <= DEFAULT_CACHE_CAPACITY,
            self.lru().no_duplicates(),
            forall|k: u32| self.lru().contains(k) <==> #[trigger] self.cached().contains_key(k),
            forall|k: u32| #[trigger] self.cached().contains_key(k) && k >= 2 ==> self.cached()[k]
                == self@.file[k as int],
    {
        self.file.lemma_inv();
        self.cache.lemma_inv();
    }

    /// A brand-new database file: two meta pages with the initial meta.
    pub fn create() -> (r: Pager)
        ensures
            r.inv(),
            r@.file.len() == 2,
            is_meta_page(r@.file[0], r@.meta, 0),
            is_meta_page(r@.file[1], r@.meta, 1),
            r@.meta == sealed(
                Meta {
                    magic: META_MAGIC,
                    version: 1,
                    root_page_id: 0,
                    next_page_id: 2,
                    txn_id: 0,
                    wal_offset: 0,
                    checksum: 0,
                },
            ),
            r@.meta_slot == 0,
            r@.freelist == Seq::<PageId>::empty(),
            r@.freelist_head == 0,
            r@.alloc_ok(),
            r.cached() == Map::<u32, Seq<u8>>::empty(),
            r.lru() == Seq::<u32>::empty(),
            opened(r@.file) == Ok::<PagerView, PagerError>(r@),
    {
        let meta = Meta::new_initial();
        let p0 = meta.to_page(0);
        let p1 = meta.to_page(1);
        let mut file = DataFile::new();
        file.write(PageId(0), &p0);
        file.write(PageId(1), &p1);
        file.keep();
        let r = Pager {
            file,
            meta,
            meta_slot: 0,
            freelist: Vec::new(),
            freelist_head: 0,
            cache: PageCache::new(DEFAULT_CACHE_CAPACITY),
        };
        proof {
            lemma_meta_page_round_trip(p0@, meta);
            lemma_meta_page_round_trip(p1@, meta);
            assert(file@ =~= seq![p0@, p1@]);
            assert(freelist_head_of(p0@) == 0);
            assert(stored_freelist(r@.file, 0) =~= Seq::<PageId>::empty());
            assert(r@.freelist =~= Seq::<PageId>::empty());
        }
        r
    }

    /// Whether the freelist chain of a file can be followed to its end.
    pub fn can_open(file: &DataFile) -> (r: bool)
        requires
            file.inv(),
        ensures
            r == openable(file@),
    {
        let (p0, p1) = match (file.read(PageId(0)), file.read(PageId(1))) {
            (Some(p0), Some(p1)) => (p0, p1),
            _ => {
                return true;
            },
        };
        let slot: u8 = match pick_active_meta(&p0, &p1) {
            Some((_, slot)) => slot,
            None => {
                return true;
            },
        };
        let mut current: u32 = if slot == 0 {
            read_freelist_head_from_meta_page(&p0)
        } else {
            read_freelist_head_from_meta_page(&p1)
        };
        proof {
            file.lemma_inv();
        }
        let mut left: u64 = file.page_count() as u64 + 1;
        assert(file_meta(file@) matches Some((_, s)) && s == slot);
        while current != 0
            invariant
                left <= file@.len() + 1,
                openable(file@) == chain_ends(reader(file@), current, left as nat),
            decreases left,
        {
            if left == 0 {
                return false;
            }
            let buf = read_or_zero(file, PageId(current));
            if read_u32(&buf, COUNT_OFFSET) as usize > READABLE_ENTRIES {
                return false;
            }
            current = read_u32(&buf, NEXT_OFFSET);
            left = left - 1;
        }
        true
    }

    /// Opens an existing data file: validates the meta pages and rebuilds the
    /// freelist.
    pub fn open(file: DataFile) -> (r: Result<Pager, PagerError>)
        requires
            file.inv(),
            openable(file@),
        ensures
            match r {
                Ok(p) => p.inv() && opened(file@) == Ok::<PagerView, PagerError>(p@) && p.lru()
                    == Seq::<u32>::empty(),
                Err(e) => opened(file@) == Err::<PagerView, PagerError>(e),
            },
    {
        let mut file = file;
        file.keep();
        let p0 = match file.read(PageId(0)) {
            Some(p) => p,
            None => {
                return Err(PagerError::Io(IoError::UnexpectedEof));
            },
        };
        let p1 = match file.read(PageId(1)) {
            Some(p) => p,
            None => {
                return Err(PagerError::Io(IoError::UnexpectedEof));
            },
        };
        let (meta, slot) = match pick_active_meta(&p0, &p1) {
            Some(x) => x,
            None => {
                return Err(PagerError::CorruptMeta);
            },
        };
        let fl_head: u32 = if slot == 0 {
            read_freelist_head_from_meta_page(&p0)
        } else {
            read_freelist_head_from_meta_page(&p1)
        };
        let freelist = if fl_head != 0 {
            let read_fn = |pid: PageId| -> (p: [u8; PAGE_SIZE])
                ensures
                    p@ == reader(file@)(pid),
                { read_or_zero(&file, pid) };
            proof {
                lemma_reader_serves(read_fn, file@, fl_head, file@.len() + 1);
                assert(chain_ends(reader(file@), fl_head, file@.len() + 1));
            }
            FreeList::restore(PageId(fl_head), read_fn)
        } else {
            FreeList::new()
        };
        assert(freelist.pages@ =~= stored_freelist(file@, fl_head));
        Ok(
            Pager {
                file,
                meta,
                meta_slot: slot,
                freelist: freelist.pages,
                freelist_head: fl_head,
                cache: PageCache::new(DEFAULT_CACHE_CAPACITY),
            },
        )
    }

    /// The data file.
    pub fn file(&self) -> (r: &DataFile)
        requires
            self.inv(),
        ensures
            r@ == self@.file,
            r.inv(),
    {
        &self.file
    }

    /// Gives the data file up, to be stored or opened again.
    pub fn into_file(self) -> (r: DataFile)
        requires
            self.inv(),
        ensures
            r@ == self@.file,
            r.inv(),
    {
        self.file
    }

    /// Clears the marks of the data file, once its marked pages are stored.
    pub fn clear_dirty(&mut self)
        requires
            old(self).inv(),
        ensures
            final(self).inv(),
            final(self)@ == old(self)@,
            final(self).cached() == old(self).cached(),
            final(self).lru() == old(self).lru(),
    {
        self.file.clear_dirty();
    }

    /// Reads a page: from the cache where it is there, else from the file,
    /// after which it is in the cache. Either way it is now the page that was
    /// used last.
    pub fn read_page(&mut self, id: PageId) -> (r: Result<[u8; PAGE_SIZE], PagerError>)
        requires
            old(self).inv(),
        ensures
            final(self).inv(),
            final(self)@ == old(self)@,
            match r {
                Ok(p) => {
                    &&& id.0 < old(self)@.file.len()
                    &&& p@ == (if old(self).cached().contains_key(id.0) {
                        old(self).cached()[id.0]
                    } else {
                        old(self)@.file[id.0 as int]
                    })
                    &&& id.0 >= 2 ==> p@ == old(self)@.file[id.0 as int]
                },
                Err(e) => id.0 >= old(self)@.file.len() && e == PagerError::Io(
                    IoError::UnexpectedEof,
                ),
            },
            r is Err ==> final(self).lru() == old(self).lru() && final(self).cached() == old(
                self,
            ).cached(),
            r is Ok ==> final(self).lru() == (if old(self).cached().contains_key(id.0) {
                moved_to_back(old(self).lru(), id.0)
            } else if old(self).lru().len() < DEFAULT_CACHE_CAPACITY {
                old(self).lru().push(id.0)
            } else {
                old(self).lru().remove(0).push(id.0)
            }),
    {
        let key: u32 = id.0;
        if let Some(page) = self.cache.get(key) {
            self.cache.touch(key);
            return Ok(page);
        }
        match self.file.read(id) {
            Some(page) => {
                self.cache.insert(key, page);
                Ok(page)
            },
            None => Err(PagerError::Io(IoError::UnexpectedEof)),
        }
    }

    /// Reads a page through a shared borrow: the same page as `read_page`
    /// gives, without a change to the cache.
    pub fn peek_page(&self, id: PageId) -> (r: Result<[u8; PAGE_SIZE], PagerError>)
        requires
            self.inv(),
        ensures
            match r {
                Ok(p) => {
                    &&& id.0 < self@.file.len()
                    &&& p@ == (if self.cached().contains_key(id.0) {
                        self.cached()[id.0]
                    } else {
                        self@.file[id.0 as int]
                    })
                    &&& id.0 >= 2 ==> p@ == self@.file[id.0 as int]
                },
                Err(e) => id.0 >= self@.file.len() && e == PagerError::Io(IoError::UnexpectedEof),
            },
    {
        if let Some(page) = self.cache.get(id.0) {
            return Ok(page);
        }
        match self.file.read(id) {
            Some(page) => Ok(page),
            None => Err(PagerError::Io(IoError::UnexpectedEof)),
        }
    }

    /// Reads a page as it was at the last commit.
    pub fn committed_page(&self, id: PageId) -> (r: Result<[u8; PAGE_SIZE], PagerError>)
        requires
            self.inv(),
        ensures
            match r {
                Ok(p) => id.0 < self@.base.len() && p@ == self@.base[id.0 as int],
                Err(e) => id.0 >= self@.base.len() && e == PagerError::Io(IoError::UnexpectedEof),
            },
    {
        match self.file.read_kept(id) {
            Some(page) => Ok(page),
            None => Err(PagerError::Io(IoError::UnexpectedEof)),
        }
    }

    /// Goes back to the pages of the last commit. Page numbers that were handed
    /// out since stay so.
    pub fn roll_back(&mut self)
        requires
            old(self).inv(),
        ensures
            final(self).inv(),
            final(self)@ == old(self)@.kept(),
    {
        if !self.file.is_kept() {
            self.file.roll_back();
            self.cache = PageCache::new(DEFAULT_CACHE_CAPACITY);
        }
    }

    /// Writes a page through to the file and keeps it in the cache.
    pub fn write_page(&mut self, id: PageId, data: &[u8; PAGE_SIZE]) -> (r: Result<(), PagerError>)
        requires
            old(self).inv(),
        ensures
            r is Ok,
            final(self).inv(),
            final(self)@ == (PagerView {
                file: written(old(self)@.file, id.0 as int, data@),
                ..old(self)@
            }),
            final(self).cached().contains_key(id.0) && final(self).cached()[id.0] == data@,
            final(self).lru() == (if old(self).cached().contains_key(id.0) {
                moved_to_back(old(self).lru(), id.0)
            } else if old(self).lru().len() < DEFAULT_CACHE_CAPACITY {
                old(self).lru().push(id.0)
            } else {
                old(self).lru().remove(0).push(id.0)
            }),
    {
        let key: u32 = id.0;
        self.file.write(id, data);
        if self.cache.get(key).is_some() {
            self.cache.replace(key, *data);
        } else {
            self.cache.insert(key, *data);
        }
        Ok(())
    }

    /// Hands out a page: the one that was freed last, or a new one.
    pub fn alloc_page(&mut self) -> (r: PageId)
        requires
            old(self).inv(),
            old(self)@.freelist.len() == 0 ==> old(self)@.meta.next_page_id < u32::MAX,
        ensures
            final(self).inv(),
            final(self).cached() == old(self).cached(),
            final(self).lru() == old(self).lru(),
            old(self)@.freelist.len() > 0 ==> {
                &&& r == old(self)@.freelist.last()
                &&& final(self)@ == (PagerView {
                    freelist: old(self)@.freelist.drop_last(),
                    ..old(self)@
                })
            },
            old(self)@.freelist.len() == 0 ==> {
                &&& r.0 == old(self)@.meta.next_page_id
                &&& final(self)@ == (PagerView {
                    meta: Meta { next_page_id: (r.0 + 1) as u32, ..old(self)@.meta },
                    ..old(self)@
                })
            },
    {
        if let Some(id) = self.freelist.pop() {
            assert(self@.freelist =~= old(self)@.freelist.drop_last());
            id
        } else {
            let id = PageId(self.meta.next_page_id);
            self.meta.next_page_id = self.meta.next_page_id + 1;
            id
        }
    }

    /// Returns a page to the freelist and drops it from the cache.
    pub fn free_page(&mut self, id: PageId)
        requires
            old(self).inv(),
        ensures
            final(self).inv(),
            final(self)@ == (PagerView {
                freelist: old(self)@.freelist.push(id),
                ..old(self)@
            }),
            final(self).cached() == old(self).cached().remove(id.0),
            final(self).lru() == without(old(self).lru(), id.0),
    {
        self.freelist.push(id);
        self.cache.remove(id.0);
    }

    /// The current meta.
    pub fn meta(&self) -> (r: &Meta)
        ensures
            *r == self@.meta,
    {
        &self.meta
    }

    /// The slot of the meta that was committed last.
    pub fn meta_slot(&self) -> (r: u8)
        ensures
            r == self@.meta_slot,
    {
        self.meta_slot
    }

    /// The freed pages, the one freed last at the end.
    pub fn free_pages(&self) -> (r: &[PageId])
        ensures
            r@ == self@.freelist,
    {
        self.freelist.as_slice()
    }

    /// The number of pages that a commit takes for the freelist.
    pub fn chain_pages(&self) -> (r: usize)
        ensures
            r == chain_len(self@.freelist.len() as int),
    {
        let fl = FreeList { pages: copy_ids(&self.freelist) };
        fl.chain_pages_needed()
    }

    /// Commits a new meta: stores the freelist on new pages, then writes the
    /// meta to the other slot, and goes on with it. The pages are now those of
    /// the last commit.
    pub fn commit_meta(&mut self, new_meta: Meta) -> (r: Result<(), PagerError>)
        requires
            old(self).inv(),
            new_meta.next_page_id >= 2,
            new_meta.next_page_id + chain_len(old(self)@.freelist.len() as int) <= u32::MAX,
        ensures
            r is Ok,
            final(self).inv(),
            committed(old(self)@, new_meta, final(self)@),
    {
        let ghost before = self@;
        proof {
            self.lemma_inv();
        }
        let meta = self.store_freelist(new_meta);
        let ghost mid = self@;
        self.store_meta(meta);
        self.keep();
        proof {
            lemma_commit_parts(before, new_meta, mid, self@);
        }
        Ok(())
    }

    /// Stores the freelist on new pages. Returns the meta with the page numbers
    /// that this took.
    pub fn store_freelist(&mut self, new_meta: Meta) -> (r: Meta)
        requires
            old(self).inv(),
            new_meta.next_page_id >= 2,
            new_meta.next_page_id + chain_len(old(self)@.freelist.len() as int) <= u32::MAX,
        ensures
            final(self).inv(),
            chained(old(self)@, new_meta.next_page_id, final(self)@),
            r == (Meta {
                next_page_id: (new_meta.next_page_id + chain_len(
                    old(self)@.freelist.len() as int,
                )) as u32,
                ..new_meta
            }),
    {
        let mut new_meta = new_meta;
        let ghost m = new_meta;
        let ghost before = self@;
        proof {
            self.lemma_inv();
        }
        let fl = FreeList { pages: copy_ids(&self.freelist) };
        let needed: usize = fl.chain_pages_needed();
        let ghost n = needed as int;
        let mut ids: Vec<PageId> = Vec::new();
        while ids.len() < needed
            invariant
                ids@.len() <= needed,
                m.next_page_id + needed <= u32::MAX,
                new_meta == (Meta { next_page_id: (m.next_page_id + ids@.len()) as u32, ..m }),
                forall|k: int|
                    0 <= k < ids@.len() ==> #[trigger] ids@[k] == PageId(
                        (m.next_page_id + k) as u32,
                    ),
            decreases needed - ids@.len(),
        {
            ids.push(PageId(new_meta.next_page_id));
            new_meta.next_page_id = new_meta.next_page_id + 1;
        }
        let chain_pages = fl.persist(ids.as_slice());
        let mut i: usize = 0;
        while i < chain_pages.len()
            invariant
                self.inv(),
                i <= chain_pages@.len(),
                chain_pages@.len() == n,
                n == chain_len(before.freelist.len() as int),
                m.next_page_id >= 2,
                m.next_page_id + n <= u32::MAX,
                before.file.len() >= 2,
                is_chain(page_views(chain_pages@), ids@, before.freelist),
                ids@.len() == n,
                forall|k: int|
                    0 <= k < ids@.len() ==> #[trigger] ids@[k] == PageId(
                        (m.next_page_id + k) as u32,
                    ),
                self@ == (PagerView { file: self@.file, ..before }),
                self@.file.len() == (if i > 0 && m.next_page_id + i > before.file.len() {
                    m.next_page_id + i
                } else {
                    before.file.len() as int
                }),
                forall|k: int|
                    0 <= k < i ==> #[trigger] self@.file[m.next_page_id + k]
                        == chain_pages@[k].1@,
                forall|x: int|
                    0 <= x < self@.file.len() && !(m.next_page_id <= x < m.next_page_id + i)
                        ==> #[trigger] self@.file[x] == (if x < before.file.len() {
                        before.file[x]
                    } else {
                        zero_page()
                    }),
            decreases chain_pages@.len() - i,
        {
            let pid = chain_pages[i].0;
            assert(page_views(chain_pages@)[i as int].0 == ids@[i as int]);
            let _ = self.write_page(pid, &chain_pages[i].1);
            i = i + 1;
        }
        self.freelist_head = if ids.len() == 0 {
            0
        } else {
            ids[0].0
        };
        proof {
            assert forall|k: int| 0 <= k < n implies is_chain_page(
                #[trigger] self@.file[m.next_page_id + k],
                PageId((m.next_page_id + k) as u32),
                if k + 1 < n {
                    (m.next_page_id + k + 1) as u32
                } else {
                    0
                },
                chunk(before.freelist, k),
            ) by {
                assert(page_views(chain_pages@)[k].0 == ids@[k]);
                if k + 1 < n {
                    assert(ids@[k + 1] == PageId((m.next_page_id + k + 1) as u32));
                }
            }
        }
        new_meta
    }

    /// Writes a meta to the other slot, with the stored freelist, and goes on
    /// with it.
    pub fn store_meta(&mut self, new_meta: Meta)
        requires
            old(self).inv(),
        ensures
            final(self).inv(),
            ({
                let slot = (1 - old(self)@.meta_slot) as u8;
                let page = final(self)@.file[slot as int];
                &&& is_committed_page(page, sealed(new_meta), slot, old(self)@.freelist_head)
                &&& final(self)@ == (PagerView {
                    file: old(self)@.file.update(slot as int, page),
                    meta: sealed(new_meta),
                    meta_slot: slot,
                    ..old(self)@
                })
            }),
    {
        let mut new_meta = new_meta;
        let next_slot: u8 = 1 - self.meta_slot;
        new_meta.update_checksum();
        let mut page = new_meta.to_page(next_slot);
        let ghost plain = page@;
        let ghost file = self@.file;
        write_freelist_head_to_meta_page(&mut page, self.freelist_head);
        self.file.write(PageId(next_slot as u32), &page);
        self.meta = new_meta;
        self.meta_slot = next_slot;
        proof {
            assert(page@.subrange(5, 37) =~= plain.subrange(5, 37));
            assert(self@.file =~= file.update(next_slot as int, page@));
        }
    }

    /// Makes the pages those of the last commit.
    pub fn keep(&mut self)
        requires
            old(self).inv(),
        ensures
            final(self).inv(),
            final(self)@ == (PagerView { base: old(self)@.file, ..old(self)@ }),
            final(self).cached() == old(self).cached(),
            final(self).lru() == old(self).lru(),
    {
        self.file.keep();
    }

    /// The pages that are not as they were at the last commit, in ascending
    /// order, the two meta pages apart.
    pub fn changed_pages(&self) -> (r: Vec<u32>)
        requires
            self.inv(),
        ensures
            r@ == changed_numbers(self@.base, self@.file, self@.file.len() as int),
    {
        self.file.changed_pages()
    }
}

impl PageSource for Pager {
    open spec fn state(&self) -> PagerView {
        self@
    }

    open spec fn ready(&self) -> bool {
        self.inv()
    }

    fn fetch(&mut self, id: PageId) -> (r: Result<[u8; PAGE_SIZE], PagerError>) {
        self.read_page(id)
    }
}

/// Reads pages through a shared borrow of a pager.
pub struct PagerReader<'a> {
    pub pager: &'a Pager,
}

impl<'a> PageSource for PagerReader<'a> {
    open spec fn state(&self) -> PagerView {
        self.pager@
    }

    open spec fn ready(&self) -> bool {
        self.pager.inv()
    }

    fn fetch(&mut self, id: PageId) -> (r: Result<[u8; PAGE_SIZE], PagerError>) {
        self.pager.peek_page(id)
    }
}

/// Reads pages as they were at the last commit, through a shared borrow of a
/// pager.
pub struct CommittedReader<'a> {
    pub pager: &'a Pager,
}

impl<'a> PageSource for CommittedReader<'a> {
    open spec fn state(&self) -> PagerView {
        self.pager@.kept()
    }

    open spec fn ready(&self) -> bool {
        self.pager.inv()
    }

    fn fetch(&mut self, id: PageId) -> (r: Result<[u8; PAGE_SIZE], PagerError>) {
        self.pager.committed_page(id)
    }
}

proof fn lemma_reader_serves<F: FnMut(PageId) -> [u8; PAGE_SIZE]>(
    f: F,
    file: Seq<Seq<u8>>,
    head: u32,
    n: nat,
)
    requires
        forall|id: PageId| f.requires((id,)),
        forall|id: PageId, p: [u8; PAGE_SIZE]| #[trigger] f.ensures((id,), p) ==> p@ == reader(
            file,
        )(id),
    ensures
        serves(f, reader(file), head, n),
    decreases n,
{
    if head != 0 && n > 0 {
        let next = le32(reader(file)(PageId(head)), NEXT_OFFSET as int) as u32;
        lemma_reader_serves(f, file, next, (n - 1) as nat);
    }
}

fn read_or_zero(file: &DataFile, id: PageId) -> (r: [u8; PAGE_SIZE])
    ensures
        r@ == reader(file@)(id),
{
    match file.read(id) {
        Some(p) => p,
        None => {
            let zeros: [u8; PAGE_SIZE] = [0u8;PAGE_SIZE];
            assert(zeros@ =~= zero_page());
            zeros
        },
    }
}

fn copy_ids(ids: &Vec<PageId>) -> (r: Vec<PageId>)
    ensures
        r@ == ids@,
{
    vstd::slice::slice_to_vec(ids.as_slice())
}

fn read_freelist_head_from_meta_page(page: &[u8; PAGE_SIZE]) -> (r: u32)
    ensures
        r == freelist_head_of(page@),
{
    read_u32(page, FREELIST_HEAD_OFFSET)
}

fn write_freelist_head_to_meta_page(page: &mut [u8; PAGE_SIZE], head: u32)
    ensures
        le32(final(page)@, FREELIST_HEAD_OFFSET as int) == head,
        forall|i: int|
            0 <= i < PAGE_SIZE && !(41 <= i < 45) ==> final(page)@[i] == old(page)@[i],
{
    write_u32(page, FREELIST_HEAD_OFFSET, head);
}

/// A commit flips the slot, and opening the file after it gives back exactly
/// the committed pager: where the slot that was active before holds a meta with
/// a lower transaction number.
pub proof fn lemma_commit_survives_reopen(before: PagerView, m: Meta, after: PagerView)
    requires
        committed(before, m, after),
        before.file.len() >= 2,
        before.meta_slot <= 1,
        m.magic@ == META_MAGIC@,
        m.next_page_id >= 2,
        m.next_page_id + chain_len(before.freelist.len() as int) <= u32::MAX,
        file_meta(before.file) matches Some((old_meta, slot)) && slot == before.meta_slot
            && old_meta.txn_id < m.txn_id,
    ensures
        after.meta_slot == 1 - before.meta_slot,
        openable(after.file),
        opened(after.file) == Ok::<PagerView, PagerError>(after),
        file_meta(after.file) == Some((after.meta, after.meta_slot)),
{
    let n = chain_len(before.freelist.len() as int);
    let slot = after.meta_slot;
    let old_slot = before.meta_slot as int;
    let page = after.file[slot as int];
    lemma_meta_page_round_trip(page, after.meta);
    assert(meta_checksum(after.meta) == after.meta.checksum);
    assert(valid_meta(page) == Some(after.meta));
    assert(after.file[old_slot] == before.file[old_slot]);
    assert(file_meta(after.file) == Some((after.meta, slot)));
    let head = freelist_head_of(page);
    assert(head == after.freelist_head);
    let read = reader(after.file);
    if n > 0 {
        let ids = chain_ids(m.next_page_id, n);
        let pages = before.freelist;
        let images: Seq<(PageId, Seq<u8>)> = Seq::new(
            n as nat,
            |i: int| (ids[i], after.file[m.next_page_id + i]),
        );
        assert(is_chain(images, ids, pages)) by {
            assert forall|i: int| 0 <= i < images.len() implies (#[trigger] images[i]).0 == ids[i]
                && is_chain_page(
                images[i].1,
                ids[i],
                if i + 1 < images.len() {
                    ids[i + 1].0
                } else {
                    0
                },
                chunk(pages, i),
            ) by {
                assert(images[i].1 == after.file[m.next_page_id + i]);
            }
        }
        assert forall|i: int| 0 <= i < images.len() implies read(#[trigger] ids[i])
            == images[i].1 by {
            assert(images[i].1 == after.file[m.next_page_id + i]);
        }
        lemma_freelist_round_trip(images, ids, pages, read);
        lemma_chain_more_fuel(read, head, n as nat, after.file.len() + 1);
    } else {
        assert(before.freelist =~= Seq::<PageId>::empty());
        assert(stored_freelist(after.file, 0) =~= Seq::<PageId>::empty());
    }
}

proof fn lemma_chain_more_fuel(
    read: spec_fn(PageId) -> Seq<u8>,
    head: u32,
    n: nat,
    more: nat,
)
    requires
        chain_ends(read, head, n),
        n <= more,
    ensures
        chain_ends(read, head, more),
        chain_list(read, head, more) == chain_list(read, head, n),
    decreases n,
{
    if head != 0 {
        let next = le32(read(PageId(head)), NEXT_OFFSET as int) as u32;
        lemma_chain_more_fuel(read, next, (n - 1) as nat, (more - 1) as nat);
    }
}

} // verus!

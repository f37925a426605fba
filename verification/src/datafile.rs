//! The data file as the library sees it: a row of whole pages, with a mark on
//! each page that was written since the file was last brought to storage, and
//! with what it takes to go back to the pages as they were last kept.

use crate::bytes::bytes_equal;
use crate::page::{PageId, PAGE_SIZE};
use std::collections::HashMap;
use vstd::prelude::*;

verus! {

broadcast use vstd::std_specs::hash::group_hash_axioms;

/// A page of zeros.
pub open spec fn zero_page() -> Seq<u8> {
    Seq::new(PAGE_SIZE as nat, |i: int| 0u8)
}

/// The pages after page `id` was set to `data`. Writing past the end of the
/// file fills the gap with zeros.
pub open spec fn written(pages: Seq<Seq<u8>>, id: int, data: Seq<u8>) -> Seq<Seq<u8>> {
    if id < pages.len() {
        pages.update(id, data)
    } else {
        (pages + Seq::new((id - pages.len()) as nat, |i: int| zero_page())).push(data)
    }
}

/// Whether page `x` is not what it is in `base`.
pub open spec fn differs(base: Seq<Seq<u8>>, file: Seq<Seq<u8>>, x: int) -> bool {
    x >= base.len() || file[x] != base[x]
}

/// The numbers below `n` of the pages that are not what they are in `base`, in
/// ascending order, the two meta pages apart.
pub open spec fn changed_numbers(base: Seq<Seq<u8>>, file: Seq<Seq<u8>>, n: int) -> Seq<u32>
    decreases n,
{
    if n <= 2 {
        Seq::empty()
    } else if differs(base, file, n - 1) {
        changed_numbers(base, file, n - 1).push((n - 1) as u32)
    } else {
        changed_numbers(base, file, n - 1)
    }
}

/// The pages of a data file held in memory.
pub struct DataFile {
    pages: Vec<[u8; PAGE_SIZE]>,
    dirty: Vec<bool>,
    /// The kept pages that were written to since, as they were.
    saved: HashMap<u32, Box<[u8; PAGE_SIZE]>>,
    /// The number of kept pages.
    kept_len: usize,
    /// Whether a page was written since the pages were last kept.
    changed: bool,
}

impl View for DataFile {
    type V = Seq<Seq<u8>>;

    closed spec fn view(&self) -> Seq<Seq<u8>> {
        Seq::new(self.pages@.len(), |i: int| self.pages@[i]@)
    }
}

impl DataFile {
    /// Whether page `i` was written since the marks were last cleared.
    pub closed spec fn marked(&self, i: int) -> bool {
        self.dirty@[i]
    }

    /// The pages as they were when they were last kept.
    pub closed spec fn kept(&self) -> Seq<Seq<u8>> {
        Seq::new(
            self.kept_len as nat,
            |i: int|
                if self.saved@.contains_key(i as u32) {
                    (*self.saved@[i as u32])@
                } else {
                    self.pages@[i]@
                },
        )
    }

    /// Every page has a mark, page numbers reach every page, and only kept
    /// pages are saved.
    pub closed spec fn inv(&self) -> bool {
        &&& self.dirty@.len() == self.pages@.len()
        &&& self.pages@.len() <= 4294967296
        &&& self.kept_len <= self.pages@.len()
        &&& forall|k: u32| #[trigger] self.saved@.contains_key(k) ==> k < self.kept_len
        &&& !self.changed ==> self.kept_len == self.pages@.len() && self.saved@ == Map::<
            u32,
            Box<[u8; PAGE_SIZE]>,
        >::empty()
    }

    /// What the invariant gives to callers.
    pub proof fn lemma_inv(&self)
        requires
            self.inv(),
        ensures
            self@.len() <= 4294967296,
            forall|i: int| 0 <= i < self@.len() ==> (#[trigger] self@[i]).len() == PAGE_SIZE,
            self.kept().len() <= self@.len(),
            forall|i: int| 0 <= i < self.kept().len() ==> (#[trigger] self.kept()[i]).len()
                == PAGE_SIZE,
    {
    }

    /// An empty file.
    pub fn new() -> (r: Self)
        ensures
            r.inv(),
            r@ == Seq::<Seq<u8>>::empty(),
            r.kept() == Seq::<Seq<u8>>::empty(),
    {
        let r = DataFile {
            pages: Vec::new(),
            dirty: Vec::new(),
            saved: HashMap::new(),
            kept_len: 0,
            changed: false,
        };
        assert(r@ =~= Seq::<Seq<u8>>::empty());
        assert(r.kept() =~= Seq::<Seq<u8>>::empty());
        r
    }

    /// The number of whole pages.
    pub fn page_count(&self) -> (r: usize)
        ensures
            r == self@.len(),
    {
        self.pages.len()
    }

    /// Appends a page that storage already holds. `false`, and no change,
    /// where the file has as many pages as there are page numbers.
    pub fn load_page(&mut self, data: &[u8; PAGE_SIZE]) -> (r: bool)
        requires
            old(self).inv(),
        ensures
            final(self).inv(),
            r == (old(self)@.len() < 4294967296),
            r ==> final(self)@ == old(self)@.push(data@) && !final(self).marked(
                old(self)@.len() as int,
            ),
            !r ==> final(self)@ == old(self)@,
            old(self).kept() == old(self)@ ==> final(self).kept() == final(self)@,
            forall|i: int|
                0 <= i < old(self)@.len() ==> final(self).marked(i) == old(self).marked(i),
    {
        if self.pages.len() as u64 >= 4294967296 {
            return false;
        }
        let ghost before = self@;
        let ghost kept = self.kept();
        let whole = self.kept_len == self.pages.len();
        self.pages.push(*data);
        self.dirty.push(false);
        if whole {
            self.kept_len = self.pages.len();
        }
        proof {
            assert(self@ =~= before.push(data@));
            if kept == before {
                assert forall|i: int| 0 <= i < self.kept().len() implies self.kept()[i]
                    == self@[i] by {
                    if i < before.len() {
                        assert(kept[i] == before[i]);
                    }
                }
                assert(kept.len() == before.len());
                assert(self.kept() =~= self@);
            }
        }
        true
    }

    /// Reads a page; `None` past the end of the file.
    pub fn read(&self, id: PageId) -> (r: Option<[u8; PAGE_SIZE]>)
        ensures
            match r {
                Some(p) => id.0 < self@.len() && p@ == self@[id.0 as int],
                None => id.0 >= self@.len(),
            },
    {
        let i: usize = id.0 as usize;
        if i < self.pages.len() {
            Some(self.pages[i])
        } else {
            None
        }
    }

    /// Writes a page and marks it, and the zero pages that fill a gap.
    pub fn write(&mut self, id: PageId, data: &[u8; PAGE_SIZE])
        requires
            old(self).inv(),
        ensures
            final(self).inv(),
            final(self)@ == written(old(self)@, id.0 as int, data@),
            final(self).kept() == old(self).kept(),
            final(self).marked(id.0 as int),
            forall|i: int|
                0 <= i < old(self)@.len() && i != id.0 ==> final(self).marked(i) == old(
                    self,
                ).marked(i),
            forall|i: int| old(self)@.len() <= i < final(self)@.len() ==> final(self).marked(i),
    {
        let i: usize = id.0 as usize;
        let ghost before = self@;
        self.changed = true;
        if i < self.pages.len() {
            if i < self.kept_len && !self.saved.contains_key(&id.0) {
                let page = self.pages[i];
                let _ = self.saved.insert(id.0, Box::new(page));
            }
            self.pages[i] = *data;
            self.dirty[i] = true;
            assert(self@ =~= before.update(i as int, data@));
            assert(self.kept() =~= old(self).kept());
            return ;
        }
        let zeros: [u8; PAGE_SIZE] = [0u8;PAGE_SIZE];
        assert(zeros@ =~= zero_page());
        while self.pages.len() < i
            invariant
                i == id.0,
                zeros@ == zero_page(),
                self.dirty@.len() == self.pages@.len(),
                self.saved == old(self).saved,
                self.kept_len == old(self).kept_len,
                self.changed,
                before == old(self)@,
                before.len() <= self.pages@.len() <= i,
                self@ == before + Seq::new(
                    (self.pages@.len() - before.len()) as nat,
                    |k: int| zero_page(),
                ),
                forall|k: int| 0 <= k < before.len() ==> self.dirty@[k] == old(self).dirty@[k],
                forall|k: int| before.len() <= k < self.dirty@.len() ==> self.dirty@[k],
            decreases i - self.pages@.len(),
        {
            let ghost now = self@;
            self.pages.push(zeros);
            self.dirty.push(true);
            assert(self@ =~= now.push(zero_page()));
            assert(self@ =~= before + Seq::new(
                (self.pages@.len() - before.len()) as nat,
                |k: int| zero_page(),
            ));
        }
        let ghost now = self@;
        self.pages.push(*data);
        self.dirty.push(true);
        proof {
            assert(self@ =~= now.push(data@));
            assert forall|k: int| 0 <= k < self.kept_len implies self.pages@[k]@ == old(
                self,
            ).pages@[k]@ by {
                assert(self@[k] == before[k]);
            }
            assert(self.kept() =~= old(self).kept());
        }
    }

    /// Reads a page as it was last kept; `None` past the end of the kept pages.
    pub fn read_kept(&self, id: PageId) -> (r: Option<[u8; PAGE_SIZE]>)
        requires
            self.inv(),
        ensures
            match r {
                Some(p) => id.0 < self.kept().len() && p@ == self.kept()[id.0 as int],
                None => id.0 >= self.kept().len(),
            },
    {
        let i: usize = id.0 as usize;
        if i >= self.kept_len {
            return None;
        }
        match self.saved.get(&id.0) {
            Some(p) => Some(**p),
            None => Some(self.pages[i]),
        }
    }

    /// Whether nothing was written since the pages were last kept.
    pub fn is_kept(&self) -> (r: bool)
        requires
            self.inv(),
        ensures
            r ==> self.kept() == self@,
    {
        assert(!self.changed ==> self.kept() =~= self@);
        !self.changed
    }

    /// Keeps the pages as they are: there is no way back behind this.
    pub fn keep(&mut self)
        requires
            old(self).inv(),
        ensures
            final(self).inv(),
            final(self)@ == old(self)@,
            final(self).kept() == old(self)@,
            forall|i: int|
                0 <= i < final(self)@.len() ==> final(self).marked(i) == old(self).marked(i),
    {
        self.saved.clear();
        self.kept_len = self.pages.len();
        self.changed = false;
        assert(self@ =~= old(self)@);
        assert(self.kept() =~= old(self)@);
    }

    /// Goes back to the pages as they were last kept.
    pub fn roll_back(&mut self)
        requires
            old(self).inv(),
        ensures
            final(self).inv(),
            final(self)@ == old(self).kept(),
            final(self).kept() == old(self).kept(),
            forall|i: int|
                0 <= i < final(self)@.len() ==> final(self).marked(i) == old(self).marked(i),
    {
        let ghost kept = self.kept();
        let mut i: usize = 0;
        while i < self.kept_len
            invariant
                self.saved == old(self).saved,
                self.kept_len == old(self).kept_len,
                self.dirty == old(self).dirty,
                self.pages@.len() == old(self).pages@.len(),
                old(self).inv(),
                kept == old(self).kept(),
                i <= self.kept_len,
                forall|k: int| 0 <= k < i ==> (#[trigger] self.pages@[k])@ == kept[k],
                forall|k: int|
                    i <= k < self.pages@.len() ==> #[trigger] self.pages@[k] == old(self).pages@[k],
            decreases self.kept_len - i,
        {
            let page = match self.saved.get(&(i as u32)) {
                Some(p) => **p,
                None => self.pages[i],
            };
            self.pages[i] = page;
            i = i + 1;
        }
        self.saved.clear();
        self.pages.truncate(self.kept_len);
        self.dirty.truncate(self.kept_len);
        self.changed = false;
        assert(self@ =~= kept);
        assert(self.kept() =~= kept);
    }

    /// The pages that are not as they were last kept, in ascending order, the
    /// two meta pages apart.
    pub fn changed_pages(&self) -> (r: Vec<u32>)
        requires
            self.inv(),
        ensures
            r@ == changed_numbers(self.kept(), self@, self@.len() as int),
    {
        let mut r: Vec<u32> = Vec::new();
        let mut i: usize = 2;
        while i < self.pages.len()
            invariant
                self.inv(),
                2 <= i,
                i <= self.pages@.len() || i == 2,
                r@ == changed_numbers(self.kept(), self@, i as int),
            decreases self.pages@.len() - i,
        {
            let changed = if i >= self.kept_len {
                true
            } else {
                match self.saved.get(&(i as u32)) {
                    Some(p) => !bytes_equal((**p).as_slice(), self.pages[i].as_slice()),
                    None => false,
                }
            };
            assert(changed == differs(self.kept(), self@, i as int));
            if changed {
                r.push(i as u32);
            }
            i = i + 1;
        }
        r
    }

    /// The marked pages, in ascending order.
    pub fn dirty_pages(&self) -> (r: Vec<u32>)
        requires
            self.inv(),
        ensures
            forall|j: int|
                0 <= j < r@.len() ==> #[trigger] r@[j] < self@.len() && self.marked(r@[j] as int),
            forall|i: int| 0 <= i < self@.len() && self.marked(i) ==> r@.contains(i as u32),
            forall|j: int, k: int| 0 <= j < k < r@.len() ==> r@[j] < r@[k],
    {
        let mut r: Vec<u32> = Vec::new();
        let mut i: usize = 0;
        while i < self.dirty.len()
            invariant
                self.inv(),
                i <= self.dirty@.len(),
                forall|j: int|
                    0 <= j < r@.len() ==> #[trigger] r@[j] < i && self.dirty@[r@[j] as int],
                forall|k: int| 0 <= k < i && self.dirty@[k] ==> r@.contains(k as u32),
                forall|j: int, k: int| 0 <= j < k < r@.len() ==> r@[j] < r@[k],
            decreases self.dirty@.len() - i,
        {
            if self.dirty[i] {
                let ghost before = r@;
                r.push(i as u32);
                proof {
                    assert forall|k: int| 0 <= k < i + 1 && self.dirty@[k] implies r@.contains(
                        k as u32,
                    ) by {
                        if k < i {
                            assert(before.contains(k as u32));
                            assert(r@[before.index_of(k as u32)] == k as u32);
                        } else {
                            assert(r@[before.len() as int] == i as u32);
                        }
                    }
                }
            }
            i = i + 1;
        }
        r
    }

    /// The marked pages in the order in which they have to reach storage: first
    /// all but the meta pages, then the meta pages, which make the others count.
    pub fn store_order(&self) -> (r: (Vec<u32>, Vec<u32>))
        requires
            self.inv(),
        ensures
            forall|j: int|
                0 <= j < r.0@.len() ==> 2 <= #[trigger] r.0@[j] < self@.len() && self.marked(
                    r.0@[j] as int,
                ),
            forall|j: int|
                0 <= j < r.1@.len() ==> #[trigger] r.1@[j] < 2 && r.1@[j] < self@.len()
                    && self.marked(r.1@[j] as int),
            forall|i: int|
                0 <= i < self@.len() && #[trigger] self.marked(i) ==> if i < 2 {
                    r.1@.contains(i as u32)
                } else {
                    r.0@.contains(i as u32)
                },
    {
        let all = self.dirty_pages();
        let mut pages: Vec<u32> = Vec::new();
        let mut metas: Vec<u32> = Vec::new();
        let mut i: usize = 0;
        while i < all.len()
            invariant
                i <= all@.len(),
                forall|j: int|
                    0 <= j < all@.len() ==> #[trigger] all@[j] < self@.len() && self.marked(
                        all@[j] as int,
                    ),
                forall|j: int|
                    0 <= j < pages@.len() ==> 2 <= #[trigger] pages@[j] < self@.len()
                        && self.marked(pages@[j] as int),
                forall|j: int|
                    0 <= j < metas@.len() ==> #[trigger] metas@[j] < 2 && metas@[j] < self@.len()
                        && self.marked(metas@[j] as int),
                forall|j: int|
                    0 <= j < i ==> if #[trigger] all@[j] < 2 {
                        metas@.contains(all@[j])
                    } else {
                        pages@.contains(all@[j])
                    },
            decreases all@.len() - i,
        {
            let ghost m0 = metas@;
            let ghost p0 = pages@;
            if all[i] < 2 {
                metas.push(all[i]);
            } else {
                pages.push(all[i]);
            }
            proof {
                assert forall|j: int| 0 <= j < i + 1 implies if #[trigger] all@[j] < 2 {
                    metas@.contains(all@[j])
                } else {
                    pages@.contains(all@[j])
                } by {
                    if j == i {
                        if all@[j] < 2 {
                            assert(metas@[m0.len() as int] == all@[j]);
                        } else {
                            assert(pages@[p0.len() as int] == all@[j]);
                        }
                    } else if all@[j] < 2 {
                        assert(metas@[m0.index_of(all@[j])] == all@[j]);
                    } else {
                        assert(pages@[p0.index_of(all@[j])] == all@[j]);
                    }
                }
            }
            i = i + 1;
        }
        proof {
            assert forall|i: int| 0 <= i < self@.len() && #[trigger] self.marked(i) implies if i
                < 2 {
                metas@.contains(i as u32)
            } else {
                pages@.contains(i as u32)
            } by {
                assert(all@.contains(i as u32));
                let j = all@.index_of(i as u32);
                assert(all@[j] == i as u32);
            }
        }
        (pages, metas)
    }

    /// Clears every mark, once the marked pages have reached storage.
    pub fn clear_dirty(&mut self)
        requires
            old(self).inv(),
        ensures
            final(self).inv(),
            final(self)@ == old(self)@,
            final(self).kept() == old(self).kept(),
            forall|i: int| 0 <= i < final(self)@.len() ==> !final(self).marked(i),
    {
        let mut i: usize = 0;
        while i < self.dirty.len()
            invariant
                self.pages@ == old(self).pages@,
                self.saved == old(self).saved,
                self.kept_len == old(self).kept_len,
                self.changed == old(self).changed,
                self.dirty@.len() == self.pages@.len(),
                i <= self.dirty@.len(),
                forall|k: int| 0 <= k < i ==> !self.dirty@[k],
            decreases self.dirty@.len() - i,
        {
            self.dirty[i] = false;
            i = i + 1;
        }
        assert(self@ =~= old(self)@);
        assert(self.kept() =~= old(self).kept());
    }
}

} // verus!

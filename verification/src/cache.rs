//! A page cache that evicts the least recently used page.

use crate::page::PAGE_SIZE;
use std::collections::HashMap;
use vstd::prelude::*;

verus! {

broadcast use vstd::std_specs::hash::group_hash_axioms;

/// The order of use after `key` was used: `key` moves to the back.
pub open spec fn moved_to_back(order: Seq<u32>, key: u32) -> Seq<u32> {
    if order.contains(key) {
        order.remove(order.index_of(key)).push(key)
    } else {
        order.push(key)
    }
}

/// The order without `key`.
pub open spec fn without(order: Seq<u32>, key: u32) -> Seq<u32> {
    if order.contains(key) {
        order.remove(order.index_of(key))
    } else {
        order
    }
}

/// A page that is used moves behind all others, which stay in their order; none
/// comes or goes.
pub proof fn lemma_used_is_last(order: Seq<u32>, key: u32, a: u32, b: u32)
    requires
        order.no_duplicates(),
        order.contains(key),
    ensures
        moved_to_back(order, key).len() == order.len(),
        moved_to_back(order, key).last() == key,
        forall|k: u32| #[trigger] moved_to_back(order, key).contains(k) <==> order.contains(k),
        a != key && b != key && order.contains(a) && order.contains(b) && order.index_of(a)
            < order.index_of(b) ==> moved_to_back(order, key).index_of(a) < moved_to_back(
            order,
            key,
        ).index_of(b),
{
    let i = order.index_of(key);
    let d = order.remove(i);
    let r = moved_to_back(order, key);
    lemma_remove(order, i);
    lemma_push(d, key);
    if a != key && b != key && order.contains(a) && order.contains(b) {
        let (x, y) = (order.index_of(a), order.index_of(b));
        let u = if x < i {
            x
        } else {
            x - 1
        };
        let v = if y < i {
            y
        } else {
            y - 1
        };
        assert(r[u] == a && r[v] == b);
        assert(r.contains(a) && r.contains(b));
    }
}

/// Cached pages by page number, and the order in which they were last used.
pub struct PageCache {
    entries: HashMap<u32, Box<[u8; PAGE_SIZE]>>,
    order: Vec<u32>,
    capacity: usize,
}

impl PageCache {
    /// The cached pages.
    pub closed spec fn pages(&self) -> Map<u32, Seq<u8>> {
        Map::new(|k: u32| self.entries@.contains_key(k), |k: u32| (*self.entries@[k])@)
    }

    /// The cached page numbers, the least recently used first.
    pub closed spec fn order(&self) -> Seq<u32> {
        self.order@
    }

    /// The number of pages that fit.
    pub closed spec fn capacity(&self) -> int {
        self.capacity as int
    }

    /// The order lists exactly the cached pages, each once, and they fit.
    pub closed spec fn inv(&self) -> bool {
        &&& self.capacity > 0
        &&& self.order@.len() <= self.capacity
        &&& self.order@.no_duplicates()
        &&& forall|k: u32| self.order@.contains(k) <==> #[trigger] self.entries@.contains_key(k)
    }

    /// What the invariant gives to callers.
    pub proof fn lemma_inv(&self)
        requires
            self.inv(),
        ensures
            self.capacity() > 0,
            self.order().len() <= self.capacity(),
            self.order().no_duplicates(),
            forall|k: u32| self.order().contains(k) <==> #[trigger] self.pages().contains_key(k),
            forall|k: u32| #[trigger]
                self.pages().contains_key(k) ==> self.pages()[k].len() == PAGE_SIZE,
    {
    }

    /// An empty cache for `capacity` pages.
    pub fn new(capacity: usize) -> (r: Self)
        requires
            capacity > 0,
        ensures
            r.inv(),
            r.capacity() == capacity,
            r.pages() == Map::<u32, Seq<u8>>::empty(),
            r.order() == Seq::<u32>::empty(),
    {
        let r = PageCache {
            entries: HashMap::with_capacity(capacity),
            order: Vec::with_capacity(capacity),
            capacity,
        };
        assert(r.pages() =~= Map::<u32, Seq<u8>>::empty());
        r
    }

    /// A copy of a cached page, without a change to the order of use.
    pub fn get(&self, key: u32) -> (r: Option<[u8; PAGE_SIZE]>)
        ensures
            match r {
                Some(p) => self.pages().contains_key(key) && p@ == self.pages()[key],
                None => !self.pages().contains_key(key),
            },
    {
        match self.entries.get(&key) {
            Some(b) => Some(**b),
            None => None,
        }
    }

    fn position(&self, key: u32) -> (r: Option<usize>)
        ensures
            match r {
                Some(i) => i < self.order@.len() && self.order@[i as int] == key && (
                self.order@.no_duplicates() ==> i == self.order@.index_of(key)),
                None => !self.order@.contains(key),
            },
    {
        let mut i: usize = 0;
        while i < self.order.len()
            invariant
                i <= self.order@.len(),
                forall|j: int| 0 <= j < i ==> self.order@[j] != key,
            decreases self.order@.len() - i,
        {
            if self.order[i] == key {
                proof {
                    if self.order@.no_duplicates() {
                        let j = self.order@.index_of(key);
                        assert(self.order@.contains(key));
                        assert(self.order@[j] == key);
                    }
                }
                return Some(i);
            }
            i = i + 1;
        }
        None
    }

    /// Moves `key` to the back of the order of use.
    pub fn touch(&mut self, key: u32)
        requires
            old(self).inv(),
            old(self).pages().contains_key(key),
        ensures
            final(self).inv(),
            final(self).capacity() == old(self).capacity(),
            final(self).pages() == old(self).pages(),
            final(self).order() == moved_to_back(old(self).order(), key),
    {
        let ghost before = self.order@;
        if let Some(pos) = self.position(key) {
            let _ = self.order.remove(pos);
        }
        self.order.push(key);
        proof {
            lemma_moved_to_back(before, key);
        }
    }

    /// Puts a page that is not cached into the cache; where the cache is full,
    /// the least recently used page leaves first.
    pub fn insert(&mut self, key: u32, data: [u8; PAGE_SIZE])
        requires
            old(self).inv(),
            !old(self).pages().contains_key(key),
        ensures
            final(self).inv(),
            final(self).capacity() == old(self).capacity(),
            old(self).order().len() < old(self).capacity() ==> {
                &&& final(self).pages() == old(self).pages().insert(key, data@)
                &&& final(self).order() == old(self).order().push(key)
            },
            old(self).order().len() >= old(self).capacity() ==> {
                &&& final(self).pages() == old(self).pages().remove(old(self).order()[0]).insert(
                    key,
                    data@,
                )
                &&& final(self).order() == old(self).order().remove(0).push(key)
            },
    {
        let ghost order = self.order@;
        let ghost pages = self.pages();
        if self.order.len() >= self.capacity {
            let evicted: u32 = self.order[0];
            let _ = self.entries.remove(&evicted);
            let _ = self.order.remove(0);
            proof {
                assert(order.contains(evicted));
                lemma_remove(order, 0);
                assert(self.pages() =~= pages.remove(evicted));
            }
        }
        let ghost mid = self.pages();
        let ghost mid_order = self.order@;
        assert(!mid_order.contains(key));
        let _ = self.entries.insert(key, Box::new(data));
        self.order.push(key);
        proof {
            assert(self.pages() =~= mid.insert(key, data@));
            lemma_push(mid_order, key);
        }
    }

    /// Replaces the contents of a cached page and moves it to the back.
    pub fn replace(&mut self, key: u32, data: [u8; PAGE_SIZE])
        requires
            old(self).inv(),
            old(self).pages().contains_key(key),
        ensures
            final(self).inv(),
            final(self).capacity() == old(self).capacity(),
            final(self).pages() == old(self).pages().insert(key, data@),
            final(self).order() == moved_to_back(old(self).order(), key),
    {
        let ghost pages = self.pages();
        let _ = self.entries.insert(key, Box::new(data));
        proof {
            assert(self.pages() =~= pages.insert(key, data@));
        }
        self.touch(key);
    }

    /// Drops a page from the cache.
    pub fn remove(&mut self, key: u32)
        requires
            old(self).inv(),
        ensures
            final(self).inv(),
            final(self).capacity() == old(self).capacity(),
            final(self).pages() == old(self).pages().remove(key),
            final(self).order() == without(old(self).order(), key),
    {
        let ghost order = self.order@;
        let ghost pages = self.pages();
        let _ = self.entries.remove(&key);
        if let Some(pos) = self.position(key) {
            let _ = self.order.remove(pos);
            proof {
                assert(order.contains(key));
                lemma_remove(order, pos as int);
            }
        }
        proof {
            assert(self.pages() =~= pages.remove(key));
        }
    }
}

proof fn lemma_remove(order: Seq<u32>, i: int)
    requires
        order.no_duplicates(),
        0 <= i < order.len(),
    ensures
        order.remove(i).no_duplicates(),
        order.remove(i).len() == order.len() - 1,
        forall|k: u32| order.remove(i).contains(k) <==> order.contains(k) && k != order[i],
{
    let r = order.remove(i);
    assert forall|k: u32| r.contains(k) <==> order.contains(k) && k != order[i] by {
        if r.contains(k) {
            let j = r.index_of(k);
            if j < i {
                assert(order[j] == k);
            } else {
                assert(order[j + 1] == k);
            }
        }
        if order.contains(k) && k != order[i] {
            let j = order.index_of(k);
            if j < i {
                assert(r[j] == k);
            } else {
                assert(r[j - 1] == k);
            }
        }
    }
}

proof fn lemma_push(order: Seq<u32>, key: u32)
    requires
        order.no_duplicates(),
        !order.contains(key),
    ensures
        order.push(key).no_duplicates(),
        forall|k: u32| order.push(key).contains(k) <==> order.contains(k) || k == key,
{
    let r = order.push(key);
    assert forall|k: u32| r.contains(k) <==> order.contains(k) || k == key by {
        if order.contains(k) {
            assert(r[order.index_of(k)] == k);
        }
        assert(r[order.len() as int] == key);
    }
}

proof fn lemma_moved_to_back(order: Seq<u32>, key: u32)
    requires
        order.no_duplicates(),
        order.contains(key),
    ensures
        moved_to_back(order, key).no_duplicates(),
        moved_to_back(order, key).len() == order.len(),
        forall|k: u32| moved_to_back(order, key).contains(k) <==> order.contains(k),
{
    let i = order.index_of(key);
    lemma_remove(order, i);
    lemma_push(order.remove(i), key);
}

} // verus!

//! Checks whether the pages of a data file hold a database.

use crate::bytes::{key_le, key_lt, le32_bytes};
use crate::check::{check_tree, claimed, tree_clear};
use crate::model::{
    content, height, is_range, is_tree, lemma_key_length, lemma_owned_in_file, tree_of, tree_owns,
    MAX_KEY_SIZE,
};
use crate::mvcc::catalog::{catalog_list, lists_catalog};
use crate::mvcc::store::{apart, catalog_shape, forest, roots_at, store_ok};
use crate::mvcc::TreeId;
use crate::page::PageId;
use crate::pager::{Pager, PagerReader, PagerView};
use crate::tree::{pairs, tree_guarded, tree_range};
use std::collections::HashSet;
use vstd::prelude::*;

verus! {

broadcast use {crate::bytes::group_byte_lengths, vstd::std_specs::hash::group_hash_axioms};

/// Whether the marks say of each page of the file whether it can be handed out.
pub open spec fn marks_free(v: PagerView, marks: Seq<bool>) -> bool {
    &&& marks.len() == v.file.len()
    &&& forall|x: u32|
        #![trigger marks[x as int]]
        x < marks.len() ==> marks[x as int] == v.is_free(x)
}

/// Whether pages are handed out soundly, and if so, which pages of the file can
/// be handed out.
fn free_marks(pager: &Pager) -> (r: Option<Vec<bool>>)
    requires
        pager.inv(),
    ensures
        match r {
            Some(m) => pager@.alloc_ok() && marks_free(pager@, m@),
            None => !pager@.alloc_ok(),
        },
{
    let ghost v = pager@;
    let next: u32 = pager.meta().next_page_id;
    if next < 2 {
        return None;
    }
    let free = pager.free_pages();
    let mut seen: HashSet<u32> = HashSet::new();
    let mut i: usize = 0;
    while i < free.len()
        invariant
            v == pager@,
            free@ == v.freelist,
            next == v.meta.next_page_id,
            i <= free@.len(),
            forall|j: int| 0 <= j < i ==> 2 <= (#[trigger] free@[j]).0 < next,
            forall|j: int, k: int| 0 <= j < k < i ==> #[trigger] free@[j] != #[trigger] free@[k],
            forall|x: u32| #[trigger]
                seen@.contains(x) <==> exists|j: int| 0 <= j < i && #[trigger] free@[j] == PageId(x),
        decreases free@.len() - i,
    {
        let id: u32 = free[i].0;
        assert(free@[i as int] == PageId(id));
        if id < 2 || id >= next {
            return None;
        }
        if seen.contains(&id) {
            proof {
                let j = choose|j: int| 0 <= j < i && #[trigger] free@[j] == PageId(id);
                assert(free@[j] == free@[i as int]);
            }
            return None;
        }
        let ghost before = seen@;
        let _ = seen.insert(id);
        proof {
            assert forall|x: u32| #[trigger] seen@.contains(x) <==> exists|j: int|
                0 <= j < i + 1 && #[trigger] free@[j] == PageId(x) by {
                if x == id {
                    assert(free@[i as int] == PageId(x));
                } else if before.contains(x) {
                    let j = choose|j: int| 0 <= j < i && #[trigger] free@[j] == PageId(x);
                    assert(free@[j] == PageId(x));
                }
                if exists|j: int| 0 <= j < i + 1 && #[trigger] free@[j] == PageId(x) {
                    let j = choose|j: int| 0 <= j < i + 1 && #[trigger] free@[j] == PageId(x);
                    if j < i {
                        assert(before.contains(x));
                    }
                }
            }
            assert forall|j: int, k: int| 0 <= j < k < i + 1 implies #[trigger] free@[j]
                != #[trigger] free@[k] by {
                if k == i && free@[j] == free@[k] {
                    assert(before.contains(id));
                }
            }
        }
        i = i + 1;
    }
    assert(v.alloc_ok());
    let n: usize = pager.file().page_count();
    let mut marks: Vec<bool> = Vec::new();
    let mut x: usize = 0;
    proof {
        pager.lemma_inv();
    }
    while x < n
        invariant
            n == v.file.len(),
            n <= 4294967296,
            free@ == v.freelist,
            next == v.meta.next_page_id,
            x <= n,
            marks@.len() == x,
            forall|y: u32| #[trigger]
                seen@.contains(y) <==> exists|j: int|
                    0 <= j < free@.len() && #[trigger] free@[j] == PageId(y),
            forall|y: u32|
                #![trigger marks@[y as int]]
                y < x ==> marks@[y as int] == v.is_free(y),
        decreases n - x,
    {
        let id: u32 = x as u32;
        let is_free = id >= next || seen.contains(&id);
        proof {
            if v.freelist.contains(PageId(id)) {
                let j = v.freelist.index_of(PageId(id));
                assert(free@[j] == PageId(id));
            }
            if seen@.contains(id) {
                let j = choose|j: int| 0 <= j < free@.len() && #[trigger] free@[j] == PageId(id);
                assert(v.freelist[j] == PageId(id));
            }
            assert(is_free == v.is_free(id));
        }
        let ghost before = marks@;
        marks.push(is_free);
        proof {
            assert forall|y: u32|
                #![trigger marks@[y as int]]
                y < x + 1 implies marks@[y as int] == v.is_free(y) by {
                if y < x {
                    assert(marks@[y as int] == before[y as int]);
                }
            }
        }
        x = x + 1;
    }
    Some(marks)
}

/// The largest key that a tree can hold.
pub fn largest_key() -> (r: Vec<u8>)
    ensures
        forall|k: Seq<u8>| k.len() <= MAX_KEY_SIZE ==> #[trigger] key_le(k, r@),
{
    let mut r: Vec<u8> = Vec::new();
    let mut i: usize = 0;
    while i < MAX_KEY_SIZE
        invariant
            i <= MAX_KEY_SIZE,
            r@.len() == i,
            forall|j: int| 0 <= j < i ==> r@[j] == 255,
        decreases MAX_KEY_SIZE - i,
    {
        r.push(255);
        i = i + 1;
    }
    proof {
        assert forall|k: Seq<u8>| k.len() <= MAX_KEY_SIZE implies #[trigger] key_le(k, r@) by {
            lemma_below_largest(k, r@);
        }
    }
    r
}

proof fn lemma_below_largest(k: Seq<u8>, top: Seq<u8>)
    requires
        k.len() <= top.len(),
        forall|j: int| 0 <= j < top.len() ==> top[j] == 255,
    ensures
        key_le(k, top),
    decreases k.len(),
{
    if k.len() > 0 {
        if k[0] == top[0] {
            lemma_below_largest(k.drop_first(), top.drop_first());
            if k.drop_first() == top.drop_first() {
                assert(k =~= seq![k[0]] + k.drop_first());
                assert(top =~= seq![top[0]] + top.drop_first());
            }
        }
    } else if top.len() == 0 {
        assert(k =~= top);
    }
}

/// Whether the catalog has keys and values of four bytes.
fn catalog_good(pager: &Pager, root: PageId) -> (r: bool)
    requires
        pager.inv(),
        is_tree(pager@.file, root.0),
    ensures
        r == catalog_shape(content(pager@.file, root.0)),
{
    let ghost m = content(pager@.file, root.0);
    let ghost t = tree_of(pager@.file, root.0);
    let start: Vec<u8> = Vec::new();
    let end = largest_key();
    let mut src = PagerReader { pager };
    let entries = match tree_range(&mut src, root, start.as_slice(), end.as_slice()) {
        Ok(e) => e,
        Err(_) => {
            return false;
        },
    };
    let ghost s = pairs(entries@);
    proof {
        assert forall|k: Seq<u8>| #[trigger] m.contains_key(k) implies s.contains((k, m[k])) by {
            lemma_key_length(t, None, None, height(t), k);
            assert(key_le(start@, k)) by {
                if k.len() == 0 {
                    assert(start@ =~= k);
                }
            }
            assert(key_le(k, end@));
        }
    }
    let mut i: usize = 0;
    while i < entries.len()
        invariant
            m == content(pager@.file, root.0),
            s == pairs(entries@),
            is_range(s, m, start@, end@),
            i <= entries@.len(),
            forall|j: int| 0 <= j < i ==> (#[trigger] s[j]).0.len() == 4 && s[j].1.len() == 4,
        decreases entries@.len() - i,
    {
        assert(s[i as int] == (entries@[i as int].0@, entries@[i as int].1@));
        if entries[i].0.len() != 4 || entries[i].1.len() != 4 {
            proof {
                assert(s.contains((s[i as int].0, s[i as int].1)));
                assert(m.contains_key(s[i as int].0));
            }
            return false;
        }
        i = i + 1;
    }
    proof {
        assert forall|k: Seq<u8>| #[trigger] m.contains_key(k) implies k.len() == 4 && m[k].len()
            == 4 by {
            let j = s.index_of((k, m[k]));
            assert(s[j].0.len() == 4);
        }
    }
    true
}

/// Whether the first trees of the list are well formed and share no page with
/// the catalog, with each other, nor with the pages to hand out, and which pages
/// are in use then.
spec fn checked(
    v: PagerView,
    c: u32,
    list: Seq<(TreeId, PageId)>,
    n: int,
    used: Seq<bool>,
) -> bool {
    &&& used.len() == v.file.len()
    &&& forall|i: int|
        0 <= i < n ==> is_tree(v.file, (#[trigger] list[i]).1.0) && tree_guarded(v, list[i].1.0)
            && apart(v.file, c, list[i].1.0) && apart(v.file, list[i].1.0, c)
    &&& forall|i: int, j: int|
        0 <= i < n && 0 <= j < n && i != j ==> apart(
            v.file,
            (#[trigger] list[i]).1.0,
            (#[trigger] list[j]).1.0,
        )
    &&& forall|x: u32|
        #![trigger used[x as int]]
        x < used.len() ==> used[x as int] == (v.is_free(x) || tree_owns(v.file, c, x)
            || exists|i: int| 0 <= i < n && tree_owns(v.file, (#[trigger] list[i]).1.0, x))
}

proof fn lemma_checked_step(
    v: PagerView,
    c: u32,
    list: Seq<(TreeId, PageId)>,
    n: int,
    before: Seq<bool>,
    after: Seq<bool>,
)
    requires
        0 <= n < list.len(),
        checked(v, c, list, n, before),
        is_tree(v.file, c),
        is_tree(v.file, list[n].1.0),
        tree_clear(v.file, list[n].1.0, before),
        claimed(before, after, tree_of(v.file, list[n].1.0)),
    ensures
        checked(v, c, list, n + 1, after),
{
    let r = list[n].1.0;
    assert forall|x: u32| #[trigger] tree_owns(v.file, r, x) implies !v.is_free(x) && !tree_owns(
        v.file,
        c,
        x,
    ) && forall|i: int| 0 <= i < n ==> !tree_owns(v.file, (#[trigger] list[i]).1.0, x) by {
        assert(!before[x as int]);
        assert forall|i: int| 0 <= i < n implies !tree_owns(v.file, (#[trigger] list[i]).1.0, x) by {
        }
    }
    assert forall|x: u32| #[trigger] tree_owns(v.file, c, x) implies !tree_owns(v.file, r, x) by {
    }
    assert forall|i: int, j: int| 0 <= i < n + 1 && 0 <= j < n + 1 && i != j implies apart(
        v.file,
        (#[trigger] list[i]).1.0,
        (#[trigger] list[j]).1.0,
    ) by {
        assert forall|x: u32| #[trigger] tree_owns(v.file, list[i].1.0, x) implies !tree_owns(
            v.file,
            list[j].1.0,
            x,
        ) by {
            if i < n && j < n {
                assert(apart(v.file, list[i].1.0, list[j].1.0));
            } else if i == n {
                assert(tree_owns(v.file, r, x));
            } else if tree_owns(v.file, r, x) {
                assert(!tree_owns(v.file, list[i].1.0, x));
            }
        }
    }
    assert forall|x: u32|
        #![trigger after[x as int]]
        x < after.len() implies after[x as int] == (v.is_free(x) || tree_owns(v.file, c, x)
        || exists|i: int| 0 <= i < n + 1 && tree_owns(v.file, (#[trigger] list[i]).1.0, x)) by {
        assert(after[x as int] == (before[x as int] || tree_owns(v.file, r, x)));
        if tree_owns(v.file, r, x) {
            assert(tree_owns(v.file, list[n].1.0, x));
        }
        if exists|i: int| 0 <= i < n + 1 && tree_owns(v.file, (#[trigger] list[i]).1.0, x) {
            let i = choose|i: int| 0 <= i < n + 1 && tree_owns(v.file, (#[trigger] list[i]).1.0, x);
            if i < n {
                assert(tree_owns(v.file, list[i].1.0, x));
            }
        }
    }
}

/// In a forest the next tree of the catalog is well formed and clear of what was
/// checked before.
proof fn lemma_next_clear(
    v: PagerView,
    c: u32,
    list: Seq<(TreeId, PageId)>,
    n: int,
    used: Seq<bool>,
    roots: Map<u32, u32>,
)
    requires
        0 <= n < list.len(),
        checked(v, c, list, n, used),
        lists_catalog(list, roots),
        forest(v, c, roots),
    ensures
        is_tree(v.file, list[n].1.0),
        tree_clear(v.file, list[n].1.0, used),
{
    let r = list[n].1.0;
    let id = list[n].0.0;
    assert(roots.contains_key(id) && roots[id] == r);
    let t = tree_of(v.file, r);
    assert forall|x: u32| #[trigger] tree_owns(v.file, r, x) implies x < used.len()
        && !used[x as int] by {
        lemma_owned_in_file(v.file, t, None, None, height(t), x);
        assert(!v.is_free(x));
        assert(!tree_owns(v.file, c, x));
        assert forall|i: int| 0 <= i < n implies !tree_owns(v.file, (#[trigger] list[i]).1.0, x) by {
            let other = list[i].0.0;
            assert(roots.contains_key(other) && roots[other] == list[i].1.0);
            let ks = Seq::new(list.len(), |k: int| le32_bytes(list[k].0.0));
            assert(key_lt(ks[i], ks[n]));
            crate::bytes::lemma_key_asymmetric(ks[i], ks[n]);
            assert(other != id);
            assert(apart(v.file, roots[id], roots[other]));
        }
    }
}

/// Whether the pages hold a database with its catalog at `root`.
pub fn holds_store(pager: &Pager, root: PageId) -> (r: bool)
    requires
        pager.inv(),
    ensures
        r == store_ok(pager@, root.0),
{
    let ghost v = pager@;
    let ghost c = root.0;
    let mut used = match free_marks(pager) {
        Some(m) => m,
        None => {
            return false;
        },
    };
    if root.0 == 0 {
        return true;
    }
    if root.0 < 2 {
        return false;
    }
    let ghost free = used@;
    let file = pager.file();
    if !check_tree(file, root, &mut used) {
        proof {
            if store_ok(v, c) {
                let t = tree_of(v.file, c);
                assert forall|x: u32| #[trigger] tree_owns(v.file, c, x) implies x < free.len()
                    && !free[x as int] by {
                    lemma_owned_in_file(v.file, t, None, None, height(t), x);
                    assert(!v.is_free(x));
                }
            }
        }
        return false;
    }
    if !catalog_good(pager, root) {
        return false;
    }
    let ghost roots = roots_at(v.file, c);
    let mut src = PagerReader { pager };
    let list = match catalog_list(&mut src, root) {
        Ok(l) => l,
        Err(_) => {
            return false;
        },
    };
    assert(checked(v, c, list@, 0, used@)) by {
        assert forall|x: u32|
            #![trigger used@[x as int]]
            x < used@.len() implies used@[x as int] == (v.is_free(x) || tree_owns(v.file, c, x)
            || exists|i: int| 0 <= i < 0 && tree_owns(v.file, (#[trigger] list@[i]).1.0, x)) by {
            assert(free[x as int] == v.is_free(x));
        }
    }
    let mut i: usize = 0;
    while i < list.len()
        invariant
            v == pager@,
            c == root.0,
            file@ == v.file,
            c >= 2,
            is_tree(v.file, c),
            roots == roots_at(v.file, c),
            lists_catalog(list@, roots),
            i <= list@.len(),
            checked(v, c, list@, i as int, used@),
        decreases list@.len() - i,
    {
        let ghost before = used@;
        if !check_tree(file, list[i].1, &mut used) {
            proof {
                if store_ok(v, c) {
                    lemma_next_clear(v, c, list@, i as int, before, roots);
                }
            }
            return false;
        }
        proof {
            lemma_checked_step(v, c, list@, i as int, before, used@);
        }
        i = i + 1;
    }
    proof {
        assert forall|x: u32| #[trigger] tree_owns(v.file, c, x) implies !v.is_free(x) by {
            assert(!free[x as int]);
        }
        assert forall|id: u32| #[trigger] roots.contains_key(id) implies is_tree(
            v.file,
            roots[id],
        ) && tree_guarded(v, roots[id]) && apart(v.file, c, roots[id]) && apart(
            v.file,
            roots[id],
            c,
        ) by {
            let i = choose|i: int|
                0 <= i < list@.len() && #[trigger] list@[i] == (TreeId(id), PageId(roots[id]));
            assert(list@[i].1.0 == roots[id]);
        }
        assert forall|a: u32, b: u32|
            a != b && #[trigger] roots.contains_key(a) && #[trigger] roots.contains_key(
                b,
            ) implies apart(v.file, roots[a], roots[b]) by {
            let i = choose|i: int|
                0 <= i < list@.len() && #[trigger] list@[i] == (TreeId(a), PageId(roots[a]));
            let j = choose|j: int|
                0 <= j < list@.len() && #[trigger] list@[j] == (TreeId(b), PageId(roots[b]));
            assert(list@[i].1.0 == roots[a] && list@[j].1.0 == roots[b]);
            assert(i != j);
        }
        assert(forest(v, c, roots));
    }
    true
}

} // verus!

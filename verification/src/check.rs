//! Checks whether the pages of a data file hold well-formed trees that share no
//! page.

use crate::bytes::{
    key_le, key_less, key_lt, lemma_key_asymmetric, lemma_key_total, lemma_key_transitive,
};
use crate::datafile::DataFile;
use crate::model::{
    distinct, good_entries, good_kids, height, in_bounds, is_tree, kid_hi, kid_lo,
    lemma_height_bound, lemma_is_tree, lemma_rep_unique, ok, owns, rep, root_id, strictly_within,
    tree_of, tree_owns, Tree, MAX_KEY_SIZE, MAX_VALUE_SIZE,
};
use crate::node::{
    data_len, internal_fits, internal_keys, internal_kids, internal_readable, keys_len, keys_of,
    leaf_entries, leaf_fits, leaf_readable, lemma_data_len_mono, lemma_data_len_step,
    lemma_keys_len_mono, lemma_keys_len_step, page_count, sorted_keys, InternalNode, LeafNode,
    INTERNAL_SLOTS_OFFSET, INTERNAL_SLOT_SIZE, LEAF_SLOTS_OFFSET, LEAF_SLOT_SIZE, NUM_OFFSET,
};
use crate::page::{header_id, read_u16, PageId, PAGE_SIZE};
use vstd::prelude::*;

verus! {

/// A bound that may be missing, as a value.
pub open spec fn bound(b: Option<&[u8]>) -> Option<Seq<u8>> {
    match b {
        Some(k) => Some(k@),
        None => None,
    }
}

/// Whether `t` is the well-formed tree of height `h` between two bounds that
/// the pages hold from page `id` on, none of its pages being in use.
pub open spec fn sound_tree(
    pages: Seq<Seq<u8>>,
    t: Tree,
    id: u32,
    lo: Option<Seq<u8>>,
    hi: Option<Seq<u8>>,
    h: nat,
    used: Seq<bool>,
) -> bool {
    &&& rep(pages, t)
    &&& root_id(t) == id
    &&& ok(t, lo, hi, h)
    &&& distinct(t)
    &&& forall|x: u32| #[trigger] owns(t, x) ==> x < used.len() && !used[x as int]
}

/// Whether the pages hold such a tree.
pub open spec fn sound_at(
    pages: Seq<Seq<u8>>,
    id: u32,
    lo: Option<Seq<u8>>,
    hi: Option<Seq<u8>>,
    h: nat,
    used: Seq<bool>,
) -> bool {
    exists|t: Tree| #[trigger] sound_tree(pages, t, id, lo, hi, h, used)
}

/// Whether the pages of the tree, and no others, came into use.
pub open spec fn claimed(before: Seq<bool>, after: Seq<bool>, t: Tree) -> bool {
    &&& after.len() == before.len()
    &&& forall|x: u32|
        #![trigger after[x as int]]
        #![trigger owns(t, x)]
        x < after.len() ==> after[x as int] == (before[x as int] || owns(t, x))
}

fn at_least(lo: Option<&[u8]>, key: &[u8]) -> (r: bool)
    ensures
        r == (bound(lo) matches Some(l) ==> key_le(l, key@)),
{
    match lo {
        Some(l) => {
            proof {
                lemma_key_total(l@, key@);
                if key_lt(key@, l@) {
                    lemma_key_asymmetric(key@, l@);
                }
            }
            !key_less(key, l)
        },
        None => true,
    }
}

fn above(lo: Option<&[u8]>, key: &[u8]) -> (r: bool)
    ensures
        r == (bound(lo) matches Some(l) ==> key_lt(l, key@)),
{
    match lo {
        Some(l) => key_less(l, key),
        None => true,
    }
}

fn below(hi: Option<&[u8]>, key: &[u8]) -> (r: bool)
    ensures
        r == (bound(hi) matches Some(u) ==> key_lt(key@, u)),
{
    match hi {
        Some(u) => key_less(key, u),
        None => true,
    }
}

/// Adding a key that comes after the last keeps keys sorted.
proof fn lemma_sorted_push(keys: Seq<Seq<u8>>, n: int)
    requires
        0 <= n < keys.len(),
        sorted_keys(keys.take(n)),
        n > 0 ==> key_lt(keys[n - 1], keys[n]),
    ensures
        sorted_keys(keys.take(n + 1)),
{
    let s = keys.take(n + 1);
    assert forall|i: int, j: int| 0 <= i < j < s.len() implies #[trigger] key_lt(s[i], s[j]) by {
        if j < n {
            assert(key_lt(keys.take(n)[i], keys.take(n)[j]));
        } else if i < n - 1 {
            assert(key_lt(keys.take(n)[i], keys.take(n)[n - 1]));
            lemma_key_transitive(keys[i], keys[n - 1], keys[n]);
        }
    }
}

// ---------------------------------------------------------------------------
// Leaves
// ---------------------------------------------------------------------------

fn read_leaf(buf: &[u8; PAGE_SIZE]) -> (r: Option<LeafNode>)
    ensures
        match r {
            Some(node) => leaf_readable(buf@) && node.page_id == header_id(buf@) && node@
                == leaf_entries(buf@),
            None => !leaf_readable(buf@),
        },
{
    let n: usize = read_u16(buf, NUM_OFFSET) as usize;
    assert(n == page_count(buf@));
    if LEAF_SLOTS_OFFSET + n * LEAF_SLOT_SIZE > PAGE_SIZE {
        return None;
    }
    match LeafNode::from_page(buf) {
        Ok(node) => Some(node),
        Err(_) => None,
    }
}

fn entries_good(node: &LeafNode, lo: Option<&[u8]>, hi: Option<&[u8]>) -> (r: bool)
    ensures
        r == good_entries(node@, bound(lo), bound(hi)),
{
    let ghost es = node@;
    let ghost keys = keys_of(es);
    let mut i: usize = 0;
    while i < node.entries.len()
        invariant
            es == node@,
            keys == keys_of(es),
            i <= es.len(),
            sorted_keys(keys.take(i as int)),
            forall|j: int|
                0 <= j < i ==> (#[trigger] es[j]).0.len() <= MAX_KEY_SIZE && es[j].1.len()
                    <= MAX_VALUE_SIZE && in_bounds(es[j].0, bound(lo), bound(hi)),
        decreases es.len() - i,
    {
        let key = node.entries[i].key.as_slice();
        assert(es[i as int] == (key@, node.entries@[i as int].value@));
        assert(keys[i as int] == key@);
        if key.len() > MAX_KEY_SIZE || node.entries[i].value.len() > MAX_VALUE_SIZE || !at_least(
            lo,
            key,
        ) || !below(hi, key) {
            return false;
        }
        if i > 0 && !key_less(node.entries[i - 1].key.as_slice(), key) {
            assert(keys[i - 1] == node.entries@[i - 1].key@);
            assert(!key_lt(keys[i - 1], keys[i as int]));
            return false;
        }
        proof {
            if i > 0 {
                assert(keys[i - 1] == node.entries@[i - 1].key@);
            }
            lemma_sorted_push(keys, i as int);
        }
        i = i + 1;
    }
    assert(keys.take(keys.len() as int) =~= keys);
    true
}

fn leaf_small(node: &LeafNode) -> (r: bool)
    ensures
        r == leaf_fits(node@),
{
    let ghost es = node@;
    let mut size: usize = LEAF_SLOTS_OFFSET;
    let mut i: usize = 0;
    assert(data_len(es.take(0)) == 0);
    while i < node.entries.len()
        invariant
            es == node@,
            i <= es.len(),
            size == LEAF_SLOTS_OFFSET + LEAF_SLOT_SIZE * i + data_len(es.take(i as int)),
            size <= PAGE_SIZE,
        decreases es.len() - i,
    {
        let k: usize = node.entries[i].key.len();
        let v: usize = node.entries[i].value.len();
        assert(es[i as int] == (node.entries@[i as int].key@, node.entries@[i as int].value@));
        proof {
            lemma_data_len_step(es, i as int);
            lemma_data_len_mono(es, i + 1, es.len() as int);
            assert(es.take(es.len() as int) =~= es);
        }
        if k > PAGE_SIZE || v > PAGE_SIZE || size + LEAF_SLOT_SIZE + k + v > PAGE_SIZE {
            return false;
        }
        size = size + LEAF_SLOT_SIZE + k + v;
        i = i + 1;
    }
    assert(es.take(es.len() as int) =~= es);
    true
}

// ---------------------------------------------------------------------------
// Internal nodes
// ---------------------------------------------------------------------------

fn read_internal(buf: &[u8; PAGE_SIZE]) -> (r: Option<InternalNode>)
    ensures
        match r {
            Some(node) => internal_readable(buf@) && node.page_id == header_id(buf@)
                && node.keys() == internal_keys(buf@) && node.kids() == internal_kids(buf@),
            None => !internal_readable(buf@),
        },
{
    let n: usize = read_u16(buf, NUM_OFFSET) as usize;
    assert(n == page_count(buf@));
    if INTERNAL_SLOTS_OFFSET + n * INTERNAL_SLOT_SIZE > PAGE_SIZE {
        return None;
    }
    match InternalNode::from_page(buf) {
        Ok(node) => Some(node),
        Err(_) => None,
    }
}

/// Whether keys can stand in an internal node between two bounds.
pub open spec fn good_keys(keys: Seq<Seq<u8>>, lo: Option<Seq<u8>>, hi: Option<Seq<u8>>) -> bool {
    &&& keys.len() >= 1
    &&& sorted_keys(keys)
    &&& forall|i: int|
        0 <= i < keys.len() ==> (#[trigger] keys[i]).len() <= MAX_KEY_SIZE && strictly_within(
            keys[i],
            lo,
            hi,
        )
}

fn keys_good(node: &InternalNode, lo: Option<&[u8]>, hi: Option<&[u8]>) -> (r: bool)
    ensures
        r == good_keys(node.keys(), bound(lo), bound(hi)),
{
    let ghost keys = node.keys();
    if node.entries.len() == 0 {
        return false;
    }
    let mut i: usize = 0;
    while i < node.entries.len()
        invariant
            keys == node.keys(),
            i <= keys.len(),
            sorted_keys(keys.take(i as int)),
            forall|j: int|
                0 <= j < i ==> (#[trigger] keys[j]).len() <= MAX_KEY_SIZE && strictly_within(
                    keys[j],
                    bound(lo),
                    bound(hi),
                ),
        decreases keys.len() - i,
    {
        let key = node.entries[i].key.as_slice();
        assert(keys[i as int] == key@);
        if key.len() > MAX_KEY_SIZE || !above(lo, key) || !below(hi, key) {
            return false;
        }
        if i > 0 && !key_less(node.entries[i - 1].key.as_slice(), key) {
            assert(keys[i - 1] == node.entries@[i - 1].key@);
            assert(!key_lt(keys[i - 1], keys[i as int]));
            return false;
        }
        proof {
            if i > 0 {
                assert(keys[i - 1] == node.entries@[i - 1].key@);
            }
            lemma_sorted_push(keys, i as int);
        }
        i = i + 1;
    }
    assert(keys.take(keys.len() as int) =~= keys);
    true
}

fn internal_small(node: &InternalNode) -> (r: bool)
    ensures
        r == internal_fits(node.keys()),
{
    let ghost keys = node.keys();
    let mut size: usize = INTERNAL_SLOTS_OFFSET;
    let mut i: usize = 0;
    assert(keys_len(keys.take(0)) == 0);
    while i < node.entries.len()
        invariant
            keys == node.keys(),
            i <= keys.len(),
            size == INTERNAL_SLOTS_OFFSET + INTERNAL_SLOT_SIZE * i + keys_len(keys.take(i as int)),
            size <= PAGE_SIZE,
        decreases keys.len() - i,
    {
        let k: usize = node.entries[i].key.len();
        assert(keys[i as int] == node.entries@[i as int].key@);
        proof {
            lemma_keys_len_step(keys, i as int);
            lemma_keys_len_mono(keys, i + 1, keys.len() as int);
            assert(keys.take(keys.len() as int) =~= keys);
        }
        if k > PAGE_SIZE || size + INTERNAL_SLOT_SIZE + k > PAGE_SIZE {
            return false;
        }
        size = size + INTERNAL_SLOT_SIZE + k;
        i = i + 1;
    }
    assert(keys.take(keys.len() as int) =~= keys);
    true
}

// ---------------------------------------------------------------------------
// Trees
// ---------------------------------------------------------------------------

/// What stands on the top page of a sound tree.
proof fn lemma_top(
    pages: Seq<Seq<u8>>,
    t: Tree,
    id: u32,
    lo: Option<Seq<u8>>,
    hi: Option<Seq<u8>>,
    h: nat,
    used: Seq<bool>,
)
    requires
        sound_tree(pages, t, id, lo, hi, h, used),
    ensures
        2 <= id < pages.len(),
        id < used.len(),
        !used[id as int],
        header_id(pages[id as int]) == PageId(id),
        h == 0 ==> {
            &&& leaf_readable(pages[id as int])
            &&& t == (Tree::Leaf { id, entries: leaf_entries(pages[id as int]) })
            &&& good_entries(leaf_entries(pages[id as int]), lo, hi)
            &&& leaf_fits(leaf_entries(pages[id as int]))
        },
        h > 0 ==> {
            &&& internal_readable(pages[id as int])
            &&& t is Node
            &&& t->keys == internal_keys(pages[id as int])
            &&& good_keys(t->keys, lo, hi)
            &&& internal_fits(t->keys)
        },
{
    assert(owns(t, id));
}

/// Whether `t` is a sound child number `j` of an internal node.
pub open spec fn sound_kid(
    pages: Seq<Seq<u8>>,
    keys: Seq<Seq<u8>>,
    kids: Seq<PageId>,
    t: Tree,
    j: int,
    lo: Option<Seq<u8>>,
    hi: Option<Seq<u8>>,
    h: nat,
) -> bool {
    &&& rep(pages, t)
    &&& root_id(t) == kids[j].0
    &&& ok(t, kid_lo(keys, lo, j), kid_hi(keys, hi, j), h)
    &&& distinct(t)
}

/// Whether the first children of an internal node are sound, share no page, and
/// are what came into use besides the node itself.
pub open spec fn sound_kids(
    pages: Seq<Seq<u8>>,
    id: u32,
    keys: Seq<Seq<u8>>,
    kids: Seq<PageId>,
    done: Seq<Tree>,
    lo: Option<Seq<u8>>,
    hi: Option<Seq<u8>>,
    h: nat,
    before: Seq<bool>,
    after: Seq<bool>,
) -> bool {
    &&& forall|j: int|
        0 <= j < done.len() ==> sound_kid(pages, keys, kids, #[trigger] done[j], j, lo, hi, h)
    &&& forall|j: int, x: u32|
        0 <= j < done.len() && #[trigger] owns(done[j], x) ==> x < before.len()
            && !before[x as int] && x != id
    &&& forall|j: int, k: int, x: u32|
        0 <= j < done.len() && 0 <= k < done.len() && j != k && #[trigger] owns(done[j], x)
            ==> !#[trigger] owns(done[k], x)
    &&& after.len() == before.len()
    &&& forall|x: u32|
        #![trigger after[x as int]]
        x < after.len() ==> after[x as int] == (before[x as int] || x == id || exists|j: int|
            0 <= j < done.len() && owns(#[trigger] done[j], x))
}

/// A child of a sound tree is sound on what its elder siblings left.
proof fn lemma_next_kid(
    pages: Seq<Seq<u8>>,
    t: Tree,
    id: u32,
    done: Seq<Tree>,
    lo: Option<Seq<u8>>,
    hi: Option<Seq<u8>>,
    h: nat,
    before: Seq<bool>,
    after: Seq<bool>,
)
    requires
        h > 0,
        sound_tree(pages, t, id, lo, hi, h, before),
        sound_kids(
            pages,
            id,
            internal_keys(pages[id as int]),
            internal_kids(pages[id as int]),
            done,
            lo,
            hi,
            (h - 1) as nat,
            before,
            after,
        ),
        done.len() < t->kids.len(),
    ensures
        ({
            let keys = internal_keys(pages[id as int]);
            let i = done.len() as int;
            sound_at(
                pages,
                internal_kids(pages[id as int])[i].0,
                kid_lo(keys, lo, i),
                kid_hi(keys, hi, i),
                (h - 1) as nat,
                after,
            )
        }),
{
    lemma_top(pages, t, id, lo, hi, h, before);
    let keys = internal_keys(pages[id as int]);
    let kids = internal_kids(pages[id as int]);
    let i = done.len() as int;
    let kid = t->kids[i];
    assert(good_kids(keys, t->kids, lo, hi, (h - 1) as nat));
    assert(root_id(kid) == kids[i].0 && rep(pages, kid));
    assert(ok(kid, kid_lo(keys, lo, i), kid_hi(keys, hi, i), (h - 1) as nat));
    assert forall|x: u32| #[trigger] owns(kid, x) implies x < after.len() && !after[x as int] by {
        assert(owns(t, x));
        assert(x != id);
        assert forall|j: int| 0 <= j < i implies !owns(#[trigger] done[j], x) by {
            let elder = t->kids[j];
            assert(sound_kid(pages, keys, kids, done[j], j, lo, hi, (h - 1) as nat));
            assert(root_id(elder) == kids[j].0 && rep(pages, elder));
            lemma_rep_unique(pages, done[j], elder);
            if owns(elder, x) {
                assert(!owns(kid, x));
            }
        }
    }
    assert(sound_tree(
        pages,
        kid,
        kids[i].0,
        kid_lo(keys, lo, i),
        kid_hi(keys, hi, i),
        (h - 1) as nat,
        after,
    ));
}

/// One more sound child on pages that were not in use.
proof fn lemma_add_kid(
    pages: Seq<Seq<u8>>,
    id: u32,
    keys: Seq<Seq<u8>>,
    kids: Seq<PageId>,
    done: Seq<Tree>,
    t: Tree,
    lo: Option<Seq<u8>>,
    hi: Option<Seq<u8>>,
    h: nat,
    before: Seq<bool>,
    mid: Seq<bool>,
    after: Seq<bool>,
)
    requires
        sound_kids(pages, id, keys, kids, done, lo, hi, h, before, mid),
        sound_tree(
            pages,
            t,
            kids[done.len() as int].0,
            kid_lo(keys, lo, done.len() as int),
            kid_hi(keys, hi, done.len() as int),
            h,
            mid,
        ),
        claimed(mid, after, t),
    ensures
        sound_kids(pages, id, keys, kids, done.push(t), lo, hi, h, before, after),
{
    let all = done.push(t);
    let n = done.len() as int;
    assert forall|j: int| 0 <= j < all.len() implies sound_kid(
        pages,
        keys,
        kids,
        #[trigger] all[j],
        j,
        lo,
        hi,
        h,
    ) by {
        if j < n {
            assert(all[j] == done[j]);
        }
    }
    assert forall|j: int, x: u32| 0 <= j < all.len() && #[trigger] owns(all[j], x) implies x
        < before.len() && !before[x as int] && x != id by {
        if j < n {
            assert(owns(done[j], x));
        } else {
            assert(owns(t, x));
            assert(!mid[x as int]);
        }
    }
    assert forall|j: int, k: int, x: u32|
        0 <= j < all.len() && 0 <= k < all.len() && j != k && #[trigger] owns(
            all[j],
            x,
        ) implies !#[trigger] owns(all[k], x) by {
        if j < n && k < n {
            assert(owns(done[j], x));
            assert(!owns(done[k], x));
        } else if j < n {
            assert(owns(done[j], x));
            assert(mid[x as int]);
        } else {
            assert(owns(t, x));
            assert(!mid[x as int]);
            if owns(all[k], x) {
                assert(owns(done[k], x));
            }
        }
    }
    assert forall|x: u32|
        #![trigger after[x as int]]
        x < after.len() implies after[x as int] == (before[x as int] || x == id || exists|j: int|
        0 <= j < all.len() && owns(#[trigger] all[j], x)) by {
        assert(after[x as int] == (mid[x as int] || owns(t, x)));
        if owns(t, x) {
            assert(owns(all[n], x));
        }
        if mid[x as int] && !before[x as int] && x != id {
            let j = choose|j: int| 0 <= j < done.len() && owns(#[trigger] done[j], x);
            assert(owns(all[j], x));
        }
        if exists|j: int| 0 <= j < all.len() && owns(#[trigger] all[j], x) {
            let j = choose|j: int| 0 <= j < all.len() && owns(#[trigger] all[j], x);
            if j < n {
                assert(owns(done[j], x));
                assert(mid[x as int]);
            }
        }
    }
}

/// A node whose children are all sound is the top of a sound tree.
proof fn lemma_all_kids(
    pages: Seq<Seq<u8>>,
    id: u32,
    done: Seq<Tree>,
    lo: Option<Seq<u8>>,
    hi: Option<Seq<u8>>,
    h: nat,
    before: Seq<bool>,
    after: Seq<bool>,
)
    requires
        h > 0,
        2 <= id < pages.len(),
        before.len() == pages.len(),
        !before[id as int],
        internal_readable(pages[id as int]),
        header_id(pages[id as int]) == PageId(id),
        good_keys(internal_keys(pages[id as int]), lo, hi),
        internal_fits(internal_keys(pages[id as int])),
        done.len() == internal_kids(pages[id as int]).len(),
        sound_kids(
            pages,
            id,
            internal_keys(pages[id as int]),
            internal_kids(pages[id as int]),
            done,
            lo,
            hi,
            (h - 1) as nat,
            before,
            after,
        ),
    ensures
        ({
            let t = Tree::Node { id, keys: internal_keys(pages[id as int]), kids: done };
            sound_tree(pages, t, id, lo, hi, h, before) && claimed(before, after, t)
        }),
{
    let keys = internal_keys(pages[id as int]);
    let kids = internal_kids(pages[id as int]);
    let t = Tree::Node { id, keys, kids: done };
    assert forall|i: int| 0 <= i < done.len() implies root_id(#[trigger] done[i]) == kids[i].0
        && rep(pages, done[i]) && distinct(done[i]) && !owns(done[i], id) && ok(
        done[i],
        kid_lo(keys, lo, i),
        kid_hi(keys, hi, i),
        (h - 1) as nat,
    ) by {
        assert(sound_kid(pages, keys, kids, done[i], i, lo, hi, (h - 1) as nat));
    }
    assert(good_kids(keys, done, lo, hi, (h - 1) as nat));
    assert(rep(pages, t));
    assert(ok(t, lo, hi, h));
    assert(distinct(t));
    assert forall|x: u32| #[trigger] owns(t, x) implies x < before.len() && !before[x as int] by {
        if x != id {
            let j = choose|j: int| 0 <= j < done.len() && owns(#[trigger] done[j], x);
            assert(owns(done[j], x));
        }
    }
}

/// Whether the pages hold a well-formed tree of height `h` between two bounds
/// from page `id` on, none of whose pages is in use. Its pages come into use.
fn check_node(
    file: &DataFile,
    id: u32,
    lo: Option<&[u8]>,
    hi: Option<&[u8]>,
    h: u32,
    used: &mut Vec<bool>,
) -> (r: bool)
    requires
        old(used)@.len() == file@.len(),
    ensures
        final(used)@.len() == old(used)@.len(),
        r == sound_at(file@, id, bound(lo), bound(hi), h as nat, old(used)@),
        r ==> forall|t: Tree| #[trigger]
            sound_tree(file@, t, id, bound(lo), bound(hi), h as nat, old(used)@) ==> claimed(
                old(used)@,
                final(used)@,
                t,
            ),
    decreases h,
{
    let ghost pages = file@;
    let ghost before = used@;
    proof {
        assert forall|t: Tree| #[trigger]
            sound_tree(pages, t, id, bound(lo), bound(hi), h as nat, before) implies 2 <= id
            < pages.len() && !before[id as int] by {
            lemma_top(pages, t, id, bound(lo), bound(hi), h as nat, before);
        }
    }
    if id < 2 {
        return false;
    }
    let buf = match file.read(PageId(id)) {
        Some(b) => b,
        None => {
            return false;
        },
    };
    let at: usize = id as usize;
    if used[at] {
        return false;
    }
    used[at] = true;
    if h == 0 {
        let node = match read_leaf(&buf) {
            Some(n) => n,
            None => {
                proof {
                    lemma_no_top(pages, id, bound(lo), bound(hi), h as nat, before);
                }
                return false;
            },
        };
        if node.page_id.0 != id || !entries_good(&node, lo, hi) || !leaf_small(&node) {
            proof {
                lemma_no_top(pages, id, bound(lo), bound(hi), h as nat, before);
            }
            return false;
        }
        proof {
            let t = Tree::Leaf { id, entries: node@ };
            assert(sound_tree(pages, t, id, bound(lo), bound(hi), h as nat, before));
            assert(claimed(before, used@, t));
            lemma_one_claim(pages, t, id, bound(lo), bound(hi), h as nat, before, used@);
        }
        return true;
    }
    let node = match read_internal(&buf) {
        Some(n) => n,
        None => {
            proof {
                lemma_no_top(pages, id, bound(lo), bound(hi), h as nat, before);
            }
            return false;
        },
    };
    if node.page_id.0 != id || !keys_good(&node, lo, hi) || !internal_small(&node) {
        proof {
            lemma_no_top(pages, id, bound(lo), bound(hi), h as nat, before);
        }
        return false;
    }
    let n: usize = node.entries.len();
    let ghost keys = node.keys();
    let ghost kids = node.kids();
    let ghost mut done: Seq<Tree> = Seq::empty();
    let mut i: usize = 0;
    while i <= n
        invariant
            pages == file@,
            before == old(used)@,
            2 <= id < pages.len(),
            before.len() == pages.len(),
            !before[id as int],
            h > 0,
            keys == node.keys(),
            kids == node.kids(),
            keys == internal_keys(pages[id as int]),
            kids == internal_kids(pages[id as int]),
            n == node.entries@.len(),
            n < usize::MAX,
            i <= n + 1,
            done.len() == i,
            used@.len() == before.len(),
            sound_kids(
                pages,
                id,
                keys,
                kids,
                done,
                bound(lo),
                bound(hi),
                (h - 1) as nat,
                before,
                used@,
            ),
        decreases n + 1 - i,
    {
        let child: PageId = if i < n {
            node.entries[i].child
        } else {
            node.right_child
        };
        let kid_low: Option<&[u8]> = if i == 0 {
            lo
        } else {
            Some(node.entries[i - 1].key.as_slice())
        };
        let kid_high: Option<&[u8]> = if i == n {
            hi
        } else {
            Some(node.entries[i].key.as_slice())
        };
        let ghost mid = used@;
        assert(child == kids[i as int]);
        assert(bound(kid_low) == kid_lo(keys, bound(lo), i as int));
        assert(bound(kid_high) == kid_hi(keys, bound(hi), i as int));
        if !check_node(file, child.0, kid_low, kid_high, h - 1, used) {
            proof {
                assert forall|t: Tree| !#[trigger] sound_tree(
                    pages,
                    t,
                    id,
                    bound(lo),
                    bound(hi),
                    h as nat,
                    before,
                ) by {
                    if sound_tree(pages, t, id, bound(lo), bound(hi), h as nat, before) {
                        lemma_top(pages, t, id, bound(lo), bound(hi), h as nat, before);
                        lemma_next_kid(
                            pages,
                            t,
                            id,
                            done,
                            bound(lo),
                            bound(hi),
                            h as nat,
                            before,
                            mid,
                        );
                    }
                }
            }
            return false;
        }
        proof {
            let t = choose|t: Tree| #[trigger]
                sound_tree(
                    pages,
                    t,
                    child.0,
                    bound(kid_low),
                    bound(kid_high),
                    (h - 1) as nat,
                    mid,
                );
            lemma_add_kid(
                pages,
                id,
                keys,
                kids,
                done,
                t,
                bound(lo),
                bound(hi),
                (h - 1) as nat,
                before,
                mid,
                used@,
            );
            done = done.push(t);
        }
        i = i + 1;
    }
    proof {
        lemma_all_kids(pages, id, done, bound(lo), bound(hi), h as nat, before, used@);
        let t = Tree::Node { id, keys, kids: done };
        lemma_one_claim(pages, t, id, bound(lo), bound(hi), h as nat, before, used@);
    }
    true
}

/// Without a good top page there is no sound tree.
proof fn lemma_no_top(
    pages: Seq<Seq<u8>>,
    id: u32,
    lo: Option<Seq<u8>>,
    hi: Option<Seq<u8>>,
    h: nat,
    used: Seq<bool>,
)
    requires
        h == 0 ==> !leaf_readable(pages[id as int]) || header_id(pages[id as int]) != PageId(id)
            || !good_entries(leaf_entries(pages[id as int]), lo, hi) || !leaf_fits(
            leaf_entries(pages[id as int]),
        ),
        h > 0 ==> !internal_readable(pages[id as int]) || header_id(pages[id as int]) != PageId(id)
            || !good_keys(internal_keys(pages[id as int]), lo, hi) || !internal_fits(
            internal_keys(pages[id as int]),
        ),
    ensures
        !sound_at(pages, id, lo, hi, h, used),
{
    assert forall|t: Tree| !#[trigger] sound_tree(pages, t, id, lo, hi, h, used) by {
        if sound_tree(pages, t, id, lo, hi, h, used) {
            lemma_top(pages, t, id, lo, hi, h, used);
        }
    }
}

/// There is one tree at a page, so what it claims is claimed by any.
proof fn lemma_one_claim(
    pages: Seq<Seq<u8>>,
    t: Tree,
    id: u32,
    lo: Option<Seq<u8>>,
    hi: Option<Seq<u8>>,
    h: nat,
    before: Seq<bool>,
    after: Seq<bool>,
)
    requires
        sound_tree(pages, t, id, lo, hi, h, before),
        claimed(before, after, t),
    ensures
        sound_at(pages, id, lo, hi, h, before),
        forall|s: Tree| #[trigger]
            sound_tree(pages, s, id, lo, hi, h, before) ==> claimed(before, after, s),
{
    assert forall|s: Tree| #[trigger]
        sound_tree(pages, s, id, lo, hi, h, before) implies claimed(before, after, s) by {
        lemma_rep_unique(pages, s, t);
    }
}

/// Whether a page of the tree from page `root` on is in use.
pub open spec fn tree_clear(pages: Seq<Seq<u8>>, root: u32, used: Seq<bool>) -> bool {
    forall|x: u32| #[trigger]
        tree_owns(pages, root, x) ==> x < used.len() && !used[x as int]
}

/// A tree is sound where it is well formed and none of its pages is in use.
proof fn lemma_sound_is_tree(pages: Seq<Seq<u8>>, root: u32, used: Seq<bool>)
    ensures
        forall|h: nat| #[trigger]
            sound_at(pages, root, None, None, h, used) ==> is_tree(pages, root) && tree_clear(
                pages,
                root,
                used,
            ) && sound_tree(pages, tree_of(pages, root), root, None, None, h, used),
        is_tree(pages, root) && tree_clear(pages, root, used) ==> {
            &&& height(tree_of(pages, root)) <= 32
            &&& sound_at(pages, root, None, None, height(tree_of(pages, root)), used)
        },
{
    let t = tree_of(pages, root);
    assert forall|h: nat| #[trigger] sound_at(pages, root, None, None, h, used) implies is_tree(
        pages,
        root,
    ) && tree_clear(pages, root, used) && sound_tree(
        pages,
        t,
        root,
        None,
        None,
        h,
        used,
    ) by {
        let s = choose|s: Tree| #[trigger] sound_tree(pages, s, root, None, None, h, used);
        lemma_is_tree(pages, s, h);
        assert forall|x: u32| #[trigger] tree_owns(pages, root, x) implies x < used.len()
            && !used[x as int] by {
            assert(owns(s, x));
        }
    }
    if is_tree(pages, root) && tree_clear(pages, root, used) {
        lemma_height_bound(t, None, None, height(t));
        assert forall|x: u32| #[trigger] owns(t, x) implies x < used.len() && !used[x as int] by {
            assert(tree_owns(pages, root, x));
        }
        assert(sound_tree(pages, t, root, None, None, height(t), used));
    }
}

fn copy_marks(v: &Vec<bool>) -> (r: Vec<bool>)
    ensures
        r@ == v@,
{
    vstd::slice::slice_to_vec(v.as_slice())
}

/// Whether the pages hold a well-formed tree from page `root` on, none of whose
/// pages is in use. If so, its pages come into use; if not, nothing changes.
pub fn check_tree(file: &DataFile, root: PageId, used: &mut Vec<bool>) -> (r: bool)
    requires
        old(used)@.len() == file@.len(),
    ensures
        final(used)@.len() == old(used)@.len(),
        r == (is_tree(file@, root.0) && tree_clear(file@, root.0, old(used)@)),
        r ==> claimed(old(used)@, final(used)@, tree_of(file@, root.0)),
        !r ==> final(used)@ == old(used)@,
{
    let ghost pages = file@;
    let ghost before = used@;
    proof {
        lemma_sound_is_tree(pages, root.0, before);
    }
    let mut h: u32 = 0;
    while h <= 32
        invariant
            pages == file@,
            before == old(used)@,
            used@ == before,
            before.len() == pages.len(),
            h <= 33,
            forall|k: nat| #[trigger]
                sound_at(pages, root.0, None, None, k, before) ==> is_tree(pages, root.0)
                    && tree_clear(pages, root.0, before) && sound_tree(
                    pages,
                    tree_of(pages, root.0),
                    root.0,
                    None,
                    None,
                    k,
                    before,
                ),
            forall|k: nat| k < h ==> !#[trigger] sound_at(pages, root.0, None, None, k, before),
        decreases 33 - h,
    {
        let mut marks = copy_marks(used);
        if check_node(file, root.0, None, None, h, &mut marks) {
            proof {
                assert(sound_at(pages, root.0, None, None, h as nat, before));
                assert(sound_tree(
                    pages,
                    tree_of(pages, root.0),
                    root.0,
                    None,
                    None,
                    h as nat,
                    before,
                ));
            }
            *used = marks;
            return true;
        }
        h = h + 1;
    }
    false
}

} // verus!

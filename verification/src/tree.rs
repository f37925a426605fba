//! The B+tree on the pages of a pager.

use crate::bytes::{
    copy_bytes, key_le, key_less, key_lt, lemma_key_asymmetric, lemma_key_irreflexive,
    lemma_key_total, lemma_key_transitive,
};
use crate::datafile::written;
use crate::error::BTreeError;
use crate::meta::Meta;
use crate::model::{
    bad_error, changed, content, distinct, get_in, good_entries, good_kids, height, in_bounds,
    is_range, is_tree, kid_hi, kid_lo, lemma_child_bounds, lemma_get_in, lemma_get_in_some,
    lemma_height_bound, lemma_insert_kid, lemma_is_tree, lemma_lookup_bounds, lemma_owned_in_file,
    lemma_removed, lemma_rep_frame, lemma_replace_kid, lemma_split_entries, lemma_split_kids,
    lemma_upserted, lemma_with_leaf, lookup, map_of, ok, owns, rep, root_id, strictly_within,
    tree_of, tree_owns, walk, walkable, with_leaf, Tree, MAX_KEY_SIZE, MAX_VALUE_SIZE,
    PAGES_PER_INSERT,
};
use crate::node::{
    child_index, data_len, internal_fits, internal_keys, internal_kids, internal_readable,
    keys_len, keys_of, leaf_entries, leaf_fits, leaf_readable, lemma_child_index,
    lemma_child_index_unique, lemma_data_len_concat, lemma_keys_len_concat, lemma_lower_bound,
    lower_bound, removed, sorted_keys, upserted, InternalNode, LeafNode,
};
use crate::page::{header_id, read_page_header, PageId, PageType};
use crate::pager::{PageSource, Pager, PagerView};
use vstd::prelude::*;

verus! {

/// Whether `b` came from `a` by handing out at most `n` pages and writing pages.
pub open spec fn grown(a: PagerView, b: PagerView, n: int) -> bool {
    &&& b.meta == (Meta { next_page_id: b.meta.next_page_id, ..a.meta })
    &&& b.meta_slot == a.meta_slot
    &&& b.freelist_head == a.freelist_head
    &&& b.base == a.base
    &&& a.meta.next_page_id <= b.meta.next_page_id <= a.meta.next_page_id + n
    &&& b.alloc_ok()
    &&& a.file.len() <= b.file.len()
    &&& b.freelist.len() <= a.freelist.len()
    &&& forall|x: u32| #[trigger] b.is_free(x) ==> a.is_free(x)
}

/// Whether page `x` was handed out between `a` and `b`.
pub open spec fn taken(a: PagerView, b: PagerView, x: u32) -> bool {
    a.is_free(x) && !b.is_free(x)
}

/// Whether pages outside the tree kept their contents, but for new ones.
pub open spec fn untouched(a: PagerView, b: PagerView, t: Tree) -> bool {
    forall|x: u32|
        #![trigger b.file[x as int]]
        x < a.file.len() && !owns(t, x) && !taken(a, b, x) ==> b.file[x as int] == a.file[x as int]
}

/// Whether no page of the tree can be handed out.
pub open spec fn guarded(v: PagerView, t: Tree) -> bool {
    forall|x: u32| #[trigger] owns(t, x) ==> !v.is_free(x)
}

/// The outcome of an insertion below a node: the tree in its place, and where
/// the node was split, the separator and the tree to its right.
pub open spec fn inserted(
    a: PagerView,
    b: PagerView,
    t: Tree,
    lo: Option<Seq<u8>>,
    hi: Option<Seq<u8>>,
    h: nat,
    key: Seq<u8>,
    value: Seq<u8>,
    split: Option<(Seq<u8>, PageId)>,
    t1: Tree,
    t2: Tree,
) -> bool {
    &&& grown(a, b, h as int + 1)
    &&& untouched(a, b, t)
    &&& root_id(t1) == root_id(t)
    &&& rep(b.file, t1)
    &&& distinct(t1)
    &&& forall|x: u32| #[trigger] owns(t1, x) ==> owns(t, x) || taken(a, b, x)
    &&& match split {
        None => {
            &&& ok(t1, lo, hi, h)
            &&& forall|k: Seq<u8>| #[trigger] changed(t, t1, key, Some(value), k)
        },
        Some((sep, rid)) => {
            &&& sep.len() <= MAX_KEY_SIZE
            &&& strictly_within(sep, lo, hi)
            &&& ok(t1, lo, Some(sep), h)
            &&& ok(t2, Some(sep), hi, h)
            &&& root_id(t2) == rid.0
            &&& rep(b.file, t2)
            &&& distinct(t2)
            &&& forall|x: u32| #[trigger] owns(t2, x) ==> owns(t, x) || taken(a, b, x)
            &&& forall|x: u32| #[trigger] owns(t1, x) ==> !owns(t2, x)
            &&& forall|k: Seq<u8>|
                key_lt(k, sep) ==> #[trigger] changed(t, t1, key, Some(value), k)
            &&& forall|k: Seq<u8>|
                !key_lt(k, sep) ==> #[trigger] changed(t, t2, key, Some(value), k)
        },
    }
}

proof fn lemma_written(pages: Seq<Seq<u8>>, id: int, data: Seq<u8>)
    requires
        0 <= id,
    ensures
        written(pages, id, data).len() == (if id < pages.len() {
            pages.len() as int
        } else {
            id + 1
        }),
        written(pages, id, data)[id] == data,
        forall|x: int|
            0 <= x < pages.len() && x != id ==> #[trigger] written(pages, id, data)[x] == pages[x],
{
}

/// Hands out a page, and says which pages are left.
fn take_page(pager: &mut Pager) -> (r: PageId)
    requires
        old(pager).inv(),
        old(pager)@.alloc_ok(),
        old(pager)@.meta.next_page_id < u32::MAX,
    ensures
        final(pager).inv(),
        grown(old(pager)@, final(pager)@, 1),
        final(pager)@.file == old(pager)@.file,
        r.0 >= 2,
        old(pager)@.is_free(r.0),
        forall|x: u32| #[trigger]
            final(pager)@.is_free(x) <==> old(pager)@.is_free(x) && x != r.0,
{
    let ghost a = pager@;
    let r = pager.alloc_page();
    proof {
        let b = pager@;
        let f = a.freelist;
        if f.len() > 0 {
            assert(f[f.len() - 1] == r);
            assert forall|x: u32| #[trigger] b.is_free(x) <==> a.is_free(x) && x != r.0 by {
                if b.freelist.contains(PageId(x)) {
                    let j = b.freelist.index_of(PageId(x));
                    assert(f[j] == PageId(x));
                }
                if f.contains(PageId(x)) && x != r.0 {
                    let j = f.index_of(PageId(x));
                    assert(b.freelist[j] == PageId(x));
                }
            }
            assert forall|i: int| 0 <= i < b.freelist.len() implies 2 <= (
            #[trigger] b.freelist[i]).0 < b.meta.next_page_id by {
                assert(b.freelist[i] == f[i]);
            }
        } else {
            assert forall|x: u32| #[trigger] b.is_free(x) <==> a.is_free(x) && x != r.0 by {}
        }
    }
    r
}

/// Finds the leaf that should contain the given key.
fn find_leaf<S: PageSource>(src: &mut S, root: PageId, key: &[u8], Ghost(t): Ghost<Tree>) -> (r:
    Result<LeafNode, BTreeError>)
    requires
        old(src).ready(),
        rep(old(src).state().file, t),
        root_id(t) == root.0,
    ensures
        final(src).ready(),
        final(src).state() == old(src).state(),
        match walk(t, key@) {
            Tree::Leaf { id, entries } => r is Ok && r->Ok_0.page_id.0 == id && r->Ok_0@ == entries,
            Tree::Bad { id } => r == Err::<LeafNode, BTreeError>(
                bad_error(old(src).state().file, id),
            ),
            Tree::Node { .. } => false,
        },
{
    let mut page_id = root;
    let ghost mut cur = t;
    let ghost file = src.state().file;
    loop
        invariant
            src.ready(),
            src.state() == old(src).state(),
            file == old(src).state().file,
            rep(file, cur),
            root_id(cur) == page_id.0,
            walk(cur, key@) == walk(t, key@),
        decreases cur,
    {
        let buf = match src.fetch(page_id) {
            Ok(b) => b,
            Err(e) => {
                return Err(BTreeError::Pager(e));
            },
        };
        let (pt, _) = read_page_header(&buf);
        match pt {
            PageType::BtreeLeaf => {
                return LeafNode::from_page(&buf);
            },
            PageType::BtreeInternal => {
                let node = match InternalNode::from_page(&buf) {
                    Ok(n) => n,
                    Err(e) => {
                        return Err(e);
                    },
                };
                let (child, _) = node.find_child(key);
                proof {
                    let i = child_index(cur->keys, key@);
                    lemma_child_index(cur->keys, key@);
                    assert(root_id(cur->kids[i]) == internal_kids(file[page_id.0 as int])[i].0);
                    cur = cur->kids[i];
                }
                page_id = child;
            },
            _ => {
                return Err(BTreeError::CorruptNode);
            },
        }
    }
}

/// The size of a leaf after an upsert.
proof fn lemma_upserted_size(
    es: Seq<(Seq<u8>, Seq<u8>)>,
    key: Seq<u8>,
    value: Seq<u8>,
    lo: Option<Seq<u8>>,
    hi: Option<Seq<u8>>,
)
    requires
        good_entries(es, lo, hi),
        leaf_fits(es),
        key.len() <= MAX_KEY_SIZE,
        value.len() <= MAX_VALUE_SIZE,
    ensures
        6 * upserted(es, key, value).len() + data_len(upserted(es, key, value)) <= 6093,
{
    let b = lower_bound(keys_of(es), key);
    lemma_lower_bound(keys_of(es), key);
    let one = seq![(key, value)];
    reveal_with_fuel(data_len, 2);
    assert(one.drop_last() =~= Seq::empty());
    assert(data_len(one) == key.len() + value.len());
    assert(es =~= es.take(b) + es.skip(b));
    lemma_data_len_concat(es.take(b), es.skip(b));
    if b < es.len() && es[b].0 == key {
        let r = es.update(b, (key, value));
        let gone = seq![es[b]];
        assert(gone.drop_last() =~= Seq::empty());
        assert(es.skip(b) =~= gone + es.skip(b + 1));
        lemma_data_len_concat(gone, es.skip(b + 1));
        assert(r =~= es.take(b) + (one + es.skip(b + 1)));
        lemma_data_len_concat(es.take(b), one + es.skip(b + 1));
        lemma_data_len_concat(one, es.skip(b + 1));
    } else {
        let r = es.insert(b, (key, value));
        assert(r =~= es.take(b) + (one + es.skip(b)));
        lemma_data_len_concat(es.take(b), one + es.skip(b));
        lemma_data_len_concat(one, es.skip(b));
    }
}

/// A leaf that took the new entry and still fits.
proof fn lemma_leaf_kept(
    a: PagerView,
    c: PagerView,
    t: Tree,
    lo: Option<Seq<u8>>,
    hi: Option<Seq<u8>>,
    key: Seq<u8>,
    value: Seq<u8>,
    page: Seq<u8>,
)
    requires
        a.alloc_ok(),
        t is Leaf,
        rep(a.file, t),
        ok(t, lo, hi, 0),
        in_bounds(key, lo, hi),
        key.len() <= MAX_KEY_SIZE,
        value.len() <= MAX_VALUE_SIZE,
        c == (PagerView { file: written(a.file, root_id(t) as int, page), ..a }),
        leaf_readable(page),
        header_id(page) == PageId(root_id(t)),
        leaf_entries(page) == upserted(t->entries, key, value),
        leaf_fits(leaf_entries(page)),
    ensures
        ({
            let t1 = Tree::Leaf { id: root_id(t), entries: leaf_entries(page) };
            inserted(a, c, t, lo, hi, 0, key, value, None, t1, t1)
        }),
{
    let es = t->entries;
    let es2 = leaf_entries(page);
    let id = root_id(t);
    let t1 = Tree::Leaf { id, entries: es2 };
    lemma_upserted(es, key, value, lo, hi);
    lemma_written(a.file, id as int, page);
    assert(owns(t, id));
    assert forall|k: Seq<u8>| #[trigger] changed(t, t1, key, Some(value), k) by {
        assert(get_in(es2, k) == (if k == key {
            Some(value)
        } else {
            get_in(es, k)
        }));
    }
}

/// A leaf that took the new entry and was split at entry `p`.
proof fn lemma_leaf_halves(
    a: PagerView,
    b: PagerView,
    c: PagerView,
    t: Tree,
    lo: Option<Seq<u8>>,
    hi: Option<Seq<u8>>,
    key: Seq<u8>,
    value: Seq<u8>,
    p: int,
    rid: u32,
    left: Seq<u8>,
    right: Seq<u8>,
)
    requires
        a.alloc_ok(),
        t is Leaf,
        rep(a.file, t),
        ok(t, lo, hi, 0),
        guarded(a, t),
        in_bounds(key, lo, hi),
        key.len() <= MAX_KEY_SIZE,
        value.len() <= MAX_VALUE_SIZE,
        grown(a, b, 1),
        b.file == a.file,
        rid >= 2,
        a.is_free(rid),
        forall|x: u32| #[trigger] b.is_free(x) <==> a.is_free(x) && x != rid,
        c == (PagerView {
            file: written(written(b.file, root_id(t) as int, left), rid as int, right),
            ..b
        }),
        0 < p < upserted(t->entries, key, value).len(),
        leaf_readable(left),
        header_id(left) == PageId(root_id(t)),
        leaf_entries(left) == upserted(t->entries, key, value).take(p),
        leaf_fits(leaf_entries(left)),
        leaf_readable(right),
        header_id(right) == PageId(rid),
        leaf_entries(right) == upserted(t->entries, key, value).skip(p),
        leaf_fits(leaf_entries(right)),
    ensures
        ({
            let t1 = Tree::Leaf { id: root_id(t), entries: leaf_entries(left) };
            let t2 = Tree::Leaf { id: rid, entries: leaf_entries(right) };
            let sep = upserted(t->entries, key, value)[p].0;
            inserted(a, c, t, lo, hi, 0, key, value, Some((sep, PageId(rid))), t1, t2)
        }),
{
    let es = t->entries;
    let es2 = upserted(es, key, value);
    let id = root_id(t);
    assert(owns(t, id));
    assert(rid != id);
    let f1 = written(b.file, id as int, left);
    let t1 = Tree::Leaf { id, entries: es2.take(p) };
    let t2 = Tree::Leaf { id: rid, entries: es2.skip(p) };
    lemma_upserted(es, key, value, lo, hi);
    lemma_split_entries(es2, p, lo, hi);
    lemma_written(b.file, id as int, left);
    lemma_written(f1, rid as int, right);
    let sep = es2[p].0;
    assert(es2[p].0.len() <= MAX_KEY_SIZE);
    assert forall|x: u32| #[trigger] c.is_free(x) == b.is_free(x) by {}
    assert(c.file[id as int] == left);
    assert(c.file[rid as int] == right);
    assert(grown(a, c, 1));
    assert(taken(a, c, rid)) by {
        assert(!b.is_free(rid));
    }
    assert forall|x: u32|
        #![trigger c.file[x as int]]
        x < a.file.len() && !owns(t, x) && !taken(a, c, x) implies c.file[x as int]
        == a.file[x as int] by {
        assert(x != rid);
        assert(x != id);
        assert(c.file[x as int] == f1[x as int]);
    }
    assert forall|k: Seq<u8>| key_lt(k, sep) implies #[trigger] changed(
        t,
        t1,
        key,
        Some(value),
        k,
    ) by {
        assert(get_in(es2.take(p), k) == get_in(es2, k));
    }
    assert forall|k: Seq<u8>| !key_lt(k, sep) implies #[trigger] changed(
        t,
        t2,
        key,
        Some(value),
        k,
    ) by {
        assert(get_in(es2.skip(p), k) == get_in(es2, k));
    }
}

/// Inserts into a leaf, splitting it where it grows past its page.
fn insert_leaf(
    pager: &mut Pager,
    leaf: LeafNode,
    key: &[u8],
    value: &[u8],
    Ghost(t): Ghost<Tree>,
    Ghost(lo): Ghost<Option<Seq<u8>>>,
    Ghost(hi): Ghost<Option<Seq<u8>>>,
) -> (r: (Option<(Vec<u8>, PageId)>, Ghost<Tree>, Ghost<Tree>))
    requires
        old(pager).inv(),
        old(pager)@.alloc_ok(),
        old(pager)@.meta.next_page_id < u32::MAX,
        t is Leaf,
        rep(old(pager)@.file, t),
        leaf.page_id.0 == root_id(t),
        leaf@ == t->entries,
        ok(t, lo, hi, 0),
        in_bounds(key@, lo, hi),
        guarded(old(pager)@, t),
        key@.len() <= MAX_KEY_SIZE,
        value@.len() <= MAX_VALUE_SIZE,
    ensures
        final(pager).inv(),
        inserted(
            old(pager)@,
            final(pager)@,
            t,
            lo,
            hi,
            0,
            key@,
            value@,
            match r.0 {
                Some((sep, rid)) => Some((sep@, rid)),
                None => None,
            },
            r.1@,
            r.2@,
        ),
{
    let mut leaf = leaf;
    let ghost a = pager@;
    let ghost id = root_id(t);
    assert(PageId(id) == leaf.page_id);
    proof {
        lemma_upserted(leaf@, key@, value@, lo, hi);
        lemma_upserted_size(leaf@, key@, value@, lo, hi);
    }
    leaf.upsert(key, value);
    let ghost es2 = leaf@;
    if leaf.fits() {
        let buf = leaf.to_page();
        let _ = pager.write_page(leaf.page_id, &buf);
        proof {
            lemma_leaf_kept(a, pager@, t, lo, hi, key@, value@, buf@);
        }
        let ghost t1 = Tree::Leaf { id, entries: leaf_entries(buf@) };
        return (None, Ghost(t1), Ghost(t1));
    }
    proof {
        assert forall|i: int| 0 <= i < es2.len() implies (#[trigger] es2[i]).0.len()
            + es2[i].1.len() <= 2000 by {}
    }
    let p: usize = leaf.split_point();
    let new_page_id = take_page(pager);
    let ghost b = pager@;
    let (right, sep_key) = leaf.split_at(p, new_page_id);
    let buf_l = leaf.to_page();
    let _ = pager.write_page(leaf.page_id, &buf_l);
    let buf_r = right.to_page();
    let _ = pager.write_page(right.page_id, &buf_r);
    proof {
        lemma_leaf_halves(
            a,
            b,
            pager@,
            t,
            lo,
            hi,
            key@,
            value@,
            p as int,
            new_page_id.0,
            buf_l@,
            buf_r@,
        );
    }
    let ghost t1 = Tree::Leaf { id, entries: leaf_entries(buf_l@) };
    let ghost t2 = Tree::Leaf { id: new_page_id.0, entries: leaf_entries(buf_r@) };
    (Some((sep_key, new_page_id)), Ghost(t1), Ghost(t2))
}

/// A node and its children stand in pages that agree with those the children
/// were in, where the node's page names them.
proof fn lemma_rep_node(
    a: Seq<Seq<u8>>,
    b: Seq<Seq<u8>>,
    id: u32,
    keys: Seq<Seq<u8>>,
    kids: Seq<Tree>,
    lo: Option<Seq<u8>>,
    hi: Option<Seq<u8>>,
    h: nat,
)
    requires
        good_kids(keys, kids, lo, hi, h),
        forall|j: int| 0 <= j < kids.len() ==> rep(a, #[trigger] kids[j]),
        forall|j: int, x: u32|
            0 <= j < kids.len() && #[trigger] owns(kids[j], x) ==> x < b.len() && b[x as int]
                == a[x as int],
        2 <= id < b.len(),
        internal_readable(b[id as int]),
        header_id(b[id as int]) == PageId(id),
        internal_keys(b[id as int]) == keys,
        forall|j: int|
            0 <= j < kids.len() ==> root_id(#[trigger] kids[j]) == internal_kids(
                b[id as int],
            )[j].0,
    ensures
        rep(b, Tree::Node { id, keys, kids }),
{
    assert forall|j: int| 0 <= j < kids.len() implies rep(b, #[trigger] kids[j]) by {
        assert forall|x: u32| #[trigger] owns(kids[j], x) implies x < b.len() && a[x as int]
            == b[x as int] by {}
        lemma_rep_frame(a, b, kids[j], kid_lo(keys, lo, j), kid_hi(keys, hi, j), h);
    }
}

/// After a change inside one child, the node's own page and the other children
/// are where they were.
proof fn lemma_rest_stays(
    a: PagerView,
    b: PagerView,
    t: Tree,
    lo: Option<Seq<u8>>,
    hi: Option<Seq<u8>>,
    h: nat,
    n: int,
)
    requires
        t is Node,
        rep(a.file, t),
        ok(t, lo, hi, h),
        distinct(t),
        guarded(a, t),
        0 <= n < t->kids.len(),
        a.file.len() <= b.file.len(),
        untouched(a, b, t->kids[n]),
    ensures
        b.file[root_id(t) as int] == a.file[root_id(t) as int],
        2 <= root_id(t) < b.file.len(),
        forall|j: int| 0 <= j < t->kids.len() && j != n ==> rep(b.file, #[trigger] t->kids[j]),
        untouched(a, b, t),
{
    let keys = t->keys;
    let kids = t->kids;
    let id = root_id(t);
    assert(owns(t, id));
    assert(!owns(kids[n], id));
    assert(b.file[id as int] == a.file[id as int]);
    assert forall|j: int| 0 <= j < kids.len() && j != n implies rep(
        b.file,
        #[trigger] kids[j],
    ) by {
        assert forall|x: u32| #[trigger] owns(kids[j], x) implies x < b.file.len() && a.file[
            x as int] == b.file[x as int] by {
            lemma_owned_in_file(
                a.file,
                kids[j],
                kid_lo(keys, lo, j),
                kid_hi(keys, hi, j),
                (h - 1) as nat,
                x,
            );
            assert(owns(t, x));
            assert(!owns(kids[n], x));
            assert(b.file[x as int] == a.file[x as int]);
        }
        lemma_rep_frame(
            a.file,
            b.file,
            kids[j],
            kid_lo(keys, lo, j),
            kid_hi(keys, hi, j),
            (h - 1) as nat,
        );
    }
    assert forall|x: u32|
        #![trigger b.file[x as int]]
        x < a.file.len() && !owns(t, x) && !taken(a, b, x) implies b.file[x as int]
        == a.file[x as int] by {
        if owns(kids[n], x) {
            assert(owns(t, x));
        }
    }
}

/// A node whose child took the new entry without a split.
proof fn lemma_kid_kept(
    a: PagerView,
    b: PagerView,
    t: Tree,
    lo: Option<Seq<u8>>,
    hi: Option<Seq<u8>>,
    h: nat,
    key: Seq<u8>,
    value: Seq<u8>,
    c1: Tree,
    c2: Tree,
)
    requires
        t is Node,
        rep(a.file, t),
        ok(t, lo, hi, h),
        distinct(t),
        guarded(a, t),
        in_bounds(key, lo, hi),
        inserted(
            a,
            b,
            t->kids[child_index(t->keys, key)],
            kid_lo(t->keys, lo, child_index(t->keys, key)),
            kid_hi(t->keys, hi, child_index(t->keys, key)),
            (h - 1) as nat,
            key,
            value,
            None,
            c1,
            c2,
        ),
    ensures
        ({
            let t1 = Tree::Node {
                id: root_id(t),
                keys: t->keys,
                kids: t->kids.update(child_index(t->keys, key), c1),
            };
            inserted(a, b, t, lo, hi, h, key, value, None, t1, t1)
        }),
{
    let keys = t->keys;
    let kids = t->kids;
    let id = root_id(t);
    let n = child_index(keys, key);
    lemma_child_bounds(keys, key, lo, hi);
    lemma_rest_stays(a, b, t, lo, hi, h, n);
    let fresh = |x: u32| taken(a, b, x);
    assert forall|x: u32| #[trigger] fresh(x) implies !owns(t, x) by {}
    assert forall|x: u32| #[trigger] owns(c1, x) implies owns(kids[n], x) || fresh(x) by {}
    lemma_replace_kid(t, c1, lo, hi, h, key, Some(value), fresh);
    let kids2 = kids.update(n, c1);
    let t1 = Tree::Node { id, keys, kids: kids2 };
    assert forall|j: int| 0 <= j < kids2.len() implies rep(b.file, #[trigger] kids2[j])
        && root_id(kids2[j]) == internal_kids(b.file[id as int])[j].0 by {
        assert(root_id(kids[j]) == internal_kids(a.file[id as int])[j].0);
        if j != n {
            assert(kids2[j] == kids[j]);
        }
    }
    assert forall|x: u32| #[trigger] owns(t1, x) implies owns(t, x) || taken(a, b, x) by {
        assert(owns(t, x) || fresh(x));
    }
}

/// The tree of a node one of whose children was split, before its page is
/// written.
proof fn lemma_kid_split(
    a: PagerView,
    b: PagerView,
    t: Tree,
    lo: Option<Seq<u8>>,
    hi: Option<Seq<u8>>,
    h: nat,
    key: Seq<u8>,
    value: Seq<u8>,
    sep: Seq<u8>,
    rid: PageId,
    c1: Tree,
    c2: Tree,
)
    requires
        t is Node,
        rep(a.file, t),
        ok(t, lo, hi, h),
        distinct(t),
        guarded(a, t),
        in_bounds(key, lo, hi),
        inserted(
            a,
            b,
            t->kids[child_index(t->keys, key)],
            kid_lo(t->keys, lo, child_index(t->keys, key)),
            kid_hi(t->keys, hi, child_index(t->keys, key)),
            (h - 1) as nat,
            key,
            value,
            Some((sep, rid)),
            c1,
            c2,
        ),
    ensures
        lower_bound(t->keys, sep) == child_index(t->keys, key),
        0 <= child_index(t->keys, key) < t->kids.len(),
        ({
            let n = child_index(t->keys, key);
            let keys2 = t->keys.insert(n, sep);
            let kids2 = t->kids.update(n, c2).insert(n, c1);
            let t2 = Tree::Node { id: root_id(t), keys: keys2, kids: kids2 };
            &&& good_kids(keys2, kids2, lo, hi, (h - 1) as nat)
            &&& distinct(t2)
            &&& forall|x: u32| #[trigger] owns(t2, x) ==> owns(t, x) || taken(a, b, x)
            &&& forall|k: Seq<u8>| #[trigger] changed(t, t2, key, Some(value), k)
            &&& forall|j: int| 0 <= j < kids2.len() ==> rep(b.file, #[trigger] kids2[j])
            &&& forall|j: int|
                0 <= j < kids2.len() ==> root_id(#[trigger] kids2[j]) == internal_kids(
                    a.file[root_id(t) as int],
                ).update(n, rid).insert(n, PageId(root_id(t->kids[n])))[j].0
            &&& guarded(b, t2)
        }),
        untouched(a, b, t),
        2 <= root_id(t) < b.file.len(),
{
    let keys = t->keys;
    let kids = t->kids;
    let id = root_id(t);
    let n = child_index(keys, key);
    lemma_child_bounds(keys, key, lo, hi);
    lemma_rest_stays(a, b, t, lo, hi, h, n);
    let fresh = |x: u32| taken(a, b, x);
    assert forall|x: u32| #[trigger] fresh(x) implies !owns(t, x) by {}
    assert forall|x: u32| #[trigger] owns(c1, x) implies owns(kids[n], x) || fresh(x) by {}
    assert forall|x: u32| #[trigger] owns(c2, x) implies owns(kids[n], x) || fresh(x) by {}
    lemma_insert_kid(t, c1, c2, sep, lo, hi, h, key, Some(value), fresh);
    let keys2 = keys.insert(n, sep);
    let kids2 = kids.update(n, c2).insert(n, c1);
    let t2 = Tree::Node { id, keys: keys2, kids: kids2 };
    let ids = internal_kids(a.file[id as int]);
    assert forall|j: int| 0 <= j < kids2.len() implies rep(b.file, #[trigger] kids2[j])
        && root_id(kids2[j]) == ids.update(n, rid).insert(n, PageId(root_id(kids[n])))[j].0 by {
        if j < n {
            assert(kids2[j] == kids[j]);
            assert(root_id(kids[j]) == ids[j].0);
        } else if j > n + 1 {
            assert(kids2[j] == kids[j - 1]);
            assert(root_id(kids[j - 1]) == ids[j - 1].0);
        }
    }
    assert forall|x: u32| #[trigger] owns(t2, x) implies owns(t, x) || taken(a, b, x) by {
        assert(owns(t, x) || fresh(x));
    }
    assert(guarded(b, t2)) by {
        assert forall|x: u32| #[trigger] owns(t2, x) implies !b.is_free(x) by {
            if b.is_free(x) {
                assert(a.is_free(x));
            }
        }
    }
}

/// The size of an internal node after a key went in.
proof fn lemma_inserted_size(keys: Seq<Seq<u8>>, i: int, sep: Seq<u8>)
    requires
        internal_fits(keys),
        0 <= i <= keys.len(),
        sep.len() <= MAX_KEY_SIZE,
    ensures
        8 * keys.insert(i, sep).len() + keys_len(keys.insert(i, sep)) <= 5091,
{
    let one = seq![sep];
    reveal_with_fuel(keys_len, 2);
    assert(one.drop_last() =~= Seq::empty());
    assert(keys =~= keys.take(i) + keys.skip(i));
    lemma_keys_len_concat(keys.take(i), keys.skip(i));
    assert(keys.insert(i, sep) =~= keys.take(i) + (one + keys.skip(i)));
    lemma_keys_len_concat(keys.take(i), one + keys.skip(i));
    lemma_keys_len_concat(one, keys.skip(i));
}

/// A node that took the separator of a split child and still fits.
proof fn lemma_node_kept(
    a: PagerView,
    b: PagerView,
    c: PagerView,
    t: Tree,
    lo: Option<Seq<u8>>,
    hi: Option<Seq<u8>>,
    h: nat,
    key: Seq<u8>,
    value: Seq<u8>,
    big: Tree,
    page: Seq<u8>,
)
    requires
        h > 0,
        t is Node,
        grown(a, b, h as int),
        untouched(a, b, t),
        big is Node,
        root_id(big) == root_id(t),
        good_kids(big->keys, big->kids, lo, hi, (h - 1) as nat),
        distinct(big),
        forall|x: u32| #[trigger] owns(big, x) ==> owns(t, x) || taken(a, b, x),
        forall|k: Seq<u8>| #[trigger] changed(t, big, key, Some(value), k),
        forall|j: int| 0 <= j < big->kids.len() ==> rep(b.file, #[trigger] big->kids[j]),
        2 <= root_id(t) < b.file.len(),
        internal_fits(big->keys),
        internal_readable(page),
        header_id(page) == PageId(root_id(t)),
        internal_keys(page) == big->keys,
        forall|j: int|
            0 <= j < big->kids.len() ==> root_id(#[trigger] big->kids[j]) == internal_kids(
                page,
            )[j].0,
        c == (PagerView { file: written(b.file, root_id(t) as int, page), ..b }),
    ensures
        inserted(a, c, t, lo, hi, h, key, value, None, big, big),
{
    let id = root_id(t);
    let keys2 = big->keys;
    let kids2 = big->kids;
    let t1 = big;
    lemma_written(b.file, id as int, page);
    assert forall|j: int, x: u32|
        0 <= j < kids2.len() && #[trigger] owns(kids2[j], x) implies x < c.file.len() && c.file[
        x as int] == b.file[x as int] by {
        lemma_owned_in_file(
            b.file,
            kids2[j],
            kid_lo(keys2, lo, j),
            kid_hi(keys2, hi, j),
            (h - 1) as nat,
            x,
        );
        assert(!owns(kids2[j], id));
    }
    lemma_rep_node(b.file, c.file, id, keys2, kids2, lo, hi, (h - 1) as nat);
    assert forall|x: u32| #[trigger] c.is_free(x) == b.is_free(x) by {}
    assert(owns(t, id));
    assert forall|x: u32|
        #![trigger c.file[x as int]]
        x < a.file.len() && !owns(t, x) && !taken(a, c, x) implies c.file[x as int]
        == a.file[x as int] by {
        assert(c.is_free(x) == b.is_free(x));
        assert(b.file[x as int] == a.file[x as int]);
        assert(x != id);
    }
    assert forall|x: u32| #[trigger] owns(t1, x) implies owns(t, x) || taken(a, c, x) by {
        assert(c.is_free(x) == b.is_free(x));
    }
}

/// A node that took the separator of a split child and was itself split.
proof fn lemma_node_halves(
    a: PagerView,
    b: PagerView,
    d: PagerView,
    c: PagerView,
    t: Tree,
    lo: Option<Seq<u8>>,
    hi: Option<Seq<u8>>,
    h: nat,
    key: Seq<u8>,
    value: Seq<u8>,
    big: Tree,
    p: int,
    rid: u32,
    left: Seq<u8>,
    right: Seq<u8>,
)
    requires
        h > 0,
        t is Node,
        guarded(a, t),
        grown(a, b, h as int),
        untouched(a, b, t),
        big is Node,
        root_id(big) == root_id(t),
        good_kids(big->keys, big->kids, lo, hi, (h - 1) as nat),
        distinct(big),
        guarded(b, big),
        forall|x: u32| #[trigger] owns(big, x) ==> owns(t, x) || taken(a, b, x),
        forall|k: Seq<u8>| #[trigger] changed(t, big, key, Some(value), k),
        forall|j: int| 0 <= j < big->kids.len() ==> rep(b.file, #[trigger] big->kids[j]),
        2 <= root_id(t) < b.file.len(),
        grown(b, d, 1),
        d.file == b.file,
        rid >= 2,
        b.is_free(rid),
        forall|x: u32| #[trigger] d.is_free(x) <==> b.is_free(x) && x != rid,
        0 < p,
        p + 1 < big->keys.len(),
        internal_fits(big->keys.take(p)),
        internal_fits(big->keys.skip(p + 1)),
        internal_readable(left),
        header_id(left) == PageId(root_id(t)),
        internal_keys(left) == big->keys.take(p),
        forall|j: int|
            0 <= j < p + 1 ==> root_id(#[trigger] big->kids[j]) == internal_kids(left)[j].0,
        internal_readable(right),
        header_id(right) == PageId(rid),
        internal_keys(right) == big->keys.skip(p + 1),
        forall|j: int|
            p + 1 <= j < big->kids.len() ==> root_id(#[trigger] big->kids[j]) == internal_kids(
                right,
            )[j - p - 1].0,
        c == (PagerView {
            file: written(written(d.file, root_id(t) as int, left), rid as int, right),
            ..d
        }),
    ensures
        ({
            let t1 = Tree::Node {
                id: root_id(t),
                keys: big->keys.take(p),
                kids: big->kids.take(p + 1),
            };
            let t2 = Tree::Node { id: rid, keys: big->keys.skip(p + 1), kids: big->kids.skip(p + 1)
            };
            inserted(
                a,
                c,
                t,
                lo,
                hi,
                h,
                key,
                value,
                Some((big->keys[p], PageId(rid))),
                t1,
                t2,
            )
        }),
{
    let keys = big->keys;
    let kids = big->kids;
    let id = root_id(t);
    let h1 = (h - 1) as nat;
    let sep = keys[p];
    assert(!owns(big, rid));
    assert(owns(big, id));
    assert(id != rid);
    lemma_split_kids(big, rid, p, lo, hi, h1);
    let k1 = keys.take(p);
    let c1 = kids.take(p + 1);
    let k2 = keys.skip(p + 1);
    let c2 = kids.skip(p + 1);
    let t1 = Tree::Node { id, keys: k1, kids: c1 };
    let t2 = Tree::Node { id: rid, keys: k2, kids: c2 };
    let f1 = written(d.file, id as int, left);
    lemma_written(d.file, id as int, left);
    lemma_written(f1, rid as int, right);
    assert(c.file[id as int] == left);
    assert(c.file[rid as int] == right);
    assert forall|j: int, x: u32|
        0 <= j < kids.len() && #[trigger] owns(kids[j], x) implies x < c.file.len() && c.file[
        x as int] == b.file[x as int] by {
        lemma_owned_in_file(b.file, kids[j], kid_lo(keys, lo, j), kid_hi(keys, hi, j), h1, x);
        assert(!owns(kids[j], id));
        assert(owns(big, x));
        assert(c.file[x as int] == f1[x as int]);
    }
    assert forall|j: int, x: u32| 0 <= j < c1.len() && #[trigger] owns(c1[j], x) implies x
        < c.file.len() && c.file[x as int] == b.file[x as int] by {
        assert(owns(kids[j], x));
    }
    assert forall|j: int, x: u32| 0 <= j < c2.len() && #[trigger] owns(c2[j], x) implies x
        < c.file.len() && c.file[x as int] == b.file[x as int] by {
        assert(owns(kids[j + p + 1], x));
    }
    assert forall|j: int| 0 <= j < c1.len() implies rep(b.file, #[trigger] c1[j]) && root_id(c1[j])
        == internal_kids(left)[j].0 by {
        assert(c1[j] == kids[j]);
    }
    assert forall|j: int| 0 <= j < c2.len() implies rep(b.file, #[trigger] c2[j]) && root_id(c2[j])
        == internal_kids(right)[j].0 by {
        assert(c2[j] == kids[j + p + 1]);
    }
    lemma_rep_node(b.file, c.file, id, k1, c1, lo, Some(sep), h1);
    lemma_rep_node(b.file, c.file, rid, k2, c2, Some(sep), hi, h1);
    assert forall|x: u32| #[trigger] c.is_free(x) == d.is_free(x) by {}
    assert(grown(a, c, h as int + 1));
    assert(taken(a, c, rid)) by {
        assert(a.is_free(rid));
        assert(!d.is_free(rid));
        assert(c.is_free(rid) == d.is_free(rid));
    }
    assert(owns(t, id));
    assert forall|x: u32| taken(a, b, x) implies #[trigger] taken(a, c, x) by {
        if c.is_free(x) {
            assert(d.is_free(x));
            assert(b.is_free(x));
        }
    }
    assert forall|x: u32|
        #![trigger c.file[x as int]]
        x < a.file.len() && !owns(t, x) && !taken(a, c, x) implies c.file[x as int]
        == a.file[x as int] by {
        assert(!taken(a, b, x)) by {
            if taken(a, b, x) {
                assert(taken(a, c, x));
            }
        }
        assert(b.file[x as int] == a.file[x as int]);
        assert(x != id && x != rid);
        assert(c.file[x as int] == f1[x as int]);
    }
    assert forall|x: u32| #[trigger] owns(t1, x) implies owns(t, x) || taken(a, c, x) by {
        assert(owns(big, x));
        if taken(a, b, x) {
            assert(taken(a, c, x));
        }
    }
    assert forall|x: u32| #[trigger] owns(t2, x) implies owns(t, x) || taken(a, c, x) by {
        if x != rid {
            assert(owns(big, x));
            if taken(a, b, x) {
                assert(taken(a, c, x));
            }
        }
    }
    assert forall|k: Seq<u8>| key_lt(k, sep) implies #[trigger] changed(
        t,
        t1,
        key,
        Some(value),
        k,
    ) by {
        assert(changed(t, big, key, Some(value), k));
        assert(lookup(t1, k) == lookup(big, k));
    }
    assert forall|k: Seq<u8>| !key_lt(k, sep) implies #[trigger] changed(
        t,
        t2,
        key,
        Some(value),
        k,
    ) by {
        assert(changed(t, big, key, Some(value), k));
        assert(lookup(t2, k) == lookup(big, k));
    }
}

/// Inserts below page `id`, which holds the tree `t` between two bounds.
fn insert_at(
    pager: &mut Pager,
    id: PageId,
    key: &[u8],
    value: &[u8],
    Ghost(t): Ghost<Tree>,
    Ghost(lo): Ghost<Option<Seq<u8>>>,
    Ghost(hi): Ghost<Option<Seq<u8>>>,
    Ghost(h): Ghost<nat>,
) -> (r: Result<(Option<(Vec<u8>, PageId)>, Ghost<Tree>, Ghost<Tree>), BTreeError>)
    requires
        old(pager).inv(),
        old(pager)@.alloc_ok(),
        old(pager)@.meta.next_page_id + h + 1 <= u32::MAX,
        rep(old(pager)@.file, t),
        root_id(t) == id.0,
        ok(t, lo, hi, h),
        distinct(t),
        guarded(old(pager)@, t),
        in_bounds(key@, lo, hi),
        key@.len() <= MAX_KEY_SIZE,
        value@.len() <= MAX_VALUE_SIZE,
    ensures
        final(pager).inv(),
        r is Ok,
        inserted(
            old(pager)@,
            final(pager)@,
            t,
            lo,
            hi,
            h,
            key@,
            value@,
            match r->Ok_0.0 {
                Some((sep, rid)) => Some((sep@, rid)),
                None => None,
            },
            r->Ok_0.1@,
            r->Ok_0.2@,
        ),
    decreases h,
{
    let buf = match pager.read_page(id) {
        Ok(b) => b,
        Err(e) => {
            return Err(BTreeError::Pager(e));
        },
    };
    let ghost a = pager@;
    let (pt, _) = read_page_header(&buf);
    if pt == PageType::BtreeLeaf {
        assert(t is Leaf);
        let leaf = match LeafNode::from_page(&buf) {
            Ok(n) => n,
            Err(e) => {
                return Err(e);
            },
        };
        return Ok(insert_leaf(pager, leaf, key, value, Ghost(t), Ghost(lo), Ghost(hi)));
    }
    assert(t is Node);
    let mut node = match InternalNode::from_page(&buf) {
        Ok(n) => n,
        Err(e) => {
            return Err(e);
        },
    };
    let (child, _) = node.find_child(key);
    let ghost keys = t->keys;
    let ghost kids = t->kids;
    let ghost n = child_index(keys, key@);
    let ghost ids = node.kids();
    proof {
        lemma_child_bounds(keys, key@, lo, hi);
        assert(root_id(kids[n]) == internal_kids(a.file[id.0 as int])[n].0);
        assert(guarded(a, kids[n])) by {
            assert forall|x: u32| #[trigger] owns(kids[n], x) implies !a.is_free(x) by {
                assert(owns(t, x));
            }
        }
    }
    let (split, c1, c2) = match insert_at(
        pager,
        child,
        key,
        value,
        Ghost(kids[n]),
        Ghost(kid_lo(keys, lo, n)),
        Ghost(kid_hi(keys, hi, n)),
        Ghost((h - 1) as nat),
    ) {
        Ok(x) => x,
        Err(e) => {
            return Err(e);
        },
    };
    let ghost b = pager@;
    match split {
        None => {
            let ghost t1 = Tree::Node { id: id.0, keys, kids: kids.update(n, c1@) };
            proof {
                lemma_kid_kept(a, b, t, lo, hi, h, key@, value@, c1@, c2@);
            }
            Ok((None, Ghost(t1), Ghost(t1)))
        },
        Some((sep, rid)) => {
            let ghost sep_key = sep@;
            let ghost big = Tree::Node {
                id: id.0,
                keys: keys.insert(n, sep_key),
                kids: kids.update(n, c2@).insert(n, c1@),
            };
            proof {
                lemma_kid_split(a, b, t, lo, hi, h, key@, value@, sep_key, rid, c1@, c2@);
                lemma_inserted_size(keys, n, sep_key);
            }
            node.insert_key(sep, child, rid);
            assert(node.keys() == big->keys);
            assert(node.kids() == ids.update(n, rid).insert(n, child));
            assert forall|j: int| 0 <= j < big->kids.len() implies root_id(
                #[trigger] big->kids[j],
            ) == node.kids()[j].0 by {}
            if node.fits() {
                let buf = node.to_page();
                let _ = pager.write_page(node.page_id, &buf);
                proof {
                    lemma_node_kept(a, b, pager@, t, lo, hi, h, key@, value@, big, buf@);
                }
                return Ok((None, Ghost(big), Ghost(big)));
            }
            let p: usize = node.split_point();
            let new_page_id = take_page(pager);
            let ghost d = pager@;
            let (right, pushed_key) = node.split_at(p, new_page_id);
            let buf_l = node.to_page();
            let _ = pager.write_page(node.page_id, &buf_l);
            let buf_r = right.to_page();
            let _ = pager.write_page(right.page_id, &buf_r);
            proof {
                lemma_node_halves(
                    a,
                    b,
                    d,
                    pager@,
                    t,
                    lo,
                    hi,
                    h,
                    key@,
                    value@,
                    big,
                    p as int,
                    new_page_id.0,
                    buf_l@,
                    buf_r@,
                );
            }
            let ghost t1 = Tree::Node {
                id: id.0,
                keys: big->keys.take(p as int),
                kids: big->kids.take(p + 1),
            };
            let ghost t2 = Tree::Node {
                id: new_page_id.0,
                keys: big->keys.skip(p + 1),
                kids: big->kids.skip(p + 1),
            };
            Ok((Some((pushed_key, new_page_id)), Ghost(t1), Ghost(t2)))
        },
    }
}

/// Whether the search for `key` can be carried out: on a well-formed tree, or
/// up to a page that cannot be read.
pub open spec fn usable(file: Seq<Seq<u8>>, root: u32, key: Seq<u8>) -> bool {
    &&& walkable(file, root)
    &&& is_tree(file, root) || walk(tree_of(file, root), key) is Bad
}

/// The error that the search for `key` ends with where it meets such a page.
pub open spec fn walk_error(file: Seq<Seq<u8>>, root: u32, key: Seq<u8>) -> BTreeError {
    bad_error(file, root_id(walk(tree_of(file, root), key)))
}

/// Whether no page of the tree from `root` on can be handed out.
pub open spec fn tree_guarded(v: PagerView, root: u32) -> bool {
    forall|x: u32| #[trigger] tree_owns(v.file, root, x) ==> !v.is_free(x)
}

/// A change to one tree: it is now well formed at `root2`, on pages it had or
/// was given, and no other page changed.
pub open spec fn tree_step(a: PagerView, b: PagerView, root: u32, root2: u32, n: int) -> bool {
    &&& grown(a, b, n)
    &&& is_tree(b.file, root2)
    &&& tree_guarded(b, root2)
    &&& forall|x: u32| #[trigger]
        tree_owns(b.file, root2, x) ==> tree_owns(a.file, root, x) || taken(a, b, x)
    &&& forall|x: u32|
        #![trigger b.file[x as int]]
        x < a.file.len() && !tree_owns(a.file, root, x) && !taken(a, b, x) ==> b.file[x as int]
            == a.file[x as int]
}

/// Whether there are page numbers left for one insertion.
pub open spec fn room(v: PagerView) -> bool {
    v.meta.next_page_id + PAGES_PER_INSERT <= u32::MAX
}

proof fn lemma_changed_content(t: Tree, t2: Tree, key: Seq<u8>, v: Option<Seq<u8>>)
    requires
        forall|k: Seq<u8>| #[trigger] changed(t, t2, key, v, k),
    ensures
        v matches Some(x) ==> map_of(t2) == map_of(t).insert(key, x),
        v is None ==> map_of(t2) == map_of(t).remove(key),
{
    assert forall|k: Seq<u8>| #[trigger] map_of(t2).contains_key(k) <==> (if k == key {
        v is Some
    } else {
        map_of(t).contains_key(k)
    }) by {
        assert(changed(t, t2, key, v, k));
    }
    assert forall|k: Seq<u8>| map_of(t2).contains_key(k) implies #[trigger] map_of(t2)[k] == (if k
        == key {
        v->0
    } else {
        map_of(t)[k]
    }) by {
        assert(changed(t, t2, key, v, k));
    }
    match v {
        Some(x) => {
            assert(map_of(t2) =~= map_of(t).insert(key, x));
        },
        None => {
            assert(map_of(t2) =~= map_of(t).remove(key));
        },
    }
}

fn validate_key(key: &[u8]) -> (r: Result<(), BTreeError>)
    ensures
        key@.len() <= MAX_KEY_SIZE ==> r is Ok,
        key@.len() > MAX_KEY_SIZE ==> r == Err::<(), BTreeError>(
            BTreeError::KeyTooLarge(key@.len() as usize, MAX_KEY_SIZE),
        ),
{
    if key.len() > MAX_KEY_SIZE {
        return Err(BTreeError::KeyTooLarge(key.len(), MAX_KEY_SIZE));
    }
    Ok(())
}

fn validate_value(value: &[u8]) -> (r: Result<(), BTreeError>)
    ensures
        value@.len() <= MAX_VALUE_SIZE ==> r is Ok,
        value@.len() > MAX_VALUE_SIZE ==> r == Err::<(), BTreeError>(
            BTreeError::ValueTooLarge(value@.len() as usize, MAX_VALUE_SIZE),
        ),
{
    if value.len() > MAX_VALUE_SIZE {
        return Err(BTreeError::ValueTooLarge(value.len(), MAX_VALUE_SIZE));
    }
    Ok(())
}

/// What a lookup gives.
pub open spec fn get_result(
    file: Seq<Seq<u8>>,
    root: u32,
    key: Seq<u8>,
) -> Result<Option<Seq<u8>>, BTreeError> {
    if key.len() > MAX_KEY_SIZE {
        Err(BTreeError::KeyTooLarge(key.len() as usize, MAX_KEY_SIZE))
    } else if !is_tree(file, root) {
        Err(walk_error(file, root, key))
    } else if content(file, root).contains_key(key) {
        Ok(Some(content(file, root)[key]))
    } else {
        Ok(None)
    }
}

/// Bytes that may be missing, as a value.
pub open spec fn opt_view(v: Option<Vec<u8>>) -> Option<Seq<u8>> {
    match v {
        Some(x) => Some(x@),
        None => None,
    }
}

/// A lookup's result, as a value.
pub open spec fn result_view<E>(r: Result<Option<Vec<u8>>, E>) -> Result<Option<Seq<u8>>, E> {
    match r {
        Ok(v) => Ok(opt_view(v)),
        Err(e) => Err(e),
    }
}

proof fn lemma_walk_leaf(t: Tree, lo: Option<Seq<u8>>, hi: Option<Seq<u8>>, h: nat, key: Seq<u8>)
    requires
        ok(t, lo, hi, h),
        in_bounds(key, lo, hi),
    ensures
        walk(t, key) matches Tree::Leaf { entries, .. } && lookup(t, key) == get_in(entries, key)
            && sorted_keys(keys_of(entries)),
        owns(t, root_id(walk(t, key))),
    decreases t,
{
    if let Tree::Node { keys, kids, .. } = t {
        let i = child_index(keys, key);
        lemma_child_bounds(keys, key, lo, hi);
        lemma_walk_leaf(kids[i], kid_lo(keys, lo, i), kid_hi(keys, hi, i), (h - 1) as nat, key);
        assert(owns(kids[i], root_id(walk(kids[i], key))));
    }
}

/// Point lookup in the tree from `root` on.
pub fn tree_get<S: PageSource>(src: &mut S, root: PageId, key: &[u8]) -> (r: Result<
    Option<Vec<u8>>,
    BTreeError,
>)
    requires
        old(src).ready(),
        usable(old(src).state().file, root.0, key@),
    ensures
        final(src).ready(),
        final(src).state() == old(src).state(),
        result_view(r) == get_result(old(src).state().file, root.0, key@),
{
    match validate_key(key) {
        Ok(_) => {},
        Err(e) => {
            return Err(e);
        },
    }
    let ghost file = src.state().file;
    let ghost t = tree_of(file, root.0);
    proof {
        if is_tree(file, root.0) {
            lemma_walk_leaf(t, None, None, height(t), key@);
        }
    }
    let leaf = match find_leaf(src, root, key, Ghost(t)) {
        Ok(l) => l,
        Err(e) => {
            return Err(e);
        },
    };
    match leaf.search(key) {
        Ok(i) => Ok(Some(copy_bytes(leaf.entries[i].value.as_slice()))),
        Err(_) => Ok(None),
    }
}

/// Inserts or updates a pair in the tree from `root` on, and returns the root
/// that the tree then has.
pub fn tree_insert(pager: &mut Pager, root: PageId, key: &[u8], value: &[u8]) -> (r: Result<
    PageId,
    BTreeError,
>)
    requires
        old(pager).inv(),
        old(pager)@.alloc_ok(),
        usable(old(pager)@.file, root.0, key@),
        is_tree(old(pager)@.file, root.0) ==> tree_guarded(old(pager)@, root.0) && room(
            old(pager)@,
        ),
    ensures
        final(pager).inv(),
        match r {
            Ok(root2) => {
                &&& key@.len() <= MAX_KEY_SIZE
                &&& value@.len() <= MAX_VALUE_SIZE
                &&& is_tree(old(pager)@.file, root.0)
                &&& tree_step(
                    old(pager)@,
                    final(pager)@,
                    root.0,
                    root2.0,
                    PAGES_PER_INSERT as int,
                )
                &&& content(final(pager)@.file, root2.0) == content(
                    old(pager)@.file,
                    root.0,
                ).insert(key@, value@)
            },
            Err(e) => {
                &&& final(pager)@ == old(pager)@
                &&& e == (if key@.len() > MAX_KEY_SIZE {
                    BTreeError::KeyTooLarge(key@.len() as usize, MAX_KEY_SIZE)
                } else if value@.len() > MAX_VALUE_SIZE {
                    BTreeError::ValueTooLarge(value@.len() as usize, MAX_VALUE_SIZE)
                } else {
                    walk_error(old(pager)@.file, root.0, key@)
                })
                &&& key@.len() > MAX_KEY_SIZE || value@.len() > MAX_VALUE_SIZE || !is_tree(
                    old(pager)@.file,
                    root.0,
                )
            },
        },
{
    match validate_key(key) {
        Ok(_) => {},
        Err(e) => {
            return Err(e);
        },
    }
    match validate_value(value) {
        Ok(_) => {},
        Err(e) => {
            return Err(e);
        },
    }
    let ghost a = pager@;
    let ghost t = tree_of(a.file, root.0);
    let ghost h = height(t);
    proof {
        if is_tree(a.file, root.0) {
            lemma_walk_leaf(t, None, None, h, key@);
        }
    }
    match find_leaf(pager, root, key, Ghost(t)) {
        Ok(_) => {},
        Err(e) => {
            return Err(e);
        },
    }
    proof {
        lemma_height_bound(t, None, None, h);
        assert(guarded(a, t)) by {
            assert forall|x: u32| #[trigger] owns(t, x) implies !a.is_free(x) by {
                assert(tree_owns(a.file, root.0, x));
            }
        }
    }
    let (split, t1, t2) = match insert_at(
        pager,
        root,
        key,
        value,
        Ghost(t),
        Ghost(None),
        Ghost(None),
        Ghost(h),
    ) {
        Ok(x) => x,
        Err(e) => {
            return Err(e);
        },
    };
    let ghost b = pager@;
    match split {
        None => {
            proof {
                lemma_is_tree(b.file, t1@, h);
                lemma_changed_content(t, t1@, key@, Some(value@));
                lemma_step(a, b, root.0, t, t1@, h as int + 1);
            }
            Ok(root)
        },
        Some((sep, rid)) => {
            let ghost sep_key = sep@;
            let new_root_id = take_page(pager);
            let ghost d = pager@;
            let new_root = InternalNode::new(new_root_id, root, sep, rid);
            proof {
                reveal_with_fuel(keys_len, 2);
                assert(seq![sep_key].drop_last() =~= Seq::empty());
            }
            let buf = new_root.to_page();
            let _ = pager.write_page(new_root_id, &buf);
            let ghost top = Tree::Node {
                id: new_root_id.0,
                keys: seq![sep_key],
                kids: seq![t1@, t2@],
            };
            proof {
                lemma_new_root(
                    a,
                    b,
                    d,
                    pager@,
                    t,
                    h,
                    key@,
                    value@,
                    sep_key,
                    rid,
                    t1@,
                    t2@,
                    new_root_id.0,
                    buf@,
                );
                lemma_is_tree(pager@.file, top, h + 1);
                lemma_changed_content(t, top, key@, Some(value@));
                lemma_step(a, pager@, root.0, t, top, h as int + 2);
            }
            Ok(new_root_id)
        },
    }
}

proof fn lemma_step(a: PagerView, b: PagerView, root: u32, t: Tree, t2: Tree, n: int)
    requires
        t == tree_of(a.file, root),
        t2 == tree_of(b.file, root_id(t2)),
        is_tree(b.file, root_id(t2)),
        guarded(a, t),
        grown(a, b, n),
        n <= PAGES_PER_INSERT,
        untouched(a, b, t),
        forall|x: u32| #[trigger] owns(t2, x) ==> owns(t, x) || taken(a, b, x),
    ensures
        tree_step(a, b, root, root_id(t2), PAGES_PER_INSERT as int),
{
    assert forall|x: u32| #[trigger] tree_owns(b.file, root_id(t2), x) implies !b.is_free(x) && (
    tree_owns(a.file, root, x) || taken(a, b, x)) by {
        assert(owns(t2, x));
        if b.is_free(x) {
            assert(a.is_free(x));
        }
    }
}

/// The tree above a root that was split.
proof fn lemma_new_root(
    a: PagerView,
    b: PagerView,
    d: PagerView,
    c: PagerView,
    t: Tree,
    h: nat,
    key: Seq<u8>,
    value: Seq<u8>,
    sep: Seq<u8>,
    rid: PageId,
    t1: Tree,
    t2: Tree,
    top_id: u32,
    page: Seq<u8>,
)
    requires
        inserted(a, b, t, None, None, h, key, value, Some((sep, rid)), t1, t2),
        guarded(a, t),
        grown(b, d, 1),
        d.file == b.file,
        top_id >= 2,
        b.is_free(top_id),
        forall|x: u32| #[trigger] d.is_free(x) <==> b.is_free(x) && x != top_id,
        internal_fits(seq![sep]),
        internal_readable(page),
        header_id(page) == PageId(top_id),
        internal_keys(page) == seq![sep],
        internal_kids(page) == seq![PageId(root_id(t)), rid],
        c == (PagerView { file: written(d.file, top_id as int, page), ..d }),
    ensures
        ({
            let top = Tree::Node { id: top_id, keys: seq![sep], kids: seq![t1, t2] };
            &&& rep(c.file, top)
            &&& ok(top, None, None, h + 1)
            &&& distinct(top)
            &&& grown(a, c, h as int + 2)
            &&& untouched(a, c, t)
            &&& forall|x: u32| #[trigger] owns(top, x) ==> owns(t, x) || taken(a, c, x)
            &&& forall|k: Seq<u8>| #[trigger] changed(t, top, key, Some(value), k)
        }),
{
    let keys = seq![sep];
    let kids = seq![t1, t2];
    let top = Tree::Node { id: top_id, keys, kids };
    let none: Option<Seq<u8>> = None;
    assert(top->keys == keys && top->kids == kids && root_id(top) == top_id);
    lemma_written(d.file, top_id as int, page);
    assert(kid_lo(keys, none, 0) == none && kid_hi(keys, none, 0) == Some(sep));
    assert(kid_lo(keys, none, 1) == Some(sep) && kid_hi(keys, none, 1) == none);
    assert forall|i: int| 0 <= i < kids.len() implies ok(
        #[trigger] kids[i],
        kid_lo(keys, none, i),
        kid_hi(keys, none, i),
        h,
    ) by {
        if i == 0 {
            assert(kids[i] == t1);
        } else {
            assert(kids[i] == t2);
        }
    }
    assert(good_kids(keys, kids, none, none, h));
    assert forall|x: u32| owns(t1, x) || owns(t2, x) implies !b.is_free(x) by {
        if b.is_free(x) {
            assert(a.is_free(x));
        }
    }
    assert forall|j: int, x: u32|
        0 <= j < kids.len() && #[trigger] owns(kids[j], x) implies x < c.file.len() && c.file[
        x as int] == b.file[x as int] by {
        assert(owns(t1, x) || owns(t2, x));
        lemma_owned_in_file(
            b.file,
            kids[j],
            kid_lo(keys, none, j),
            kid_hi(keys, none, j),
            h,
            x,
        );
        assert(x != top_id);
    }
    assert forall|j: int| 0 <= j < kids.len() implies rep(b.file, #[trigger] kids[j]) && root_id(
        kids[j],
    ) == internal_kids(page)[j].0 by {}
    lemma_rep_node(b.file, c.file, top_id, keys, kids, none, none, h);
    assert forall|x: u32| #[trigger] c.is_free(x) == d.is_free(x) by {}
    assert forall|x: u32| taken(a, b, x) implies #[trigger] taken(a, c, x) by {
        if c.is_free(x) {
            assert(d.is_free(x));
            assert(b.is_free(x));
        }
    }
    assert(taken(a, c, top_id)) by {
        assert(!d.is_free(top_id));
        assert(c.is_free(top_id) == d.is_free(top_id));
        assert(a.is_free(top_id));
    }
    assert(distinct(top)) by {
        assert forall|i: int| 0 <= i < kids.len() implies distinct(#[trigger] kids[i]) && !owns(
            kids[i],
            top_id,
        ) by {}
        assert forall|i: int, j: int, x: u32|
            0 <= i < kids.len() && 0 <= j < kids.len() && i != j && #[trigger] owns(
                kids[i],
                x,
            ) implies !#[trigger] owns(kids[j], x) by {}
    }
    assert forall|x: u32| #[trigger] owns(top, x) implies owns(t, x) || taken(a, c, x) by {
        if x != top_id {
            let i = choose|i: int| 0 <= i < kids.len() && owns(#[trigger] kids[i], x);
            assert(owns(t1, x) || owns(t2, x));
            if taken(a, b, x) {
                assert(taken(a, c, x));
            }
        }
    }
    assert forall|x: u32|
        #![trigger c.file[x as int]]
        x < a.file.len() && !owns(t, x) && !taken(a, c, x) implies c.file[x as int]
        == a.file[x as int] by {
        assert(!taken(a, b, x)) by {
            if taken(a, b, x) {
                assert(taken(a, c, x));
            }
        }
        assert(b.file[x as int] == a.file[x as int]);
        assert(x != top_id);
    }
    assert forall|k: Seq<u8>| #[trigger] changed(t, top, key, Some(value), k) by {
        lemma_child_index(keys, k);
        let i = child_index(keys, k);
        if key_lt(k, sep) {
            assert(keys[0] == sep);
            assert(i == 0) by {
                if i > 0 {
                    assert(!key_lt(k, keys[0]));
                }
            }
            assert(changed(t, t1, key, Some(value), k));
        } else {
            assert(i == 1);
            assert(changed(t, t2, key, Some(value), k));
        }
    }
}

/// Deletes a key from the tree from `root` on. Returns whether it was there.
pub fn tree_delete(pager: &mut Pager, root: PageId, key: &[u8]) -> (r: Result<bool, BTreeError>)
    requires
        old(pager).inv(),
        old(pager)@.alloc_ok(),
        usable(old(pager)@.file, root.0, key@),
        is_tree(old(pager)@.file, root.0) ==> tree_guarded(old(pager)@, root.0),
    ensures
        final(pager).inv(),
        match r {
            Ok(existed) => {
                &&& key@.len() <= MAX_KEY_SIZE
                &&& is_tree(old(pager)@.file, root.0)
                &&& existed == content(old(pager)@.file, root.0).contains_key(key@)
                &&& tree_step(old(pager)@, final(pager)@, root.0, root.0, 0)
                &&& content(final(pager)@.file, root.0) == content(
                    old(pager)@.file,
                    root.0,
                ).remove(key@)
                &&& !existed ==> final(pager)@ == old(pager)@
            },
            Err(e) => {
                &&& final(pager)@ == old(pager)@
                &&& e == (if key@.len() > MAX_KEY_SIZE {
                    BTreeError::KeyTooLarge(key@.len() as usize, MAX_KEY_SIZE)
                } else {
                    walk_error(old(pager)@.file, root.0, key@)
                })
                &&& key@.len() > MAX_KEY_SIZE || !is_tree(old(pager)@.file, root.0)
            },
        },
{
    match validate_key(key) {
        Ok(_) => {},
        Err(e) => {
            return Err(e);
        },
    }
    let ghost a = pager@;
    let ghost t = tree_of(a.file, root.0);
    let ghost h = height(t);
    proof {
        if is_tree(a.file, root.0) {
            lemma_walk_leaf(t, None, None, h, key@);
        }
    }
    let mut leaf = match find_leaf(pager, root, key, Ghost(t)) {
        Ok(l) => l,
        Err(e) => {
            return Err(e);
        },
    };
    let ghost es = leaf@;
    let leaf_page_id = leaf.page_id;
    let existed = leaf.delete(key);
    proof {
        lemma_leaf_of_walk(t, None, None, h, key@);
        lemma_removed(es, key@, None, None);
        lemma_removed_fits(es, key@);
    }
    if existed {
        let buf = leaf.to_page();
        let _ = pager.write_page(leaf_page_id, &buf);
        proof {
            let b = pager@;
            let es2 = removed(es, key@);
            let t2 = with_leaf(t, key@, es2);
            let id = leaf_page_id.0;
            assert(owns(t, id));
            lemma_owned_in_file(a.file, t, None, None, h, id);
            lemma_written(a.file, id as int, buf@);
            assert forall|l: Option<Seq<u8>>, u: Option<Seq<u8>>|
                good_entries(es, l, u) && in_bounds(key@, l, u) implies good_entries(es2, l, u) by {
                lemma_removed(es, key@, l, u);
            }
            lemma_with_leaf(a.file, b.file, t, None, None, h, key@, es2, None);
            lemma_is_tree(b.file, t2, h);
            lemma_changed_content(t, t2, key@, None);
            assert forall|x: u32| #[trigger] b.is_free(x) == a.is_free(x) by {}
            assert forall|x: u32| #[trigger] tree_owns(b.file, root.0, x) implies tree_owns(
                a.file,
                root.0,
                x,
            ) && !b.is_free(x) by {
                assert(owns(t2, x));
                assert(tree_owns(a.file, root.0, x));
            }
            assert(tree_owns(a.file, root.0, id));
            assert(content(a.file, root.0).contains_key(key@));
        }
    } else {
        proof {
            assert(content(a.file, root.0).remove(key@) =~= content(a.file, root.0));
        }
    }
    Ok(existed)
}

proof fn lemma_leaf_of_walk(
    t: Tree,
    lo: Option<Seq<u8>>,
    hi: Option<Seq<u8>>,
    h: nat,
    key: Seq<u8>,
)
    requires
        ok(t, lo, hi, h),
        in_bounds(key, lo, hi),
    ensures
        walk(t, key) matches Tree::Leaf { entries, .. } && leaf_fits(entries) && good_entries(
            entries,
            None,
            None,
        ),
    decreases t,
{
    if let Tree::Node { keys, kids, .. } = t {
        let i = child_index(keys, key);
        lemma_child_bounds(keys, key, lo, hi);
        lemma_leaf_of_walk(kids[i], kid_lo(keys, lo, i), kid_hi(keys, hi, i), (h - 1) as nat, key);
    }
}

proof fn lemma_removed_fits(es: Seq<(Seq<u8>, Seq<u8>)>, key: Seq<u8>)
    requires
        leaf_fits(es),
    ensures
        leaf_fits(removed(es, key)),
{
    let b = lower_bound(keys_of(es), key);
    lemma_lower_bound(keys_of(es), key);
    if b < es.len() && es[b].0 == key {
        let gone = seq![es[b]];
        reveal_with_fuel(data_len, 2);
        assert(gone.drop_last() =~= Seq::empty());
        assert(es =~= es.take(b) + (gone + es.skip(b + 1)));
        lemma_data_len_concat(es.take(b), gone + es.skip(b + 1));
        lemma_data_len_concat(gone, es.skip(b + 1));
        assert(es.remove(b) =~= es.take(b) + es.skip(b + 1));
        lemma_data_len_concat(es.take(b), es.skip(b + 1));
    }
}

/// Pairs of byte strings, as values.
pub open spec fn pairs(v: Seq<(Vec<u8>, Vec<u8>)>) -> Seq<(Seq<u8>, Seq<u8>)> {
    Seq::new(v.len(), |i: int| (v[i].0@, v[i].1@))
}

/// Whether `s` lists, in ascending order, what the tree answers between
/// `start` and `end` for keys that satisfy `sel`.
spec fn lists(
    s: Seq<(Seq<u8>, Seq<u8>)>,
    t: Tree,
    start: Seq<u8>,
    end: Seq<u8>,
    sel: spec_fn(Seq<u8>) -> bool,
) -> bool {
    &&& sorted_keys(keys_of(s))
    &&& forall|k: Seq<u8>, v: Seq<u8>| #[trigger]
        s.contains((k, v)) <==> lookup(t, k) == Some(v) && key_le(start, k) && key_le(k, end)
            && sel(k)
}

proof fn lemma_key_in_list(s: Seq<(Seq<u8>, Seq<u8>)>, i: int)
    requires
        0 <= i < s.len(),
    ensures
        s.contains((s[i].0, s[i].1)),
{
    assert(s[i] == (s[i].0, s[i].1));
}

/// Putting a list behind another whose keys are all smaller.
proof fn lemma_lists_concat(
    a: Seq<(Seq<u8>, Seq<u8>)>,
    b: Seq<(Seq<u8>, Seq<u8>)>,
    t: Tree,
    start: Seq<u8>,
    end: Seq<u8>,
    sa: spec_fn(Seq<u8>) -> bool,
    sb: spec_fn(Seq<u8>) -> bool,
    sc: spec_fn(Seq<u8>) -> bool,
)
    requires
        lists(a, t, start, end, sa),
        lists(b, t, start, end, sb),
        forall|k: Seq<u8>| #[trigger] sc(k) <==> sa(k) || sb(k),
        forall|x: Seq<u8>, y: Seq<u8>|
            #![trigger sa(x), sb(y)]
            lookup(t, x) is Some && lookup(t, y) is Some && sa(x) && sb(y) ==> key_lt(x, y),
    ensures
        lists(a + b, t, start, end, sc),
{
    let c = a + b;
    assert forall|i: int, j: int| 0 <= i < j < keys_of(c).len() implies #[trigger] key_lt(
        keys_of(c)[i],
        keys_of(c)[j],
    ) by {
        if j < a.len() {
            assert(key_lt(keys_of(a)[i], keys_of(a)[j]));
        } else if i >= a.len() {
            assert(key_lt(keys_of(b)[i - a.len()], keys_of(b)[j - a.len()]));
        } else {
            lemma_key_in_list(a, i);
            lemma_key_in_list(b, j - a.len());
            assert(sa(a[i].0) && sb(b[j - a.len()].0));
        }
    }
    assert forall|k: Seq<u8>, v: Seq<u8>| #[trigger]
        c.contains((k, v)) <==> lookup(t, k) == Some(v) && key_le(start, k) && key_le(k, end)
            && sc(k) by {
        if c.contains((k, v)) {
            let i = c.index_of((k, v));
            if i < a.len() {
                assert(a[i] == (k, v));
                assert(a.contains((k, v)));
            } else {
                assert(b[i - a.len()] == (k, v));
                assert(b.contains((k, v)));
            }
            assert(sc(k));
        }
        if a.contains((k, v)) {
            assert(c[a.index_of((k, v))] == (k, v));
        }
        if b.contains((k, v)) {
            assert(c[a.len() + b.index_of((k, v))] == (k, v));
        }
        if lookup(t, k) == Some(v) && key_le(start, k) && key_le(k, end) && sc(k) {
            if sa(k) {
                assert(a.contains((k, v)));
            } else {
                assert(b.contains((k, v)));
            }
        }
    }
}

/// The entries of a leaf between `start` and `end`.
fn collect_leaf(leaf: &LeafNode, start: &[u8], end: &[u8], results: &mut Vec<(Vec<u8>, Vec<u8>)>)
    -> (r: Ghost<Seq<(Seq<u8>, Seq<u8>)>>)
    requires
        sorted_keys(keys_of(leaf@)),
    ensures
        pairs(final(results)@) == pairs(old(results)@) + r@,
        lists(
            r@,
            Tree::Leaf { id: leaf.page_id.0, entries: leaf@ },
            start@,
            end@,
            |k: Seq<u8>| true,
        ),
{
    let ghost es = leaf@;
    let ghost first = pairs(results@);
    let ghost mut acc: Seq<(Seq<u8>, Seq<u8>)> = Seq::empty();
    let mut i: usize = 0;
    while i < leaf.entries.len()
        invariant
            es == leaf@,
            sorted_keys(keys_of(es)),
            i <= leaf.entries@.len(),
            pairs(results@) == first + acc,
            sorted_keys(keys_of(acc)),
            forall|e: (Seq<u8>, Seq<u8>)| #[trigger]
                acc.contains(e) <==> key_le(start@, e.0) && key_le(e.0, end@) && exists|j: int|
                    0 <= j < i && #[trigger] es[j] == e,
        decreases leaf.entries@.len() - i,
    {
        let ghost e = es[i as int];
        let ghost acc0 = acc;
        let in_range = !key_less(leaf.entries[i].key.as_slice(), start) && !key_less(
            end,
            leaf.entries[i].key.as_slice(),
        );
        proof {
            lemma_key_total(start@, e.0);
            lemma_key_total(e.0, end@);
            if key_lt(start@, e.0) {
                lemma_key_asymmetric(start@, e.0);
            }
            if key_lt(e.0, end@) {
                lemma_key_asymmetric(e.0, end@);
            }
            lemma_key_irreflexive(e.0);
        }
        if in_range {
            let ghost before = results@;
            results.push(
                (
                    copy_bytes(leaf.entries[i].key.as_slice()),
                    copy_bytes(leaf.entries[i].value.as_slice()),
                ),
            );
            proof {
                acc = acc0.push(e);
                assert(pairs(results@) =~= pairs(before).push(e));
                assert(pairs(results@) =~= first + acc);
                assert forall|x: int, y: int| 0 <= x < y < acc.len() implies #[trigger] key_lt(
                    keys_of(acc)[x],
                    keys_of(acc)[y],
                ) by {
                    if y < acc0.len() {
                        assert(key_lt(keys_of(acc0)[x], keys_of(acc0)[y]));
                    } else {
                        assert(acc0.contains(acc0[x]));
                        let j = choose|j: int| 0 <= j < i && #[trigger] es[j] == acc0[x];
                        assert(key_lt(keys_of(es)[j], keys_of(es)[i as int]));
                    }
                }
            }
        }
        proof {
            assert forall|f: (Seq<u8>, Seq<u8>)| #[trigger]
                acc.contains(f) <==> key_le(start@, f.0) && key_le(f.0, end@) && exists|j: int|
                    0 <= j < i + 1 && #[trigger] es[j] == f by {
                if acc.contains(f) {
                    if acc0.contains(f) {
                        let j = choose|j: int| 0 <= j < i && #[trigger] es[j] == f;
                        assert(0 <= j < i + 1 && es[j] == f);
                    } else {
                        let x = acc.index_of(f);
                        assert(x == acc0.len()) by {
                            if x < acc0.len() {
                                assert(acc0[x] == f);
                            }
                        }
                        assert(es[i as int] == f);
                    }
                }
                if key_le(start@, f.0) && key_le(f.0, end@) && exists|j: int|
                    0 <= j < i + 1 && #[trigger] es[j] == f {
                    let j = choose|j: int| 0 <= j < i + 1 && #[trigger] es[j] == f;
                    if j < i {
                        assert(acc0.contains(f));
                        assert(acc[acc0.index_of(f)] == f);
                    } else {
                        assert(acc[acc0.len() as int] == f);
                    }
                }
            }
        }
        i = i + 1;
    }
    proof {
        let t = Tree::Leaf { id: leaf.page_id.0, entries: es };
        assert forall|k: Seq<u8>, v: Seq<u8>| #[trigger]
            acc.contains((k, v)) <==> lookup(t, k) == Some(v) && key_le(start@, k) && key_le(
                k,
                end@,
            ) by {
            if acc.contains((k, v)) {
                let j = choose|j: int| 0 <= j < i && #[trigger] es[j] == (k, v);
                lemma_get_in(es, k, j);
            }
            if lookup(t, k) == Some(v) {
                lemma_get_in_some(es, k);
            }
        }
    }
    Ghost(acc)
}

/// Collects the entries between `start` and `end` below page `page_id`,
/// visiting only the children whose ranges can hold some.
fn collect_range<S: PageSource>(
    src: &mut S,
    page_id: PageId,
    start: &[u8],
    end: &[u8],
    results: &mut Vec<(Vec<u8>, Vec<u8>)>,
    Ghost(t): Ghost<Tree>,
    Ghost(lo): Ghost<Option<Seq<u8>>>,
    Ghost(hi): Ghost<Option<Seq<u8>>>,
    Ghost(h): Ghost<nat>,
) -> (r: Result<Ghost<Seq<(Seq<u8>, Seq<u8>)>>, BTreeError>)
    requires
        old(src).ready(),
        rep(old(src).state().file, t),
        root_id(t) == page_id.0,
        ok(t, lo, hi, h),
    ensures
        final(src).ready(),
        final(src).state() == old(src).state(),
        r is Ok,
        pairs(final(results)@) == pairs(old(results)@) + r->Ok_0@,
        lists(r->Ok_0@, t, start@, end@, |k: Seq<u8>| true),
    decreases h,
{
    let ghost file = src.state().file;
    let buf = match src.fetch(page_id) {
        Ok(b) => b,
        Err(e) => {
            return Err(BTreeError::Pager(e));
        },
    };
    let (pt, _) = read_page_header(&buf);
    if pt == PageType::BtreeLeaf {
        assert(t is Leaf);
        let leaf = match LeafNode::from_page(&buf) {
            Ok(n) => n,
            Err(e) => {
                return Err(e);
            },
        };
        return Ok(collect_leaf(&leaf, start, end, results));
    }
    assert(t is Node);
    let node = match InternalNode::from_page(&buf) {
        Ok(n) => n,
        Err(e) => {
            return Err(e);
        },
    };
    let ghost keys = t->keys;
    let ghost kids = t->kids;
    let ghost h1 = (h - 1) as nat;
    let ghost first = pairs(results@);
    let ghost mut acc: Seq<(Seq<u8>, Seq<u8>)> = Seq::empty();
    let mut i: usize = 0;
    proof {
        assert(keys_of(acc) =~= Seq::empty());
        assert forall|k: Seq<u8>| true implies child_index(keys, k) >= 0 by {
            lemma_child_index(keys, k);
        }
    }
    while i < node.entries.len()
        invariant
            src.ready(),
            src.state() == old(src).state(),
            file == src.state().file,
            rep(file, t),
            ok(t, lo, hi, h),
            t is Node,
            keys == t->keys,
            kids == t->kids,
            h1 == h - 1,
            node.keys() == keys,
            node.kids() == internal_kids(file[page_id.0 as int]),
            root_id(t) == page_id.0,
            i <= node.entries@.len(),
            first == pairs(old(results)@),
            pairs(results@) == first + acc,
            lists(acc, t, start@, end@, |k: Seq<u8>| child_index(keys, k) < i),
        decreases node.entries@.len() - i,
    {
        let ghost key_i = keys[i as int];
        let ghost acc0 = acc;
        assert(key_i == node.entries@[i as int].key@);
        let ghost sa = |k: Seq<u8>| child_index(keys, k) < i;
        let ghost sc = |k: Seq<u8>| child_index(keys, k) < i + 1;
        if key_less(start, node.entries[i].key.as_slice()) {
            proof {
                assert(root_id(kids[i as int]) == internal_kids(file[page_id.0 as int])[
                    i as int].0);
                assert(node.kids()[i as int] == node.entries@[i as int].child);
            }
            let part = match collect_range(
                src,
                node.entries[i].child,
                start,
                end,
                results,
                Ghost(kids[i as int]),
                Ghost(kid_lo(keys, lo, i as int)),
                Ghost(kid_hi(keys, hi, i as int)),
                Ghost(h1),
            ) {
                Ok(p) => p,
                Err(e) => {
                    return Err(e);
                },
            };
            proof {
                lemma_kid_list(part@, t, lo, hi, h, start@, end@, i as int);
                let sb = |k: Seq<u8>| child_index(keys, k) == i;
                lemma_kid_order(t, lo, hi, h, i as int);
                lemma_lists_concat(acc0, part@, t, start@, end@, sa, sb, sc);
                acc = acc0 + part@;
                assert(pairs(results@) =~= first + acc);
            }
        } else {
            proof {
                assert forall|k: Seq<u8>, v: Seq<u8>| #[trigger]
                    acc0.contains((k, v)) <==> lookup(t, k) == Some(v) && key_le(start@, k)
                        && key_le(k, end@) && sc(k) by {
                    lemma_child_index(keys, k);
                    assert(acc0.contains((k, v)) <==> lookup(t, k) == Some(v) && key_le(start@, k)
                        && key_le(k, end@) && sa(k));
                    if child_index(keys, k) == i {
                        assert(key_lt(k, key_i));
                        lemma_key_total(start@, key_i);
                        if key_le(start@, k) {
                            if start@ != k {
                                lemma_key_transitive(start@, k, key_i);
                            }
                        }
                    }
                }
            }
        }
        proof {
            assert(lists(acc, t, start@, end@, sc));
        }
        if key_less(end, node.entries[i].key.as_slice()) {
            proof {
                assert forall|k: Seq<u8>, v: Seq<u8>| #[trigger]
                    acc.contains((k, v)) <==> lookup(t, k) == Some(v) && key_le(start@, k)
                        && key_le(k, end@) && true by {
                    lemma_child_index(keys, k);
                    assert(acc.contains((k, v)) <==> lookup(t, k) == Some(v) && key_le(start@, k)
                        && key_le(k, end@) && sc(k));
                    if child_index(keys, k) > i && key_le(k, end@) {
                        assert(!key_lt(k, keys[i as int]));
                        if k != end@ {
                            lemma_key_transitive(k, end@, key_i);
                        }
                    }
                }
            }
            return Ok(Ghost(acc));
        }
        i = i + 1;
    }
    proof {
        let n = keys.len() as int;
        assert(root_id(kids[n]) == internal_kids(file[page_id.0 as int])[n].0);
        assert(node.kids()[n] == node.right_child);
    }
    let part = match collect_range(
        src,
        node.right_child,
        start,
        end,
        results,
        Ghost(kids[keys.len() as int]),
        Ghost(kid_lo(keys, lo, keys.len() as int)),
        Ghost(kid_hi(keys, hi, keys.len() as int)),
        Ghost(h1),
    ) {
        Ok(p) => p,
        Err(e) => {
            return Err(e);
        },
    };
    let ghost acc1 = acc + part@;
    proof {
        let n = keys.len() as int;
        lemma_kid_list(part@, t, lo, hi, h, start@, end@, n);
        lemma_kid_order(t, lo, hi, h, n);
        let sa = |k: Seq<u8>| child_index(keys, k) < i;
        let sb = |k: Seq<u8>| child_index(keys, k) == n;
        let sc = |k: Seq<u8>| true;
        assert forall|k: Seq<u8>| #[trigger] sc(k) <==> sa(k) || sb(k) by {
            lemma_child_index(keys, k);
        }
        lemma_lists_concat(acc, part@, t, start@, end@, sa, sb, sc);
        assert(pairs(results@) =~= first + acc1);
    }
    Ok(Ghost(acc1))
}

/// What a child lists is what its node lists of the keys that belong to it.
proof fn lemma_kid_list(
    s: Seq<(Seq<u8>, Seq<u8>)>,
    t: Tree,
    lo: Option<Seq<u8>>,
    hi: Option<Seq<u8>>,
    h: nat,
    start: Seq<u8>,
    end: Seq<u8>,
    i: int,
)
    requires
        t is Node,
        ok(t, lo, hi, h),
        0 <= i < t->kids.len(),
        lists(s, t->kids[i], start, end, |k: Seq<u8>| true),
    ensures
        lists(s, t, start, end, |k: Seq<u8>| child_index(t->keys, k) == i),
{
    let keys = t->keys;
    let kids = t->kids;
    let all = |k: Seq<u8>| true;
    let sb = |k: Seq<u8>| child_index(keys, k) == i;
    assert forall|k: Seq<u8>, v: Seq<u8>| #[trigger]
        s.contains((k, v)) <==> lookup(t, k) == Some(v) && key_le(start, k) && key_le(k, end)
            && sb(k) by {
        assert(s.contains((k, v)) <==> lookup(kids[i], k) == Some(v) && key_le(start, k) && key_le(
            k,
            end,
        ) && all(k));
        if lookup(kids[i], k) is Some {
            lemma_lookup_bounds(
                kids[i],
                kid_lo(keys, lo, i),
                kid_hi(keys, hi, i),
                (h - 1) as nat,
                k,
            );
            lemma_bounds_index(keys, lo, hi, i, k);
        }
    }
}

/// A key between the bounds of child `i` belongs to child `i`.
proof fn lemma_bounds_index(
    keys: Seq<Seq<u8>>,
    lo: Option<Seq<u8>>,
    hi: Option<Seq<u8>>,
    i: int,
    k: Seq<u8>,
)
    requires
        sorted_keys(keys),
        0 <= i <= keys.len(),
        in_bounds(k, kid_lo(keys, lo, i), kid_hi(keys, hi, i)),
    ensures
        child_index(keys, k) == i,
{
    assert forall|j: int| 0 <= j < i implies !#[trigger] key_lt(k, keys[j]) by {
        lemma_key_irreflexive(k);
        if key_lt(k, keys[j]) {
            if j < i - 1 {
                assert(key_lt(keys[j], keys[i - 1]));
                lemma_key_transitive(k, keys[j], keys[i - 1]);
            }
            if keys[i - 1] != k {
                lemma_key_asymmetric(k, keys[i - 1]);
            }
        }
    }
    lemma_child_index_unique(keys, k, i);
}

/// Keys that a node answers through an earlier child are smaller.
proof fn lemma_kid_order(t: Tree, lo: Option<Seq<u8>>, hi: Option<Seq<u8>>, h: nat, i: int)
    requires
        t is Node,
        ok(t, lo, hi, h),
        0 <= i < t->kids.len(),
    ensures
        forall|x: Seq<u8>, y: Seq<u8>|
            #![trigger child_index(t->keys, x), child_index(t->keys, y)]
            child_index(t->keys, x) < i && child_index(t->keys, y) == i ==> key_lt(x, y),
{
    let keys = t->keys;
    assert forall|x: Seq<u8>, y: Seq<u8>|
        #![trigger child_index(keys, x), child_index(keys, y)]
        child_index(keys, x) < i && child_index(keys, y) == i implies key_lt(x, y) by {
        lemma_child_index(keys, x);
        lemma_child_index(keys, y);
        let j = child_index(keys, x);
        assert(key_lt(x, keys[j]));
        assert(!key_lt(y, keys[j]));
        lemma_key_total(keys[j], y);
        if keys[j] != y {
            lemma_key_transitive(x, keys[j], y);
        }
    }
}

/// Inclusive range scan of the tree from `root` on.
pub fn tree_range<S: PageSource>(src: &mut S, root: PageId, start: &[u8], end: &[u8]) -> (r: Result<
    Vec<(Vec<u8>, Vec<u8>)>,
    BTreeError,
>)
    requires
        old(src).ready(),
        walkable(old(src).state().file, root.0),
        is_tree(old(src).state().file, root.0) || tree_of(old(src).state().file, root.0) is Bad,
    ensures
        final(src).ready(),
        final(src).state() == old(src).state(),
        match r {
            Ok(v) => is_tree(old(src).state().file, root.0) && is_range(
                pairs(v@),
                content(old(src).state().file, root.0),
                start@,
                end@,
            ),
            Err(e) => !is_tree(old(src).state().file, root.0) && e == bad_error(
                old(src).state().file,
                root.0,
            ),
        },
{
    let ghost file = src.state().file;
    let ghost t = tree_of(file, root.0);
    let buf = match src.fetch(root) {
        Ok(b) => b,
        Err(e) => {
            return Err(BTreeError::Pager(e));
        },
    };
    match read_page_header(&buf).0 {
        PageType::BtreeLeaf => {
            if let Err(e) = LeafNode::from_page(&buf) {
                return Err(e);
            }
        },
        PageType::BtreeInternal => {
            if let Err(e) = InternalNode::from_page(&buf) {
                return Err(e);
            }
        },
        _ => {
            return Err(BTreeError::CorruptNode);
        },
    }
    let mut results: Vec<(Vec<u8>, Vec<u8>)> = Vec::new();
    match collect_range(
        src,
        root,
        start,
        end,
        &mut results,
        Ghost(t),
        Ghost(None),
        Ghost(None),
        Ghost(height(t)),
    ) {
        Ok(s) => {
            proof {
                let all = |k: Seq<u8>| true;
                assert(pairs(results@) =~= s@);
                let m = content(file, root.0);
                assert forall|k: Seq<u8>, v: Seq<u8>| #[trigger]
                    pairs(results@).contains((k, v)) <==> m.contains_key(k) && m[k] == v && key_le(
                        start@,
                        k,
                    ) && key_le(k, end@) by {
                    assert(s@.contains((k, v)) <==> lookup(t, k) == Some(v) && key_le(start@, k)
                        && key_le(k, end@) && all(k));
                }
            }
            Ok(results)
        },
        Err(e) => Err(e),
    }
}

/// Creates an empty tree on a page of its own, and returns that page.
pub fn tree_new(pager: &mut Pager) -> (r: PageId)
    requires
        old(pager).inv(),
        old(pager)@.alloc_ok(),
        old(pager)@.meta.next_page_id < u32::MAX,
    ensures
        final(pager).inv(),
        grown(old(pager)@, final(pager)@, 1),
        taken(old(pager)@, final(pager)@, r.0),
        is_tree(final(pager)@.file, r.0),
        tree_guarded(final(pager)@, r.0),
        content(final(pager)@.file, r.0) == Map::<Seq<u8>, Seq<u8>>::empty(),
        forall|x: u32| #[trigger] tree_owns(final(pager)@.file, r.0, x) ==> x == r.0,
        forall|x: u32|
            #![trigger final(pager)@.file[x as int]]
            x < old(pager)@.file.len() && x != r.0 ==> final(pager)@.file[x as int] == old(
                pager,
            )@.file[x as int],
{
    let ghost a = pager@;
    let root_id_new = take_page(pager);
    let ghost d = pager@;
    let root = LeafNode::new(root_id_new);
    let buf = root.to_page();
    let _ = pager.write_page(root_id_new, &buf);
    proof {
        let b = pager@;
        let id = root_id_new.0;
        let t = Tree::Leaf { id, entries: leaf_entries(buf@) };
        lemma_written(d.file, id as int, buf@);
        assert(keys_of(t->entries) =~= Seq::empty());
        lemma_is_tree(b.file, t, 0);
        assert forall|x: u32| #[trigger] b.is_free(x) == d.is_free(x) by {}
        assert(!d.is_free(id));
        assert(content(b.file, id) =~= Map::<Seq<u8>, Seq<u8>>::empty());
        assert forall|x: u32| #[trigger] tree_owns(b.file, id, x) implies x == id && !b.is_free(
            x,
        ) by {
            assert(owns(t, x));
        }
    }
    root_id_new
}

/// A B+tree stored in the pages of a pager.
pub struct BTree<'a> {
    pub pager: &'a mut Pager,
    pub root: PageId,
}

impl<'a> BTree<'a> {
    /// Creates a new, empty B+tree on a leaf page of its own.
    pub fn new(pager: &'a mut Pager) -> (r: Self)
        requires
            old(pager).inv(),
            old(pager)@.alloc_ok(),
            old(pager)@.meta.next_page_id < u32::MAX,
        ensures
            *final(r.pager) == *final(pager),
            r.pager.inv(),
            grown(old(pager)@, r.pager@, 1),
            taken(old(pager)@, r.pager@, r.root.0),
            is_tree(r.pager@.file, r.root.0),
            tree_guarded(r.pager@, r.root.0),
            content(r.pager@.file, r.root.0) == Map::<Seq<u8>, Seq<u8>>::empty(),
            forall|x: u32|
                #![trigger r.pager@.file[x as int]]
                x < old(pager)@.file.len() && x != r.root.0 ==> r.pager@.file[x as int] == old(
                    pager,
                )@.file[x as int],
    {
        let root = tree_new(pager);
        BTree { pager, root }
    }

    /// Opens an existing B+tree with the given root page.
    pub fn open(pager: &'a mut Pager, root: PageId) -> (r: Self)
        ensures
            *final(r.pager) == *final(pager),
            *r.pager == *old(pager),
            r.root == root,
    {
        BTree { pager, root }
    }

    /// The current root page.
    pub fn root(&self) -> (r: PageId)
        ensures
            r == self.root,
    {
        self.root
    }

    /// Point lookup.
    pub fn get(&mut self, key: &[u8]) -> (r: Result<Option<Vec<u8>>, BTreeError>)
        requires
            old(self).pager.inv(),
            usable(old(self).pager@.file, old(self).root.0, key@),
        ensures
            *final(final(self).pager) == *final(old(self).pager),
            final(self).root == old(self).root,
            final(self).pager.inv(),
            final(self).pager@ == old(self).pager@,
            result_view(r) == get_result(old(self).pager@.file, old(self).root.0, key@),
    {
        tree_get(self.pager, self.root, key)
    }

    /// Inserts or updates a key-value pair.
    pub fn insert(&mut self, key: &[u8], value: &[u8]) -> (r: Result<(), BTreeError>)
        requires
            old(self).pager.inv(),
            old(self).pager@.alloc_ok(),
            usable(old(self).pager@.file, old(self).root.0, key@),
            is_tree(old(self).pager@.file, old(self).root.0) ==> tree_guarded(
                old(self).pager@,
                old(self).root.0,
            ) && room(old(self).pager@),
        ensures
            *final(final(self).pager) == *final(old(self).pager),
            final(self).pager.inv(),
            match r {
                Ok(_) => {
                    &&& key@.len() <= MAX_KEY_SIZE
                    &&& value@.len() <= MAX_VALUE_SIZE
                    &&& is_tree(old(self).pager@.file, old(self).root.0)
                    &&& tree_step(
                        old(self).pager@,
                        final(self).pager@,
                        old(self).root.0,
                        final(self).root.0,
                        PAGES_PER_INSERT as int,
                    )
                    &&& content(final(self).pager@.file, final(self).root.0) == content(
                        old(self).pager@.file,
                        old(self).root.0,
                    ).insert(key@, value@)
                },
                Err(e) => {
                    &&& final(self).root == old(self).root
                    &&& final(self).pager@ == old(self).pager@
                    &&& e == (if key@.len() > MAX_KEY_SIZE {
                        BTreeError::KeyTooLarge(key@.len() as usize, MAX_KEY_SIZE)
                    } else if value@.len() > MAX_VALUE_SIZE {
                        BTreeError::ValueTooLarge(value@.len() as usize, MAX_VALUE_SIZE)
                    } else {
                        walk_error(old(self).pager@.file, old(self).root.0, key@)
                    })
                    &&& key@.len() > MAX_KEY_SIZE || value@.len() > MAX_VALUE_SIZE || !is_tree(
                        old(self).pager@.file,
                        old(self).root.0,
                    )
                },
            },
    {
        match tree_insert(self.pager, self.root, key, value) {
            Ok(root) => {
                self.root = root;
                Ok(())
            },
            Err(e) => Err(e),
        }
    }

    /// Deletes a key. Returns true if the key existed.
    pub fn delete(&mut self, key: &[u8]) -> (r: Result<bool, BTreeError>)
        requires
            old(self).pager.inv(),
            old(self).pager@.alloc_ok(),
            usable(old(self).pager@.file, old(self).root.0, key@),
            is_tree(old(self).pager@.file, old(self).root.0) ==> tree_guarded(
                old(self).pager@,
                old(self).root.0,
            ),
        ensures
            *final(final(self).pager) == *final(old(self).pager),
            final(self).pager.inv(),
            final(self).root == old(self).root,
            match r {
                Ok(existed) => {
                    &&& key@.len() <= MAX_KEY_SIZE
                    &&& is_tree(old(self).pager@.file, old(self).root.0)
                    &&& existed == content(
                        old(self).pager@.file,
                        old(self).root.0,
                    ).contains_key(key@)
                    &&& tree_step(
                        old(self).pager@,
                        final(self).pager@,
                        old(self).root.0,
                        old(self).root.0,
                        0,
                    )
                    &&& content(final(self).pager@.file, old(self).root.0) == content(
                        old(self).pager@.file,
                        old(self).root.0,
                    ).remove(key@)
                },
                Err(e) => {
                    &&& final(self).pager@ == old(self).pager@
                    &&& e == (if key@.len() > MAX_KEY_SIZE {
                        BTreeError::KeyTooLarge(key@.len() as usize, MAX_KEY_SIZE)
                    } else {
                        walk_error(old(self).pager@.file, old(self).root.0, key@)
                    })
                    &&& key@.len() > MAX_KEY_SIZE || !is_tree(
                        old(self).pager@.file,
                        old(self).root.0,
                    )
                },
            },
    {
        tree_delete(self.pager, self.root, key)
    }

    /// Inclusive range scan: all pairs with `start <= key <= end`, in key order.
    pub fn range(&mut self, start: &[u8], end: &[u8]) -> (r: Result<
        Vec<(Vec<u8>, Vec<u8>)>,
        BTreeError,
    >)
        requires
            old(self).pager.inv(),
            walkable(old(self).pager@.file, old(self).root.0),
            is_tree(old(self).pager@.file, old(self).root.0) || tree_of(
                old(self).pager@.file,
                old(self).root.0,
            ) is Bad,
        ensures
            *final(final(self).pager) == *final(old(self).pager),
            final(self).root == old(self).root,
            final(self).pager.inv(),
            final(self).pager@ == old(self).pager@,
            match r {
                Ok(v) => is_tree(old(self).pager@.file, old(self).root.0) && is_range(
                    pairs(v@),
                    content(old(self).pager@.file, old(self).root.0),
                    start@,
                    end@,
                ),
                Err(e) => !is_tree(old(self).pager@.file, old(self).root.0) && e == bad_error(
                    old(self).pager@.file,
                    old(self).root.0,
                ),
            },
    {
        tree_range(self.pager, self.root, start, end)
    }
}

} // verus!

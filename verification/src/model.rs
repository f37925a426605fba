//! The mathematical model of a B+tree: the tree that a row of pages holds,
//! what makes it well formed, and the map that it stands for.

use crate::bytes::{
    key_le, key_lt, lemma_key_asymmetric, lemma_key_irreflexive, lemma_key_total,
    lemma_key_transitive,
};
use crate::error::{BTreeError, IoError, PagerError};
use crate::node::{
    child_index, internal_fits, internal_keys, internal_kids, internal_readable,
    internal_slots_reached, keys_of, leaf_entries, leaf_fits, leaf_readable, leaf_slots_reached,
    lemma_child_index, lemma_child_index_unique, lemma_lower_bound, lemma_lower_bound_unique,
    lower_bound, removed, sorted_keys, upserted,
};
use crate::page::{header_id, header_type, PageId, PageType};
use vstd::arithmetic::power2::{
    lemma2_to64, lemma_pow2_strictly_increases, lemma_pow2_unfold, pow2,
};
use vstd::prelude::*;
use vstd::set_lib::{lemma_int_range, lemma_len_subset, lemma_set_disjoint_lens, set_int_range};

verus! {

/// Maximum allowed key size in bytes.
pub const MAX_KEY_SIZE: usize = 1000;

/// Maximum allowed value size in bytes.
pub const MAX_VALUE_SIZE: usize = 1000;

/// The most pages that one insertion takes.
pub const PAGES_PER_INSERT: u32 = 34;

/// A tree of pages.
pub enum Tree {
    /// A leaf page with its entries.
    Leaf { id: u32, entries: Seq<(Seq<u8>, Seq<u8>)> },
    /// An internal page with its separator keys and the trees between them.
    Node { id: u32, keys: Seq<Seq<u8>>, kids: Seq<Tree> },
    /// A page that cannot be read as a node.
    Bad { id: u32 },
}

/// The page at the top of a tree.
pub open spec fn root_id(t: Tree) -> u32 {
    match t {
        Tree::Leaf { id, .. } => id,
        Tree::Node { id, .. } => id,
        Tree::Bad { id } => id,
    }
}

/// Whether a page is refused as a tree node.
pub open spec fn bad_page(page: Seq<u8>) -> bool {
    match header_type(page) {
        PageType::BtreeLeaf => leaf_slots_reached(page) && !leaf_readable(page),
        PageType::BtreeInternal => internal_slots_reached(page) && !internal_readable(page),
        _ => true,
    }
}

/// The error that reading page `id` as a tree node gives where it cannot be read.
pub open spec fn bad_error(pages: Seq<Seq<u8>>, id: u32) -> BTreeError {
    if id >= pages.len() {
        BTreeError::Pager(PagerError::Io(IoError::UnexpectedEof))
    } else {
        BTreeError::CorruptNode
    }
}

/// Whether `pages` hold the tree `t`.
pub open spec fn rep(pages: Seq<Seq<u8>>, t: Tree) -> bool
    decreases t,
{
    match t {
        Tree::Leaf { id, entries } => {
            &&& 2 <= id < pages.len()
            &&& leaf_readable(pages[id as int])
            &&& header_id(pages[id as int]) == PageId(id)
            &&& entries == leaf_entries(pages[id as int])
        },
        Tree::Node { id, keys, kids } => {
            &&& 2 <= id < pages.len()
            &&& internal_readable(pages[id as int])
            &&& header_id(pages[id as int]) == PageId(id)
            &&& keys == internal_keys(pages[id as int])
            &&& kids.len() == keys.len() + 1
            &&& forall|i: int|
                0 <= i < kids.len() ==> root_id(#[trigger] kids[i]) == internal_kids(
                    pages[id as int],
                )[i].0
            &&& forall|i: int| 0 <= i < kids.len() ==> rep(pages, #[trigger] kids[i])
        },
        Tree::Bad { id } => 2 <= id && (id >= pages.len() || bad_page(pages[id as int])),
    }
}

/// The value of `key` among sorted entries.
pub open spec fn get_in(es: Seq<(Seq<u8>, Seq<u8>)>, key: Seq<u8>) -> Option<Seq<u8>> {
    let i = lower_bound(keys_of(es), key);
    if i < es.len() && es[i].0 == key {
        Some(es[i].1)
    } else {
        None
    }
}

/// The leaf or unreadable page that the search for `key` ends at.
pub open spec fn walk(t: Tree, key: Seq<u8>) -> Tree
    decreases t,
{
    match t {
        Tree::Node { id, keys, kids } => {
            let i = child_index(keys, key);
            if 0 <= i < kids.len() {
                walk(kids[i], key)
            } else {
                t
            }
        },
        _ => t,
    }
}

/// The value that the search for `key` finds.
pub open spec fn lookup(t: Tree, key: Seq<u8>) -> Option<Seq<u8>>
    decreases t,
{
    match t {
        Tree::Leaf { entries, .. } => get_in(entries, key),
        Tree::Node { keys, kids, .. } => {
            let i = child_index(keys, key);
            if 0 <= i < kids.len() {
                lookup(kids[i], key)
            } else {
                None
            }
        },
        Tree::Bad { .. } => None,
    }
}

/// Whether page `x` belongs to the tree.
pub open spec fn owns(t: Tree, x: u32) -> bool
    decreases t,
{
    match t {
        Tree::Leaf { id, .. } => x == id,
        Tree::Node { id, kids, .. } => x == id || exists|i: int|
            0 <= i < kids.len() && owns(#[trigger] kids[i], x),
        Tree::Bad { id } => x == id,
    }
}

/// Whether no page stands at two places of the tree.
pub open spec fn distinct(t: Tree) -> bool
    decreases t,
{
    match t {
        Tree::Node { id, kids, .. } => {
            &&& forall|i: int| 0 <= i < kids.len() ==> distinct(#[trigger] kids[i])
            &&& forall|i: int| 0 <= i < kids.len() ==> !owns(#[trigger] kids[i], id)
            &&& forall|i: int, j: int, x: u32|
                0 <= i < kids.len() && 0 <= j < kids.len() && i != j && #[trigger] owns(kids[i], x)
                    ==> !#[trigger] owns(kids[j], x)
        },
        _ => true,
    }
}

/// Whether `k` is at least `lo` and less than `hi`.
pub open spec fn in_bounds(k: Seq<u8>, lo: Option<Seq<u8>>, hi: Option<Seq<u8>>) -> bool {
    &&& lo matches Some(l) ==> key_le(l, k)
    &&& hi matches Some(u) ==> key_lt(k, u)
}

/// Whether `k` lies strictly between `lo` and `hi`.
pub open spec fn strictly_within(k: Seq<u8>, lo: Option<Seq<u8>>, hi: Option<Seq<u8>>) -> bool {
    &&& lo matches Some(l) ==> key_lt(l, k)
    &&& hi matches Some(u) ==> key_lt(k, u)
}

/// The lower bound of child `i`.
pub open spec fn kid_lo(keys: Seq<Seq<u8>>, lo: Option<Seq<u8>>, i: int) -> Option<Seq<u8>> {
    if i == 0 {
        lo
    } else {
        Some(keys[i - 1])
    }
}

/// The upper bound of child `i`.
pub open spec fn kid_hi(keys: Seq<Seq<u8>>, hi: Option<Seq<u8>>, i: int) -> Option<Seq<u8>> {
    if i == keys.len() {
        hi
    } else {
        Some(keys[i])
    }
}

/// Whether entries can stand in a leaf between two bounds, the page size aside.
pub open spec fn good_entries(
    es: Seq<(Seq<u8>, Seq<u8>)>,
    lo: Option<Seq<u8>>,
    hi: Option<Seq<u8>>,
) -> bool {
    &&& sorted_keys(keys_of(es))
    &&& forall|i: int|
        0 <= i < es.len() ==> (#[trigger] es[i]).0.len() <= MAX_KEY_SIZE && es[i].1.len()
            <= MAX_VALUE_SIZE && in_bounds(es[i].0, lo, hi)
}

/// Whether keys and children can stand in an internal node between two bounds,
/// the page size aside. `h` is the height of the children.
pub open spec fn good_kids(
    keys: Seq<Seq<u8>>,
    kids: Seq<Tree>,
    lo: Option<Seq<u8>>,
    hi: Option<Seq<u8>>,
    h: nat,
) -> bool
    decreases kids, 0nat,
{
    &&& keys.len() >= 1
    &&& kids.len() == keys.len() + 1
    &&& sorted_keys(keys)
    &&& forall|i: int|
        0 <= i < keys.len() ==> (#[trigger] keys[i]).len() <= MAX_KEY_SIZE && strictly_within(
            keys[i],
            lo,
            hi,
        )
    &&& forall|i: int|
        0 <= i < kids.len() ==> ok(
            #[trigger] kids[i],
            kid_lo(keys, lo, i),
            kid_hi(keys, hi, i),
            h,
        )
}

/// Whether a tree is a well-formed B+tree of height `h` whose keys lie between
/// the bounds: every node fits its page, keys are sorted, each child keeps to
/// its range, and all leaves are equally deep.
pub open spec fn ok(t: Tree, lo: Option<Seq<u8>>, hi: Option<Seq<u8>>, h: nat) -> bool
    decreases t, 1nat,
{
    match t {
        Tree::Leaf { entries, .. } => h == 0 && good_entries(entries, lo, hi) && leaf_fits(entries),
        Tree::Node { keys, kids, .. } => h > 0 && internal_fits(keys) && good_kids(
            keys,
            kids,
            lo,
            hi,
            (h - 1) as nat,
        ),
        Tree::Bad { .. } => false,
    }
}

/// The height of a tree along its first children.
pub open spec fn height(t: Tree) -> nat
    decreases t,
{
    match t {
        Tree::Node { kids, .. } => if kids.len() > 0 {
            1 + height(kids[0])
        } else {
            0
        },
        _ => 0,
    }
}

/// Whether the walk down from page `root` comes to an end on every path.
pub open spec fn walkable(pages: Seq<Seq<u8>>, root: u32) -> bool {
    exists|t: Tree| #[trigger] rep(pages, t) && root_id(t) == root
}

/// The tree that `pages` hold from page `root` on.
pub open spec fn tree_of(pages: Seq<Seq<u8>>, root: u32) -> Tree {
    choose|t: Tree| #[trigger] rep(pages, t) && root_id(t) == root
}

/// Whether `pages` hold a well-formed B+tree from page `root` on.
pub open spec fn is_tree(pages: Seq<Seq<u8>>, root: u32) -> bool {
    &&& walkable(pages, root)
    &&& ok(tree_of(pages, root), None, None, height(tree_of(pages, root)))
    &&& distinct(tree_of(pages, root))
}

/// Whether page `x` belongs to the tree from page `root` on.
pub open spec fn tree_owns(pages: Seq<Seq<u8>>, root: u32, x: u32) -> bool {
    owns(tree_of(pages, root), x)
}

/// The map that a tree stands for.
pub open spec fn map_of(t: Tree) -> Map<Seq<u8>, Seq<u8>> {
    Map::new(|k: Seq<u8>| lookup(t, k) is Some, |k: Seq<u8>| lookup(t, k)->0)
}

/// The map that the tree from page `root` on stands for.
pub open spec fn content(pages: Seq<Seq<u8>>, root: u32) -> Map<Seq<u8>, Seq<u8>> {
    map_of(tree_of(pages, root))
}

/// Whether `s` lists, in ascending key order, exactly the entries of `m` whose
/// key is at least `start` and at most `end`.
pub open spec fn is_range(
    s: Seq<(Seq<u8>, Seq<u8>)>,
    m: Map<Seq<u8>, Seq<u8>>,
    start: Seq<u8>,
    end: Seq<u8>,
) -> bool {
    &&& sorted_keys(keys_of(s))
    &&& forall|k: Seq<u8>, v: Seq<u8>| #[trigger]
        s.contains((k, v)) <==> m.contains_key(k) && m[k] == v && key_le(start, k) && key_le(k, end)
}

// ---------------------------------------------------------------------------
// One tree per root
// ---------------------------------------------------------------------------

pub proof fn lemma_rep_unique(pages: Seq<Seq<u8>>, a: Tree, b: Tree)
    requires
        rep(pages, a),
        rep(pages, b),
        root_id(a) == root_id(b),
    ensures
        a == b,
    decreases a,
{
    if let Tree::Node { id, keys, kids } = a {
        if let Tree::Node { id: id2, keys: keys2, kids: kids2 } = b {
            assert forall|i: int| 0 <= i < kids.len() implies kids[i] == kids2[i] by {
                assert(root_id(kids[i]) == internal_kids(pages[id as int])[i].0);
                assert(root_id(kids2[i]) == internal_kids(pages[id as int])[i].0);
                lemma_rep_unique(pages, kids[i], kids2[i]);
            }
            assert(kids =~= kids2);
        }
    }
}

/// The pages from `root` on hold exactly the tree `t`.
pub proof fn lemma_tree_of(pages: Seq<Seq<u8>>, t: Tree)
    requires
        rep(pages, t),
    ensures
        walkable(pages, root_id(t)),
        tree_of(pages, root_id(t)) == t,
{
    assert(rep(pages, t) && root_id(t) == root_id(t));
    lemma_rep_unique(pages, t, tree_of(pages, root_id(t)));
}

pub proof fn lemma_height(t: Tree, lo: Option<Seq<u8>>, hi: Option<Seq<u8>>, h: nat)
    requires
        ok(t, lo, hi, h),
    ensures
        height(t) == h,
    decreases t,
{
    if let Tree::Node { keys, kids, .. } = t {
        lemma_height(kids[0], kid_lo(keys, lo, 0), kid_hi(keys, hi, 0), (h - 1) as nat);
    }
}

pub proof fn lemma_is_tree(pages: Seq<Seq<u8>>, t: Tree, h: nat)
    requires
        rep(pages, t),
        ok(t, None, None, h),
        distinct(t),
    ensures
        is_tree(pages, root_id(t)),
        tree_of(pages, root_id(t)) == t,
{
    lemma_tree_of(pages, t);
    lemma_height(t, None, None, h);
}

/// A tree stays where it is when its own pages do not change.
pub proof fn lemma_rep_frame(
    a: Seq<Seq<u8>>,
    b: Seq<Seq<u8>>,
    t: Tree,
    lo: Option<Seq<u8>>,
    hi: Option<Seq<u8>>,
    h: nat,
)
    requires
        rep(a, t),
        ok(t, lo, hi, h),
        forall|x: u32| #[trigger] owns(t, x) ==> x < b.len() && a[x as int] == b[x as int],
    ensures
        rep(b, t),
    decreases t,
{
    assert(owns(t, root_id(t)));
    if let Tree::Node { id, keys, kids } = t {
        assert forall|i: int| 0 <= i < kids.len() implies rep(b, #[trigger] kids[i]) by {
            assert forall|x: u32| #[trigger] owns(kids[i], x) implies x < b.len() && a[x as int]
                == b[x as int] by {
                assert(owns(t, x));
            }
            lemma_rep_frame(
                a,
                b,
                kids[i],
                kid_lo(keys, lo, i),
                kid_hi(keys, hi, i),
                (h - 1) as nat,
            );
        }
    }
}

/// A well-formed tree is the same tree on pages that agree on its pages.
pub proof fn lemma_is_tree_frame(a: Seq<Seq<u8>>, b: Seq<Seq<u8>>, root: u32)
    requires
        is_tree(a, root),
        forall|x: u32| #[trigger]
            tree_owns(a, root, x) ==> x < b.len() && a[x as int] == b[x as int],
    ensures
        is_tree(b, root),
        tree_of(b, root) == tree_of(a, root),
        content(b, root) == content(a, root),
{
    let t = tree_of(a, root);
    assert forall|x: u32| #[trigger] owns(t, x) implies x < b.len() && a[x as int]
        == b[x as int] by {
        assert(tree_owns(a, root, x));
    }
    lemma_rep_frame(a, b, t, None, None, height(t));
    lemma_is_tree(b, t, height(t));
}

/// The pages of a well-formed tree lie in the file, past the meta pages.
pub proof fn lemma_owned_in_file(
    pages: Seq<Seq<u8>>,
    t: Tree,
    lo: Option<Seq<u8>>,
    hi: Option<Seq<u8>>,
    h: nat,
    x: u32,
)
    requires
        rep(pages, t),
        ok(t, lo, hi, h),
        owns(t, x),
    ensures
        2 <= x < pages.len(),
    decreases t,
{
    if let Tree::Node { id, keys, kids } = t {
        if x != id {
            let i = choose|i: int| 0 <= i < kids.len() && owns(#[trigger] kids[i], x);
            lemma_owned_in_file(
                pages,
                kids[i],
                kid_lo(keys, lo, i),
                kid_hi(keys, hi, i),
                (h - 1) as nat,
                x,
            );
        }
    }
}

// ---------------------------------------------------------------------------
// Entries of a leaf
// ---------------------------------------------------------------------------

/// A sorted sequence of entries answers with the value of the key it holds.
pub proof fn lemma_get_in(es: Seq<(Seq<u8>, Seq<u8>)>, key: Seq<u8>, i: int)
    requires
        sorted_keys(keys_of(es)),
        0 <= i < es.len(),
        es[i].0 == key,
    ensures
        get_in(es, key) == Some(es[i].1),
{
    let keys = keys_of(es);
    lemma_key_irreflexive(key);
    assert forall|j: int| 0 <= j < i implies #[trigger] key_lt(keys[j], key) by {
        assert(key_lt(keys[j], keys[i]));
    }
    lemma_lower_bound_unique(keys, key, i);
}

pub proof fn lemma_get_in_none(es: Seq<(Seq<u8>, Seq<u8>)>, key: Seq<u8>)
    requires
        sorted_keys(keys_of(es)),
        forall|i: int| 0 <= i < es.len() ==> (#[trigger] es[i]).0 != key,
    ensures
        get_in(es, key) is None,
{
    lemma_lower_bound(keys_of(es), key);
}

pub proof fn lemma_get_in_some(es: Seq<(Seq<u8>, Seq<u8>)>, key: Seq<u8>)
    requires
        get_in(es, key) is Some,
    ensures
        exists|i: int| 0 <= i < es.len() && #[trigger] es[i] == (key, get_in(es, key)->0),
{
    let i = lower_bound(keys_of(es), key);
    lemma_lower_bound(keys_of(es), key);
    assert(es[i] == (key, get_in(es, key)->0));
}

/// What an upsert does to the answers, and that it keeps the entries good.
pub proof fn lemma_upserted(
    es: Seq<(Seq<u8>, Seq<u8>)>,
    key: Seq<u8>,
    value: Seq<u8>,
    lo: Option<Seq<u8>>,
    hi: Option<Seq<u8>>,
)
    requires
        good_entries(es, lo, hi),
        key.len() <= MAX_KEY_SIZE,
        value.len() <= MAX_VALUE_SIZE,
        in_bounds(key, lo, hi),
    ensures
        good_entries(upserted(es, key, value), lo, hi),
        forall|k: Seq<u8>| #[trigger]
            get_in(upserted(es, key, value), k) == (if k == key {
                Some(value)
            } else {
                get_in(es, k)
            }),
        0 <= lower_bound(keys_of(es), key) <= es.len(),
{
    let b = lower_bound(keys_of(es), key);
    let keys = keys_of(es);
    let r = upserted(es, key, value);
    let rk = keys_of(r);
    lemma_lower_bound(keys, key);
    let found = b < es.len() && es[b].0 == key;
    if b < es.len() && !found {
        lemma_key_total(key, keys[b]);
    }
    assert(sorted_keys(rk)) by {
        assert forall|i: int, j: int| 0 <= i < j < rk.len() implies #[trigger] key_lt(
            rk[i],
            rk[j],
        ) by {
            if found {
                assert(rk =~= keys);
            } else {
                assert(rk =~= keys.insert(b, key));
                if j < b {
                    assert(key_lt(keys[i], keys[j]));
                } else if j == b {
                    assert(key_lt(keys[i], key));
                } else if i < b {
                    assert(key_lt(keys[i], keys[j - 1]));
                } else if i == b {
                    if j - 1 > b {
                        assert(key_lt(key, keys[j - 1]));
                    }
                } else {
                    assert(key_lt(keys[i - 1], keys[j - 1]));
                }
            }
        }
    }
    assert forall|i: int| 0 <= i < r.len() implies (#[trigger] r[i]).0.len() <= MAX_KEY_SIZE
        && r[i].1.len() <= MAX_VALUE_SIZE && in_bounds(r[i].0, lo, hi) by {
        if found {
            if i != b {
                assert(r[i] == es[i]);
            }
        } else if i < b {
            assert(r[i] == es[i]);
        } else if i > b {
            assert(r[i] == es[i - 1]);
        }
    }
    assert forall|k: Seq<u8>| #[trigger] get_in(r, k) == (if k == key {
        Some(value)
    } else {
        get_in(es, k)
    }) by {
        if k == key {
            assert(r[b] == (key, value));
            lemma_get_in(r, key, b);
        } else if get_in(es, k) is Some {
            lemma_get_in_some(es, k);
            let i = choose|i: int| 0 <= i < es.len() && #[trigger] es[i] == (k, get_in(es, k)->0);
            let j = if found || i < b {
                i
            } else {
                i + 1
            };
            assert(r[j] == es[i]);
            lemma_get_in(r, k, j);
        } else {
            assert forall|j: int| 0 <= j < r.len() implies (#[trigger] r[j]).0 != k by {
                if r[j].0 == k {
                    let i = if found || j < b {
                        j
                    } else {
                        j - 1
                    };
                    assert(r[j] == es[i]);
                    lemma_get_in(es, k, i);
                }
            }
            lemma_get_in_none(r, k);
        }
    }
}

/// What a removal does to the answers, and that it keeps the entries good.
pub proof fn lemma_removed(
    es: Seq<(Seq<u8>, Seq<u8>)>,
    key: Seq<u8>,
    lo: Option<Seq<u8>>,
    hi: Option<Seq<u8>>,
)
    requires
        good_entries(es, lo, hi),
    ensures
        good_entries(removed(es, key), lo, hi),
        forall|k: Seq<u8>| #[trigger]
            get_in(removed(es, key), k) == (if k == key {
                None
            } else {
                get_in(es, k)
            }),
        keys_of(es).contains(key) <==> get_in(es, key) is Some,
{
    let b = lower_bound(keys_of(es), key);
    let keys = keys_of(es);
    let r = removed(es, key);
    let rk = keys_of(r);
    lemma_lower_bound(keys, key);
    let found = b < es.len() && es[b].0 == key;
    if keys.contains(key) {
        lemma_get_in(es, key, keys.index_of(key));
    }
    if get_in(es, key) is Some {
        assert(keys[b] == key);
    }
    if found {
        assert(rk =~= keys.remove(b));
        assert(sorted_keys(rk)) by {
            assert forall|i: int, j: int| 0 <= i < j < rk.len() implies #[trigger] key_lt(
                rk[i],
                rk[j],
            ) by {
                let i2 = if i < b {
                    i
                } else {
                    i + 1
                };
                let j2 = if j < b {
                    j
                } else {
                    j + 1
                };
                assert(key_lt(keys[i2], keys[j2]));
            }
        }
        assert forall|i: int| 0 <= i < r.len() implies (#[trigger] r[i]).0.len() <= MAX_KEY_SIZE
            && r[i].1.len() <= MAX_VALUE_SIZE && in_bounds(r[i].0, lo, hi) by {
            if i < b {
                assert(r[i] == es[i]);
            } else {
                assert(r[i] == es[i + 1]);
            }
        }
        assert forall|k: Seq<u8>| #[trigger] get_in(r, k) == (if k == key {
            None
        } else {
            get_in(es, k)
        }) by {
            if k == key {
                assert forall|j: int| 0 <= j < r.len() implies (#[trigger] r[j]).0 != k by {
                    lemma_key_irreflexive(key);
                    if j < b {
                        assert(r[j] == es[j] && key_lt(keys[j], key));
                    } else {
                        assert(r[j] == es[j + 1] && key_lt(key, keys[j + 1]));
                    }
                }
                lemma_get_in_none(r, k);
            } else if get_in(es, k) is Some {
                lemma_get_in_some(es, k);
                let i = choose|i: int|
                    0 <= i < es.len() && #[trigger] es[i] == (k, get_in(es, k)->0);
                let j = if i < b {
                    i
                } else {
                    i - 1
                };
                assert(r[j] == es[i]);
                lemma_get_in(r, k, j);
            } else {
                assert forall|j: int| 0 <= j < r.len() implies (#[trigger] r[j]).0 != k by {
                    if r[j].0 == k {
                        let i = if j < b {
                            j
                        } else {
                            j + 1
                        };
                        assert(r[j] == es[i]);
                        lemma_get_in(es, k, i);
                    }
                }
                lemma_get_in_none(r, k);
            }
        }
    }
}

/// What a split of entries at `p` does to the answers and bounds.
pub proof fn lemma_split_entries(
    es: Seq<(Seq<u8>, Seq<u8>)>,
    p: int,
    lo: Option<Seq<u8>>,
    hi: Option<Seq<u8>>,
)
    requires
        good_entries(es, lo, hi),
        0 < p < es.len(),
    ensures
        good_entries(es.take(p), lo, Some(es[p].0)),
        good_entries(es.skip(p), Some(es[p].0), hi),
        strictly_within(es[p].0, lo, hi),
        forall|k: Seq<u8>| key_lt(k, es[p].0) ==> #[trigger] get_in(es.take(p), k) == get_in(es, k),
        forall|k: Seq<u8>|
            !key_lt(k, es[p].0) ==> #[trigger] get_in(es.skip(p), k) == get_in(es, k),
{
    let keys = keys_of(es);
    let l = es.take(p);
    let r = es.skip(p);
    let sep = es[p].0;
    assert(keys_of(l) =~= keys.take(p));
    assert(keys_of(r) =~= keys.skip(p));
    assert forall|i: int, j: int| 0 <= i < j < l.len() implies #[trigger] key_lt(
        keys_of(l)[i],
        keys_of(l)[j],
    ) by {
        assert(key_lt(keys[i], keys[j]));
    }
    assert forall|i: int, j: int| 0 <= i < j < r.len() implies #[trigger] key_lt(
        keys_of(r)[i],
        keys_of(r)[j],
    ) by {
        assert(key_lt(keys[i + p], keys[j + p]));
    }
    assert forall|i: int| 0 <= i < l.len() implies (#[trigger] l[i]).0.len() <= MAX_KEY_SIZE
        && l[i].1.len() <= MAX_VALUE_SIZE && in_bounds(l[i].0, lo, Some(sep)) by {
        assert(l[i] == es[i]);
        assert(key_lt(keys[i], keys[p]));
    }
    assert forall|i: int| 0 <= i < r.len() implies (#[trigger] r[i]).0.len() <= MAX_KEY_SIZE
        && r[i].1.len() <= MAX_VALUE_SIZE && in_bounds(r[i].0, Some(sep), hi) by {
        assert(r[i] == es[i + p]);
        if i > 0 {
            assert(key_lt(keys[p], keys[i + p]));
        }
    }
    assert(es[p].0.len() <= MAX_KEY_SIZE);
    assert(es[p - 1].0.len() <= MAX_KEY_SIZE);
    assert(key_lt(keys[p - 1], keys[p]));
    if let Some(low) = lo {
        if low != keys[p - 1] {
            lemma_key_transitive(low, keys[p - 1], keys[p]);
        }
    }
    assert forall|k: Seq<u8>| key_lt(k, sep) implies #[trigger] get_in(l, k) == get_in(es, k) by {
        if get_in(es, k) is Some {
            lemma_get_in_some(es, k);
            let i = choose|i: int| 0 <= i < es.len() && #[trigger] es[i] == (k, get_in(es, k)->0);
            if i >= p {
                if i > p {
                    assert(key_lt(keys[p], keys[i]));
                }
                lemma_key_asymmetric(k, sep);
                assert(false);
            }
            assert(l[i] == es[i]);
            lemma_get_in(l, k, i);
        } else {
            assert forall|j: int| 0 <= j < l.len() implies (#[trigger] l[j]).0 != k by {
                if l[j].0 == k {
                    lemma_get_in(es, k, j);
                }
            }
            lemma_get_in_none(l, k);
        }
    }
    assert forall|k: Seq<u8>| !key_lt(k, sep) implies #[trigger] get_in(r, k) == get_in(es, k) by {
        if get_in(es, k) is Some {
            lemma_get_in_some(es, k);
            let i = choose|i: int| 0 <= i < es.len() && #[trigger] es[i] == (k, get_in(es, k)->0);
            if i < p {
                assert(key_lt(keys[i], keys[p]));
                assert(false);
            }
            assert(r[i - p] == es[i]);
            lemma_get_in(r, k, i - p);
        } else {
            assert forall|j: int| 0 <= j < r.len() implies (#[trigger] r[j]).0 != k by {
                if r[j].0 == k {
                    lemma_get_in(es, k, j + p);
                }
            }
            lemma_get_in_none(r, k);
        }
    }
}

// ---------------------------------------------------------------------------
// Children of an internal node
// ---------------------------------------------------------------------------

/// A child takes the keys from its lower bound up to its upper bound.
pub proof fn lemma_child_bounds(
    keys: Seq<Seq<u8>>,
    key: Seq<u8>,
    lo: Option<Seq<u8>>,
    hi: Option<Seq<u8>>,
)
    requires
        in_bounds(key, lo, hi),
    ensures
        0 <= child_index(keys, key) <= keys.len(),
        in_bounds(
            key,
            kid_lo(keys, lo, child_index(keys, key)),
            kid_hi(keys, hi, child_index(keys, key)),
        ),
{
    let i = child_index(keys, key);
    lemma_child_index(keys, key);
    if i > 0 {
        assert(!key_lt(key, keys[i - 1]));
        lemma_key_total(key, keys[i - 1]);
    }
}

/// A key that a tree answers is no longer than keys can be.
pub proof fn lemma_key_length(
    t: Tree,
    lo: Option<Seq<u8>>,
    hi: Option<Seq<u8>>,
    h: nat,
    k: Seq<u8>,
)
    requires
        ok(t, lo, hi, h),
        lookup(t, k) is Some,
    ensures
        k.len() <= MAX_KEY_SIZE,
    decreases t,
{
    match t {
        Tree::Leaf { entries, .. } => {
            lemma_get_in_some(entries, k);
        },
        Tree::Node { keys, kids, .. } => {
            let i = child_index(keys, k);
            lemma_key_length(
                kids[i],
                kid_lo(keys, lo, i),
                kid_hi(keys, hi, i),
                (h - 1) as nat,
                k,
            );
        },
        Tree::Bad { .. } => {},
    }
}

/// A key that a tree answers lies between its bounds.
pub proof fn lemma_lookup_bounds(
    t: Tree,
    lo: Option<Seq<u8>>,
    hi: Option<Seq<u8>>,
    h: nat,
    k: Seq<u8>,
)
    requires
        ok(t, lo, hi, h),
        lookup(t, k) is Some,
    ensures
        in_bounds(k, lo, hi),
    decreases t,
{
    match t {
        Tree::Leaf { entries, .. } => {
            lemma_get_in_some(entries, k);
        },
        Tree::Node { keys, kids, .. } => {
            let i = child_index(keys, k);
            lemma_child_index(keys, k);
            lemma_lookup_bounds(
                kids[i],
                kid_lo(keys, lo, i),
                kid_hi(keys, hi, i),
                (h - 1) as nat,
                k,
            );
            if i > 0 {
                assert(keys[i - 1].len() <= MAX_KEY_SIZE);
                if let Some(l) = lo {
                    if keys[i - 1] != k {
                        lemma_key_transitive(l, keys[i - 1], k);
                    }
                }
            }
            if i < keys.len() {
                assert(keys[i].len() <= MAX_KEY_SIZE);
                if let Some(u) = hi {
                    lemma_key_transitive(k, keys[i], u);
                }
            }
        },
        Tree::Bad { .. } => {},
    }
}

/// A change of `key` to `v` in the answers.
pub open spec fn changed(
    before: Tree,
    after: Tree,
    key: Seq<u8>,
    v: Option<Seq<u8>>,
    k: Seq<u8>,
) -> bool {
    lookup(after, k) == (if k == key {
        v
    } else {
        lookup(before, k)
    })
}

/// Putting a changed child in the place of the one that `key` belongs to.
pub proof fn lemma_replace_kid(
    t: Tree,
    c: Tree,
    lo: Option<Seq<u8>>,
    hi: Option<Seq<u8>>,
    h: nat,
    key: Seq<u8>,
    v: Option<Seq<u8>>,
    fresh: spec_fn(u32) -> bool,
)
    requires
        t is Node,
        ok(t, lo, hi, h),
        distinct(t),
        ok(
            c,
            kid_lo(t->keys, lo, child_index(t->keys, key)),
            kid_hi(t->keys, hi, child_index(t->keys, key)),
            (h - 1) as nat,
        ),
        distinct(c),
        forall|x: u32| #[trigger]
            owns(c, x) ==> owns(t->kids[child_index(t->keys, key)], x) || fresh(x),
        forall|x: u32| #[trigger] fresh(x) ==> !owns(t, x),
        forall|k: Seq<u8>| #[trigger]
            changed(t->kids[child_index(t->keys, key)], c, key, v, k),
    ensures
        ({
            let t2 = Tree::Node {
                id: root_id(t),
                keys: t->keys,
                kids: t->kids.update(child_index(t->keys, key), c),
            };
            &&& ok(t2, lo, hi, h)
            &&& distinct(t2)
            &&& forall|x: u32| #[trigger] owns(t2, x) ==> owns(t, x) || fresh(x)
            &&& forall|k: Seq<u8>| #[trigger] changed(t, t2, key, v, k)
        }),
{
    let keys = t->keys;
    let kids = t->kids;
    let id = root_id(t);
    let n = child_index(keys, key);
    lemma_child_index(keys, key);
    let kids2 = kids.update(n, c);
    let t2 = Tree::Node { id, keys, kids: kids2 };
    assert forall|i: int| 0 <= i < kids2.len() implies ok(
        #[trigger] kids2[i],
        kid_lo(keys, lo, i),
        kid_hi(keys, hi, i),
        (h - 1) as nat,
    ) by {
        if i != n {
            assert(kids2[i] == kids[i]);
        }
    }
    assert forall|i: int, x: u32| 0 <= i < kids.len() && owns(kids[i], x) implies #[trigger] owns(
        t,
        x,
    ) && #[trigger] owns(kids[i], x) by {}
    assert forall|i: int| 0 <= i < kids2.len() implies distinct(#[trigger] kids2[i]) && !owns(
        kids2[i],
        id,
    ) by {
        if i != n {
            assert(kids2[i] == kids[i]);
        } else if owns(c, id) {
            assert(owns(t, id));
        }
    }
    assert forall|i: int, j: int, x: u32|
        0 <= i < kids2.len() && 0 <= j < kids2.len() && i != j && #[trigger] owns(
            kids2[i],
            x,
        ) implies !#[trigger] owns(kids2[j], x) by {
        if owns(kids2[j], x) {
            if i == n {
                assert(owns(kids[j], x));
                assert(owns(t, x));
                assert(owns(kids[n], x));
            } else if j == n {
                assert(owns(kids[i], x));
                assert(owns(t, x));
                assert(owns(kids[n], x));
            } else {
                assert(owns(kids[i], x) && owns(kids[j], x));
            }
        }
    }
    assert forall|x: u32| #[trigger] owns(t2, x) implies owns(t, x) || fresh(x) by {
        if x != id {
            let i = choose|i: int| 0 <= i < kids2.len() && owns(#[trigger] kids2[i], x);
            if i != n {
                assert(owns(kids[i], x));
            }
        }
    }
    assert forall|k: Seq<u8>| #[trigger] changed(t, t2, key, v, k) by {
        lemma_child_index(keys, k);
        assert(changed(kids[n], c, key, v, k));
    }
}

/// The tree with the entries of the leaf that `key` belongs to replaced.
pub open spec fn with_leaf(t: Tree, key: Seq<u8>, es: Seq<(Seq<u8>, Seq<u8>)>) -> Tree
    decreases t,
{
    match t {
        Tree::Leaf { id, .. } => Tree::Leaf { id, entries: es },
        Tree::Node { id, keys, kids } => {
            let i = child_index(keys, key);
            if 0 <= i < kids.len() {
                Tree::Node { id, keys, kids: kids.update(i, with_leaf(kids[i], key, es)) }
            } else {
                t
            }
        },
        Tree::Bad { .. } => t,
    }
}

/// Rewriting the leaf that `key` belongs to, so that only the answer for `key`
/// changes, changes only that answer in the tree.
pub proof fn lemma_with_leaf(
    a: Seq<Seq<u8>>,
    b: Seq<Seq<u8>>,
    t: Tree,
    lo: Option<Seq<u8>>,
    hi: Option<Seq<u8>>,
    h: nat,
    key: Seq<u8>,
    es: Seq<(Seq<u8>, Seq<u8>)>,
    v: Option<Seq<u8>>,
)
    requires
        rep(a, t),
        ok(t, lo, hi, h),
        distinct(t),
        in_bounds(key, lo, hi),
        a.len() == b.len(),
        forall|x: int|
            0 <= x < a.len() && x != root_id(walk(t, key)) ==> #[trigger] a[x] == b[x],
        leaf_readable(b[root_id(walk(t, key)) as int]),
        header_id(b[root_id(walk(t, key)) as int]) == PageId(root_id(walk(t, key))),
        leaf_entries(b[root_id(walk(t, key)) as int]) == es,
        leaf_fits(es),
        walk(t, key) matches Tree::Leaf { entries, .. } ==> {
            &&& forall|l: Option<Seq<u8>>, u: Option<Seq<u8>>|
                good_entries(entries, l, u) && in_bounds(key, l, u) ==> good_entries(es, l, u)
            &&& forall|k: Seq<u8>| #[trigger]
                get_in(es, k) == (if k == key {
                    v
                } else {
                    get_in(entries, k)
                })
        },
    ensures
        walk(t, key) is Leaf,
        owns(t, root_id(walk(t, key))),
        rep(b, with_leaf(t, key, es)),
        root_id(with_leaf(t, key, es)) == root_id(t),
        ok(with_leaf(t, key, es), lo, hi, h),
        distinct(with_leaf(t, key, es)),
        forall|x: u32| #[trigger] owns(with_leaf(t, key, es), x) ==> owns(t, x),
        forall|k: Seq<u8>| #[trigger] changed(t, with_leaf(t, key, es), key, v, k),
    decreases t,
{
    let t2 = with_leaf(t, key, es);
    match t {
        Tree::Leaf { id, entries } => {
            assert forall|k: Seq<u8>| #[trigger] changed(t, t2, key, v, k) by {
                assert(get_in(es, k) == (if k == key {
                    v
                } else {
                    get_in(entries, k)
                }));
            }
        },
        Tree::Node { id, keys, kids } => {
            let i = child_index(keys, key);
            lemma_child_bounds(keys, key, lo, hi);
            let kid = kids[i];
            let l = kid_lo(keys, lo, i);
            let u = kid_hi(keys, hi, i);
            lemma_with_leaf(a, b, kid, l, u, (h - 1) as nat, key, es, v);
            let leaf = root_id(walk(kid, key));
            assert(owns(kid, leaf));
            assert(owns(t, leaf));
            let c = with_leaf(kid, key, es);
            lemma_replace_kid(t, c, lo, hi, h, key, v, |x: u32| false);
            assert forall|j: int| 0 <= j < kids.len() implies rep(b, #[trigger] t2->kids[j]) by {
                if j != i {
                    assert forall|x: u32| #[trigger] owns(kids[j], x) implies x < b.len() && a[
                        x as int] == b[x as int] by {
                        assert(!owns(kids[j], leaf));
                        lemma_owned_in_file(
                            a,
                            kids[j],
                            kid_lo(keys, lo, j),
                            kid_hi(keys, hi, j),
                            (h - 1) as nat,
                            x,
                        );
                    }
                    lemma_rep_frame(
                        a,
                        b,
                        kids[j],
                        kid_lo(keys, lo, j),
                        kid_hi(keys, hi, j),
                        (h - 1) as nat,
                    );
                }
            }
            assert(leaf != id);
            assert(a[id as int] == b[id as int]);
            assert forall|j: int| 0 <= j < kids.len() implies root_id(#[trigger] t2->kids[j])
                == internal_kids(b[id as int])[j].0 by {
                assert(root_id(kids[j]) == internal_kids(a[id as int])[j].0);
            }
        },
        Tree::Bad { .. } => {},
    }
}

/// Putting two trees and the key between them in the place of the child that
/// `key` belongs to.
pub proof fn lemma_insert_kid(
    t: Tree,
    c1: Tree,
    c2: Tree,
    sep: Seq<u8>,
    lo: Option<Seq<u8>>,
    hi: Option<Seq<u8>>,
    h: nat,
    key: Seq<u8>,
    v: Option<Seq<u8>>,
    fresh: spec_fn(u32) -> bool,
)
    requires
        t is Node,
        ok(t, lo, hi, h),
        distinct(t),
        sep.len() <= MAX_KEY_SIZE,
        ok(c1, kid_lo(t->keys, lo, child_index(t->keys, key)), Some(sep), (h - 1) as nat),
        ok(c2, Some(sep), kid_hi(t->keys, hi, child_index(t->keys, key)), (h - 1) as nat),
        strictly_within(
            sep,
            kid_lo(t->keys, lo, child_index(t->keys, key)),
            kid_hi(t->keys, hi, child_index(t->keys, key)),
        ),
        distinct(c1),
        distinct(c2),
        forall|x: u32| #[trigger] owns(c1, x) ==> !owns(c2, x),
        forall|x: u32| #[trigger]
            owns(c1, x) ==> owns(t->kids[child_index(t->keys, key)], x) || fresh(x),
        forall|x: u32| #[trigger]
            owns(c2, x) ==> owns(t->kids[child_index(t->keys, key)], x) || fresh(x),
        forall|x: u32| #[trigger] fresh(x) ==> !owns(t, x),
        forall|k: Seq<u8>|
            key_lt(k, sep) ==> #[trigger] changed(
                t->kids[child_index(t->keys, key)],
                c1,
                key,
                v,
                k,
            ),
        forall|k: Seq<u8>|
            !key_lt(k, sep) ==> #[trigger] changed(
                t->kids[child_index(t->keys, key)],
                c2,
                key,
                v,
                k,
            ),
    ensures
        lower_bound(t->keys, sep) == child_index(t->keys, key),
        ({
            let n = child_index(t->keys, key);
            let keys2 = t->keys.insert(n, sep);
            let kids2 = t->kids.update(n, c2).insert(n, c1);
            let t2 = Tree::Node { id: root_id(t), keys: keys2, kids: kids2 };
            &&& good_kids(keys2, kids2, lo, hi, (h - 1) as nat)
            &&& distinct(t2)
            &&& forall|x: u32| #[trigger] owns(t2, x) ==> owns(t, x) || fresh(x)
            &&& forall|k: Seq<u8>| #[trigger] changed(t, t2, key, v, k)
        }),
{
    let keys = t->keys;
    let kids = t->kids;
    let id = root_id(t);
    let n = child_index(keys, key);
    lemma_child_index(keys, key);
    let keys2 = keys.insert(n, sep);
    let kids2 = kids.update(n, c2).insert(n, c1);
    let t2 = Tree::Node { id, keys: keys2, kids: kids2 };
    assert forall|j: int| 0 <= j < n implies #[trigger] key_lt(keys[j], sep) by {
        if j < n - 1 {
            assert(key_lt(keys[j], keys[n - 1]));
            lemma_key_transitive(keys[j], keys[n - 1], sep);
        }
    }
    assert forall|j: int| n <= j < keys.len() implies #[trigger] key_lt(sep, keys[j]) by {
        if j > n {
            assert(key_lt(keys[n], keys[j]));
            lemma_key_transitive(sep, keys[n], keys[j]);
        }
    }
    if n < keys.len() {
        lemma_key_asymmetric(sep, keys[n]);
    }
    lemma_lower_bound_unique(keys, sep, n);
    assert forall|i: int, j: int| 0 <= i < j < keys2.len() implies #[trigger] key_lt(
        keys2[i],
        keys2[j],
    ) by {
        if j < n {
            assert(key_lt(keys[i], keys[j]));
        } else if j == n {
            assert(key_lt(keys[i], sep));
        } else if i < n {
            assert(key_lt(keys[i], keys[j - 1]));
        } else if i == n {
            assert(key_lt(sep, keys[j - 1]));
        } else {
            assert(key_lt(keys[i - 1], keys[j - 1]));
        }
    }
    assert(strictly_within(sep, lo, hi)) by {
        if n > 0 {
            assert(keys[n - 1].len() <= MAX_KEY_SIZE);
            if let Some(l) = lo {
                lemma_key_transitive(l, keys[n - 1], sep);
            }
        }
        if n < keys.len() {
            assert(keys[n].len() <= MAX_KEY_SIZE);
            if let Some(u) = hi {
                lemma_key_transitive(sep, keys[n], u);
            }
        }
    }
    assert forall|i: int| 0 <= i < keys2.len() implies (#[trigger] keys2[i]).len()
        <= MAX_KEY_SIZE && strictly_within(keys2[i], lo, hi) by {
        if i < n {
            assert(keys2[i] == keys[i]);
        } else if i > n {
            assert(keys2[i] == keys[i - 1]);
        }
    }
    assert forall|i: int| 0 <= i < kids2.len() implies ok(
        #[trigger] kids2[i],
        kid_lo(keys2, lo, i),
        kid_hi(keys2, hi, i),
        (h - 1) as nat,
    ) by {
        if i < n {
            assert(kids2[i] == kids[i]);
            assert(kid_lo(keys2, lo, i) == kid_lo(keys, lo, i));
            assert(kid_hi(keys2, hi, i) == kid_hi(keys, hi, i));
        } else if i == n {
            assert(kid_lo(keys2, lo, i) == kid_lo(keys, lo, n));
            assert(kid_hi(keys2, hi, i) == Some(sep));
        } else if i == n + 1 {
            assert(kid_lo(keys2, lo, i) == Some(sep));
            assert(kid_hi(keys2, hi, i) == kid_hi(keys, hi, n));
        } else {
            assert(kids2[i] == kids[i - 1]);
            assert(kid_lo(keys2, lo, i) == kid_lo(keys, lo, i - 1));
            assert(kid_hi(keys2, hi, i) == kid_hi(keys, hi, i - 1));
        }
    }
    assert(good_kids(keys2, kids2, lo, hi, (h - 1) as nat));
    assert forall|i: int, x: u32| 0 <= i < kids.len() && #[trigger] owns(
        kids[i],
        x,
    ) implies owns(t, x) by {}
    assert forall|i: int| 0 <= i < kids2.len() implies distinct(#[trigger] kids2[i]) && !owns(
        kids2[i],
        id,
    ) by {
        if i < n {
            assert(kids2[i] == kids[i]);
        } else if i > n + 1 {
            assert(kids2[i] == kids[i - 1]);
        } else if owns(kids2[i], id) {
            assert(owns(t, id));
            assert(!owns(kids[n], id));
        }
    }
    assert forall|i: int, j: int, x: u32|
        0 <= i < kids2.len() && 0 <= j < kids2.len() && i != j && #[trigger] owns(
            kids2[i],
            x,
        ) implies !#[trigger] owns(kids2[j], x) by {
        if owns(kids2[j], x) {
            let i0 = if i <= n {
                i
            } else {
                i - 1
            };
            let j0 = if j <= n {
                j
            } else {
                j - 1
            };
            if i0 == n && j0 == n {
                assert(owns(c1, x) && owns(c2, x));
            } else if i0 == n {
                assert(owns(kids[j0], x));
                assert(owns(t, x));
                assert(owns(kids[n], x));
            } else if j0 == n {
                assert(owns(kids[i0], x));
                assert(owns(t, x));
                assert(owns(kids[n], x));
            } else {
                assert(owns(kids[i0], x) && owns(kids[j0], x));
            }
        }
    }
    assert forall|x: u32| #[trigger] owns(t2, x) implies owns(t, x) || fresh(x) by {
        if x != id {
            let i = choose|i: int| 0 <= i < kids2.len() && owns(#[trigger] kids2[i], x);
            if i < n {
                assert(owns(kids[i], x));
            } else if i > n + 1 {
                assert(owns(kids[i - 1], x));
            } else if !fresh(x) {
                assert(owns(kids[n], x));
            }
        }
    }
    assert forall|k: Seq<u8>| #[trigger] changed(t, t2, key, v, k) by {
        let i = child_index(keys, k);
        lemma_child_index(keys, k);
        if i < n || (i == n && key_lt(k, sep)) {
            assert forall|j: int| 0 <= j < i implies !#[trigger] key_lt(k, keys2[j]) by {
                assert(!key_lt(k, keys[j]));
            }
            if i < n {
                assert(keys2[i] == keys[i]);
            }
            lemma_child_index_unique(keys2, k, i);
            if i == n {
                assert(changed(kids[n], c1, key, v, k));
            }
        } else {
            assert forall|j: int| 0 <= j < i + 1 implies !#[trigger] key_lt(k, keys2[j]) by {
                if j < n {
                    assert(!key_lt(k, keys[j]));
                } else if j == n {
                    if i > n && key_lt(k, sep) {
                        assert(!key_lt(k, keys[n]));
                        assert(key_lt(sep, keys[n]));
                        lemma_key_transitive(k, sep, keys[n]);
                    }
                } else {
                    assert(!key_lt(k, keys[j - 1]));
                }
            }
            if i < keys.len() {
                assert(keys2[i + 1] == keys[i]);
            }
            lemma_child_index_unique(keys2, k, i + 1);
            if i == n {
                assert(changed(kids[n], c2, key, v, k));
            }
        }
    }
}

/// What a split of an internal node at key `p` does.
pub proof fn lemma_split_kids(
    t: Tree,
    rid: u32,
    p: int,
    lo: Option<Seq<u8>>,
    hi: Option<Seq<u8>>,
    h: nat,
)
    requires
        t is Node,
        good_kids(t->keys, t->kids, lo, hi, h),
        distinct(t),
        !owns(t, rid),
        0 < p,
        p + 1 < t->keys.len(),
    ensures
        strictly_within(t->keys[p], lo, hi),
        t->keys[p].len() <= MAX_KEY_SIZE,
        good_kids(t->keys.take(p), t->kids.take(p + 1), lo, Some(t->keys[p]), h),
        good_kids(t->keys.skip(p + 1), t->kids.skip(p + 1), Some(t->keys[p]), hi, h),
        ({
            let keys = t->keys;
            let kids = t->kids;
            let id = root_id(t);
            let t1 = Tree::Node { id, keys: keys.take(p), kids: kids.take(p + 1) };
            let t2 = Tree::Node { id: rid, keys: keys.skip(p + 1), kids: kids.skip(p + 1) };
            &&& distinct(t1)
            &&& distinct(t2)
            &&& forall|x: u32| #[trigger] owns(t1, x) ==> !owns(t2, x)
            &&& forall|x: u32| #[trigger] owns(t1, x) ==> owns(t, x)
            &&& forall|x: u32| #[trigger] owns(t2, x) ==> owns(t, x) || x == rid
            &&& forall|k: Seq<u8>|
                key_lt(k, keys[p]) ==> #[trigger] lookup(t1, k) == lookup(t, k)
            &&& forall|k: Seq<u8>|
                !key_lt(k, keys[p]) ==> #[trigger] lookup(t2, k) == lookup(t, k)
        }),
{
    let keys = t->keys;
    let kids = t->kids;
    let id = root_id(t);
    let k1 = keys.take(p);
    let c1 = kids.take(p + 1);
    let k2 = keys.skip(p + 1);
    let c2 = kids.skip(p + 1);
    let t1 = Tree::Node { id, keys: k1, kids: c1 };
    let t2 = Tree::Node { id: rid, keys: k2, kids: c2 };
    let sep = keys[p];
    assert(keys[p].len() <= MAX_KEY_SIZE);
    assert forall|i: int, j: int| 0 <= i < j < k1.len() implies #[trigger] key_lt(k1[i], k1[j]) by {
        assert(key_lt(keys[i], keys[j]));
    }
    assert forall|i: int, j: int| 0 <= i < j < k2.len() implies #[trigger] key_lt(k2[i], k2[j]) by {
        assert(key_lt(keys[i + p + 1], keys[j + p + 1]));
    }
    assert forall|i: int| 0 <= i < k1.len() implies (#[trigger] k1[i]).len() <= MAX_KEY_SIZE
        && strictly_within(k1[i], lo, Some(sep)) by {
        assert(k1[i] == keys[i]);
        assert(key_lt(keys[i], keys[p]));
    }
    assert forall|i: int| 0 <= i < k2.len() implies (#[trigger] k2[i]).len() <= MAX_KEY_SIZE
        && strictly_within(k2[i], Some(sep), hi) by {
        assert(k2[i] == keys[i + p + 1]);
        assert(key_lt(keys[p], keys[i + p + 1]));
    }
    assert forall|i: int| 0 <= i < c1.len() implies ok(
        #[trigger] c1[i],
        kid_lo(k1, lo, i),
        kid_hi(k1, Some(sep), i),
        h,
    ) by {
        assert(c1[i] == kids[i]);
        assert(kid_lo(k1, lo, i) == kid_lo(keys, lo, i));
        assert(kid_hi(k1, Some(sep), i) == kid_hi(keys, hi, i));
    }
    assert forall|i: int| 0 <= i < c2.len() implies ok(
        #[trigger] c2[i],
        kid_lo(k2, Some(sep), i),
        kid_hi(k2, hi, i),
        h,
    ) by {
        assert(c2[i] == kids[i + p + 1]);
        assert(kid_lo(k2, Some(sep), i) == kid_lo(keys, lo, i + p + 1));
        assert(kid_hi(k2, hi, i) == kid_hi(keys, hi, i + p + 1));
    }
    assert forall|i: int, x: u32| 0 <= i < kids.len() && #[trigger] owns(
        kids[i],
        x,
    ) implies owns(t, x) by {}
    assert forall|i: int, j: int, x: u32|
        0 <= i < c1.len() && 0 <= j < c1.len() && i != j && #[trigger] owns(
            c1[i],
            x,
        ) implies !#[trigger] owns(c1[j], x) by {
        assert(owns(kids[i], x));
        assert(!owns(kids[j], x));
    }
    assert forall|i: int, j: int, x: u32|
        0 <= i < c2.len() && 0 <= j < c2.len() && i != j && #[trigger] owns(
            c2[i],
            x,
        ) implies !#[trigger] owns(c2[j], x) by {
        assert(owns(kids[i + p + 1], x));
        assert(!owns(kids[j + p + 1], x));
    }
    assert forall|i: int| 0 <= i < c1.len() implies distinct(#[trigger] c1[i]) && !owns(
        c1[i],
        id,
    ) by {
        assert(c1[i] == kids[i]);
    }
    assert forall|i: int| 0 <= i < c2.len() implies distinct(#[trigger] c2[i]) && !owns(
        c2[i],
        rid,
    ) by {
        assert(c2[i] == kids[i + p + 1]);
        if owns(kids[i + p + 1], rid) {
            assert(owns(t, rid));
        }
    }
    assert forall|x: u32| #[trigger] owns(t1, x) implies owns(t, x) by {
        if x != id {
            let i = choose|i: int| 0 <= i < c1.len() && owns(#[trigger] c1[i], x);
            assert(owns(kids[i], x));
        }
    }
    assert forall|x: u32| #[trigger] owns(t2, x) implies owns(t, x) || x == rid by {
        if x != rid {
            let i = choose|i: int| 0 <= i < c2.len() && owns(#[trigger] c2[i], x);
            assert(owns(kids[i + p + 1], x));
        }
    }
    assert forall|x: u32| #[trigger] owns(t1, x) implies !owns(t2, x) by {
        if owns(t2, x) {
            assert(owns(t, x));
            assert(x != rid);
            let j = choose|j: int| 0 <= j < c2.len() && owns(#[trigger] c2[j], x);
            assert(owns(kids[j + p + 1], x));
            if x != id {
                let i = choose|i: int| 0 <= i < c1.len() && owns(#[trigger] c1[i], x);
                assert(owns(kids[i], x));
            } else {
                assert(!owns(kids[j + p + 1], id));
            }
        }
    }
    assert forall|k: Seq<u8>| key_lt(k, sep) implies #[trigger] lookup(t1, k) == lookup(t, k) by {
        let i = child_index(keys, k);
        lemma_child_index(keys, k);
        assert(i <= p) by {
            if i > p {
                assert(!key_lt(k, keys[p]));
            }
        }
        assert forall|j: int| 0 <= j < i implies !#[trigger] key_lt(k, k1[j]) by {
            assert(!key_lt(k, keys[j]));
        }
        lemma_child_index_unique(k1, k, i);
        assert(c1[i] == kids[i]);
    }
    assert forall|k: Seq<u8>| !key_lt(k, sep) implies #[trigger] lookup(t2, k) == lookup(t, k) by {
        let i = child_index(keys, k);
        lemma_child_index(keys, k);
        assert(i > p) by {
            if i <= p {
                assert(key_lt(k, keys[i]));
                if i < p {
                    assert(key_lt(keys[i], keys[p]));
                    lemma_key_transitive(k, keys[i], keys[p]);
                }
            }
        }
        assert forall|j: int| 0 <= j < i - p - 1 implies !#[trigger] key_lt(k, k2[j]) by {
            assert(!key_lt(k, keys[j + p + 1]));
        }
        if i < keys.len() {
            assert(k2[i - p - 1] == keys[i]);
        }
        lemma_child_index_unique(k2, k, i - p - 1);
        assert(c2[i - p - 1] == kids[i]);
    }
}

// ---------------------------------------------------------------------------
// Height
// ---------------------------------------------------------------------------

/// The page numbers of a tree.
pub open spec fn owned_set(t: Tree) -> Set<int> {
    Set::new(|x: int| 0 <= x < 4294967296 && owns(t, x as u32))
}

proof fn lemma_owned_count(t: Tree, lo: Option<Seq<u8>>, hi: Option<Seq<u8>>, h: nat)
    requires
        ok(t, lo, hi, h),
        distinct(t),
    ensures
        owned_set(t).finite(),
        owned_set(t).len() >= pow2(h),
    decreases t,
{
    let s = owned_set(t);
    let all = set_int_range(0, 4294967296);
    lemma_int_range(0, 4294967296);
    assert(s.subset_of(all));
    lemma_len_subset(s, all);
    match t {
        Tree::Leaf { id, .. } => {
            assert(s.contains(id as int));
            let one = Set::<int>::empty().insert(id as int);
            assert(one.subset_of(s));
            lemma_len_subset(one, s);
            lemma2_to64();
        },
        Tree::Node { id, keys, kids } => {
            let h1 = (h - 1) as nat;
            lemma_owned_count(kids[0], kid_lo(keys, lo, 0), kid_hi(keys, hi, 0), h1);
            lemma_owned_count(kids[1], kid_lo(keys, lo, 1), kid_hi(keys, hi, 1), h1);
            let a = owned_set(kids[0]);
            let b = owned_set(kids[1]);
            assert(a.disjoint(b)) by {
                assert forall|x: int| a.contains(x) implies !b.contains(x) by {
                    assert(owns(kids[0], x as u32));
                }
            }
            lemma_set_disjoint_lens(a, b);
            assert((a + b).subset_of(s)) by {
                assert forall|x: int| (a + b).contains(x) implies s.contains(x) by {
                    if a.contains(x) {
                        assert(owns(kids[0], x as u32));
                    } else {
                        assert(owns(kids[1], x as u32));
                    }
                }
            }
            lemma_len_subset(a + b, s);
            lemma_pow2_unfold(h);
        },
        Tree::Bad { .. } => {},
    }
}

/// A well-formed tree has at most 32 levels above its leaves, as every
/// internal node has two children or more and page numbers are 32 bits wide.
pub proof fn lemma_height_bound(t: Tree, lo: Option<Seq<u8>>, hi: Option<Seq<u8>>, h: nat)
    requires
        ok(t, lo, hi, h),
        distinct(t),
    ensures
        h <= 32,
{
    lemma_owned_count(t, lo, hi, h);
    let all = set_int_range(0, 4294967296);
    lemma_int_range(0, 4294967296);
    assert(owned_set(t).subset_of(all));
    lemma_len_subset(owned_set(t), all);
    lemma2_to64();
    if h > 32 {
        lemma_pow2_strictly_increases(32, h);
    }
}

} // verus!

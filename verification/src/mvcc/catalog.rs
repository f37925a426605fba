//! The catalog tree: maps each tree number to the root page of its B+tree.
//!
//! Keys are tree numbers and values page numbers, both as four bytes with the
//! least significant one first.

use crate::bytes::{
    key_le, key_lt, le32, le32_bytes, lemma_le32_inverse, lemma_le32_round_trip, push_le32,
    read_le32,
};
use crate::model::{content, is_range, is_tree, PAGES_PER_INSERT};
use crate::mvcc::{MvccError, TreeId};
use crate::mvcc::store::{catalog_shape, roots_in};
use crate::node::{keys_of, sorted_keys};
use crate::page::PageId;
use crate::pager::{PageSource, Pager};
use crate::tree::{pairs, room, tree_get, tree_guarded, tree_insert, tree_range, tree_step};
use vstd::prelude::*;

verus! {

broadcast use crate::bytes::group_byte_lengths;

fn number_bytes(v: u32) -> (r: Vec<u8>)
    ensures
        r@ == le32_bytes(v),
        r@.len() == 4,
{
    let mut r: Vec<u8> = Vec::new();
    push_le32(&mut r, v);
    assert(r@ =~= le32_bytes(v));
    r
}

/// Looks up the root page of a tree in the catalog.
pub fn catalog_get<S: PageSource>(src: &mut S, catalog_root: PageId, tree_id: TreeId) -> (r: Result<
    Option<PageId>,
    MvccError,
>)
    requires
        old(src).ready(),
        is_tree(old(src).state().file, catalog_root.0),
        catalog_shape(content(old(src).state().file, catalog_root.0)),
    ensures
        final(src).ready(),
        final(src).state() == old(src).state(),
        ({
            let roots = roots_in(content(old(src).state().file, catalog_root.0));
            r == Ok::<Option<PageId>, MvccError>(
                if roots.contains_key(tree_id.0) {
                    Some(PageId(roots[tree_id.0]))
                } else {
                    None
                },
            )
        }),
{
    let key = number_bytes(tree_id.0);
    match tree_get(src, catalog_root, key.as_slice()) {
        Ok(Some(val)) => {
            let pid: u32 = read_le32(val.as_slice(), 0);
            Ok(Some(PageId(pid)))
        },
        Ok(None) => Ok(None),
        Err(e) => Err(MvccError::BTree(e)),
    }
}

/// Sets the root page of a tree in the catalog. Returns the root that the
/// catalog then has.
pub fn catalog_set(pager: &mut Pager, catalog_root: PageId, tree_id: TreeId, root: PageId) -> (r:
    Result<PageId, MvccError>)
    requires
        old(pager).inv(),
        old(pager)@.alloc_ok(),
        is_tree(old(pager)@.file, catalog_root.0),
        tree_guarded(old(pager)@, catalog_root.0),
        room(old(pager)@),
    ensures
        final(pager).inv(),
        r matches Ok(c2) && tree_step(
            old(pager)@,
            final(pager)@,
            catalog_root.0,
            c2.0,
            PAGES_PER_INSERT as int,
        ) && content(final(pager)@.file, c2.0) == content(
            old(pager)@.file,
            catalog_root.0,
        ).insert(le32_bytes(tree_id.0), le32_bytes(root.0)),
{
    let key = number_bytes(tree_id.0);
    let val = number_bytes(root.0);
    match tree_insert(pager, catalog_root, key.as_slice(), val.as_slice()) {
        Ok(c2) => Ok(c2),
        Err(e) => Err(MvccError::BTree(e)),
    }
}

/// Whether `v` lists every tree of the catalog once with its root, in the
/// order of the catalog's keys.
pub open spec fn lists_catalog(v: Seq<(TreeId, PageId)>, roots: Map<u32, u32>) -> bool {
    &&& sorted_keys(Seq::new(v.len(), |i: int| le32_bytes(v[i].0.0)))
    &&& forall|i: int|
        0 <= i < v.len() ==> roots.contains_key((#[trigger] v[i]).0.0) && roots[v[i].0.0]
            == v[i].1.0
    &&& forall|id: u32| #[trigger]
        roots.contains_key(id) ==> exists|i: int|
            0 <= i < v.len() && #[trigger] v[i] == (TreeId(id), PageId(roots[id]))
}

proof fn lemma_four_byte_bounds(k: Seq<u8>)
    requires
        k.len() == 4,
    ensures
        key_le(le32_bytes(0), k),
        key_le(k, le32_bytes(u32::MAX)),
{
    let z = le32_bytes(0);
    let f = le32_bytes(u32::MAX);
    reveal(le32_bytes);
    assert(z =~= seq![0u8, 0u8, 0u8, 0u8]);
    assert(f =~= seq![255u8, 255u8, 255u8, 255u8]);
    reveal_with_fuel(key_lt, 5);
    if !key_lt(z, k) {
        assert(z =~= k);
    }
    if !key_lt(k, f) {
        assert(k =~= f);
    }
}

/// Lists all trees in the catalog with their root pages.
pub fn catalog_list<S: PageSource>(src: &mut S, catalog_root: PageId) -> (r: Result<
    Vec<(TreeId, PageId)>,
    MvccError,
>)
    requires
        old(src).ready(),
        is_tree(old(src).state().file, catalog_root.0),
        catalog_shape(content(old(src).state().file, catalog_root.0)),
    ensures
        final(src).ready(),
        final(src).state() == old(src).state(),
        r matches Ok(v) && lists_catalog(
            v@,
            roots_in(content(old(src).state().file, catalog_root.0)),
        ),
{
    let ghost m = content(src.state().file, catalog_root.0);
    let ghost roots = roots_in(m);
    let start = number_bytes(0);
    let end = number_bytes(4294967295);
    let entries = match tree_range(src, catalog_root, start.as_slice(), end.as_slice()) {
        Ok(e) => e,
        Err(e) => {
            return Err(MvccError::BTree(e));
        },
    };
    let ghost s = pairs(entries@);
    let mut result: Vec<(TreeId, PageId)> = Vec::new();
    let mut i: usize = 0;
    while i < entries.len()
        invariant
            s == pairs(entries@),
            catalog_shape(m),
            is_range(s, m, le32_bytes(0), le32_bytes(u32::MAX)),
            i <= entries@.len(),
            result@.len() == i,
            forall|j: int|
                0 <= j < i ==> le32_bytes((#[trigger] result@[j]).0.0) == s[j].0
                    && result@[j].1.0 == le32(s[j].1, 0),
        decreases entries@.len() - i,
    {
        proof {
            assert(s[i as int] == (entries@[i as int].0@, entries@[i as int].1@));
            assert(s.contains((s[i as int].0, s[i as int].1)));
            assert(m.contains_key(s[i as int].0));
            lemma_le32_inverse(s[i as int].0, 0);
            assert(s[i as int].0.subrange(0, 4) =~= s[i as int].0);
        }
        let tid: u32 = read_le32(entries[i].0.as_slice(), 0);
        let pid: u32 = read_le32(entries[i].1.as_slice(), 0);
        result.push((TreeId(tid), PageId(pid)));
        i = i + 1;
    }
    proof {
        let ks = Seq::new(result@.len(), |j: int| le32_bytes(result@[j].0.0));
        assert(ks =~= keys_of(s));
        assert forall|j: int| 0 <= j < result@.len() implies roots.contains_key(
            (#[trigger] result@[j]).0.0,
        ) && roots[result@[j].0.0] == result@[j].1.0 by {
            assert(le32_bytes(result@[j].0.0) == s[j].0);
            assert(s.contains((s[j].0, s[j].1)));
        }
        assert forall|id: u32| #[trigger] roots.contains_key(id) implies exists|j: int|
            0 <= j < result@.len() && #[trigger] result@[j] == (TreeId(id), PageId(roots[id])) by {
            let k = le32_bytes(id);
            lemma_four_byte_bounds(k);
            assert(s.contains((k, m[k])));
            let j = s.index_of((k, m[k]));
            assert(le32_bytes(result@[j].0.0) == s[j].0);
            lemma_le32_round_trip(id);
            lemma_le32_round_trip(result@[j].0.0);
            lemma_le32_inverse(m[k], 0);
            assert(result@[j] == (TreeId(id), PageId(roots[id])));
        }
    }
    Ok(result)
}

/// The next tree number: one more than the largest in the catalog, 1 for an
/// empty catalog.
pub open spec fn next_tree_id(roots: Map<u32, u32>, id: u32) -> bool {
    &&& forall|i: u32| #[trigger] roots.contains_key(i) ==> i < id
    &&& id == 1 || roots.contains_key((id - 1) as u32)
    &&& id >= 1
}

/// Finds the next available tree number.
pub fn catalog_next_tree_id<S: PageSource>(src: &mut S, catalog_root: PageId) -> (r: Result<
    TreeId,
    MvccError,
>)
    requires
        old(src).ready(),
        is_tree(old(src).state().file, catalog_root.0),
        catalog_shape(content(old(src).state().file, catalog_root.0)),
        !roots_in(content(old(src).state().file, catalog_root.0)).contains_key(u32::MAX),
    ensures
        final(src).ready(),
        final(src).state() == old(src).state(),
        r matches Ok(id) && next_tree_id(
            roots_in(content(old(src).state().file, catalog_root.0)),
            id.0,
        ),
{
    let ghost roots = roots_in(content(src.state().file, catalog_root.0));
    let entries = match catalog_list(src, catalog_root) {
        Ok(e) => e,
        Err(e) => {
            return Err(e);
        },
    };
    let mut max_id: u32 = 0;
    let mut i: usize = 0;
    while i < entries.len()
        invariant
            i <= entries@.len(),
            lists_catalog(entries@, roots),
            forall|j: int| 0 <= j < i ==> (#[trigger] entries@[j]).0.0 <= max_id,
            max_id == 0 || roots.contains_key(max_id),
        decreases entries@.len() - i,
    {
        if entries[i].0.0 > max_id {
            max_id = entries[i].0.0;
        }
        i = i + 1;
    }
    proof {
        assert forall|id: u32| #[trigger] roots.contains_key(id) implies id <= max_id by {
            let j = choose|j: int|
                0 <= j < entries@.len() && #[trigger] entries@[j] == (
                    TreeId(id),
                    PageId(roots[id]),
                );
            assert(entries@[j].0.0 <= max_id);
        }
    }
    if entries.len() == 0 {
        Ok(TreeId(1))
    } else {
        Ok(TreeId(max_id + 1))
    }
}

} // verus!

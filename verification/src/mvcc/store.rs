//! The mathematical model of a database: a catalog tree that names the roots
//! of the user trees, all on pages of their own.

use crate::bytes::{le32, le32_bytes, lemma_le32_round_trip};
use crate::model::{
    content, height, is_tree, lemma_is_tree_frame, lemma_owned_in_file, tree_of, tree_owns,
};
use crate::pager::PagerView;
use crate::tree::{tree_guarded, tree_step};
use vstd::prelude::*;

verus! {

broadcast use crate::bytes::group_byte_lengths;

/// A key-value map of byte strings.
pub type Table = Map<Seq<u8>, Seq<u8>>;

/// The trees of a database by number.
pub type Tables = Map<u32, Table>;

/// Whether two trees share no page.
pub open spec fn apart(file: Seq<Seq<u8>>, r1: u32, r2: u32) -> bool {
    forall|x: u32| #[trigger] tree_owns(file, r1, x) ==> !tree_owns(file, r2, x)
}

/// Whether the catalog at `c` and the trees at `roots` are well-formed trees
/// that share no page with each other nor with the pages to hand out.
pub open spec fn forest(v: PagerView, c: u32, roots: Map<u32, u32>) -> bool {
    &&& is_tree(v.file, c)
    &&& tree_guarded(v, c)
    &&& forall|id: u32| #[trigger]
        roots.contains_key(id) ==> is_tree(v.file, roots[id]) && tree_guarded(v, roots[id])
            && apart(v.file, c, roots[id]) && apart(v.file, roots[id], c)
    &&& forall|i: u32, j: u32|
        i != j && #[trigger] roots.contains_key(i) && #[trigger] roots.contains_key(j) ==> apart(
            v.file,
            roots[i],
            roots[j],
        )
}

/// Whether a catalog has keys and values of four bytes.
pub open spec fn catalog_shape(m: Table) -> bool {
    forall|k: Seq<u8>| #[trigger] m.contains_key(k) ==> k.len() == 4 && m[k].len() == 4
}

/// The roots that a catalog names.
pub open spec fn roots_in(m: Table) -> Map<u32, u32> {
    Map::new(
        |id: u32| m.contains_key(le32_bytes(id)),
        |id: u32| le32(m[le32_bytes(id)], 0) as u32,
    )
}

/// The roots that the catalog at `c` names; page 0 stands for no catalog.
pub open spec fn roots_at(file: Seq<Seq<u8>>, c: u32) -> Map<u32, u32> {
    if c == 0 {
        Map::empty()
    } else {
        roots_in(content(file, c))
    }
}

/// Whether the pages hold a database with its catalog at `c`.
pub open spec fn store_ok(v: PagerView, c: u32) -> bool {
    &&& v.alloc_ok()
    &&& c == 0 || (c >= 2 && catalog_shape(content(v.file, c)) && forest(
        v,
        c,
        roots_at(v.file, c),
    ))
}

/// The contents of the trees at `roots`.
pub open spec fn tables_at(file: Seq<Seq<u8>>, roots: Map<u32, u32>) -> Tables {
    Map::new(|id: u32| roots.contains_key(id), |id: u32| content(file, roots[id]))
}

/// The contents of a database with its catalog at `c`.
pub open spec fn tables(file: Seq<Seq<u8>>, c: u32) -> Tables {
    tables_at(file, roots_at(file, c))
}

/// Setting a tree's root in the catalog sets it in the roots.
pub proof fn lemma_roots_insert(m: Table, id: u32, root: u32)
    ensures
        roots_in(m.insert(le32_bytes(id), le32_bytes(root))) == roots_in(m).insert(id, root),
        catalog_shape(m) ==> catalog_shape(m.insert(le32_bytes(id), le32_bytes(root))),
{
    let m2 = m.insert(le32_bytes(id), le32_bytes(root));
    lemma_le32_round_trip(root);
    assert forall|i: u32| le32_bytes(i) == le32_bytes(id) implies i == id by {
        lemma_le32_round_trip(i);
        lemma_le32_round_trip(id);
    }
    assert(roots_in(m2) =~= roots_in(m).insert(id, root));
}

/// A change to one tree leaves a tree on other pages as it was.
pub proof fn lemma_other_tree(
    a: PagerView,
    b: PagerView,
    root: u32,
    root2: u32,
    other: u32,
    n: int,
)
    requires
        tree_step(a, b, root, root2, n),
        is_tree(a.file, other),
        tree_guarded(a, other),
        apart(a.file, other, root),
    ensures
        is_tree(b.file, other),
        tree_of(b.file, other) == tree_of(a.file, other),
        content(b.file, other) == content(a.file, other),
        tree_guarded(b, other),
        apart(b.file, other, root2),
        apart(b.file, root2, other),
{
    let t = tree_of(a.file, other);
    assert forall|x: u32| #[trigger] tree_owns(a.file, other, x) implies x < b.file.len()
        && a.file[x as int] == b.file[x as int] by {
        lemma_owned_in_file(a.file, t, None, None, height(t), x);
        assert(!tree_owns(a.file, root, x));
        assert(!a.is_free(x));
        assert(b.file[x as int] == a.file[x as int]);
    }
    lemma_is_tree_frame(a.file, b.file, other);
    assert forall|x: u32| #[trigger] tree_owns(b.file, other, x) implies !b.is_free(x)
        && !tree_owns(b.file, root2, x) by {
        assert(tree_owns(a.file, other, x));
        if b.is_free(x) {
            assert(a.is_free(x));
        }
    }
    assert forall|x: u32| #[trigger] tree_owns(b.file, root2, x) implies !tree_owns(
        b.file,
        other,
        x,
    ) by {
        if tree_owns(b.file, other, x) {
            assert(tree_owns(a.file, other, x));
        }
    }
}

/// Two trees that a change to a third leaves alone stay apart.
proof fn lemma_still_apart(a: PagerView, b: PagerView, r1: u32, r2: u32)
    requires
        tree_of(b.file, r1) == tree_of(a.file, r1),
        tree_of(b.file, r2) == tree_of(a.file, r2),
        apart(a.file, r1, r2),
    ensures
        apart(b.file, r1, r2),
{
    assert forall|x: u32| #[trigger] tree_owns(b.file, r1, x) implies !tree_owns(b.file, r2, x) by {
        assert(tree_owns(a.file, r1, x));
    }
}

/// A change to user tree `id` keeps the forest, with the tree at its new root.
pub proof fn lemma_user_step(
    a: PagerView,
    b: PagerView,
    c: u32,
    roots: Map<u32, u32>,
    id: u32,
    root2: u32,
    n: int,
)
    requires
        forest(a, c, roots),
        roots.contains_key(id),
        tree_step(a, b, roots[id], root2, n),
    ensures
        forest(b, c, roots.insert(id, root2)),
        content(b.file, c) == content(a.file, c),
        tables_at(b.file, roots.insert(id, root2)) == tables_at(a.file, roots).insert(
            id,
            content(b.file, root2),
        ),
{
    let root = roots[id];
    let roots2 = roots.insert(id, root2);
    lemma_other_tree(a, b, root, root2, c, n);
    assert forall|i: u32| roots.contains_key(i) && i != id implies {
        &&& is_tree(b.file, #[trigger] roots[i])
        &&& tree_of(b.file, roots[i]) == tree_of(a.file, roots[i])
        &&& content(b.file, roots[i]) == content(a.file, roots[i])
        &&& tree_guarded(b, roots[i])
        &&& apart(b.file, roots[i], root2)
        &&& apart(b.file, root2, roots[i])
    } by {
        assert(apart(a.file, roots[i], roots[id]));
        lemma_other_tree(a, b, root, root2, roots[i], n);
    }
    assert forall|i: u32| #[trigger] roots2.contains_key(i) implies is_tree(b.file, roots2[i])
        && tree_guarded(b, roots2[i]) && apart(b.file, c, roots2[i]) && apart(
        b.file,
        roots2[i],
        c,
    ) by {
        if i != id {
            assert(roots.contains_key(i));
            assert(roots2[i] == roots[i]);
            lemma_still_apart(a, b, c, roots[i]);
            lemma_still_apart(a, b, roots[i], c);
        }
    }
    assert forall|i: u32, j: u32|
        i != j && #[trigger] roots2.contains_key(i) && #[trigger] roots2.contains_key(
            j,
        ) implies apart(b.file, roots2[i], roots2[j]) by {
        if i != id && j != id {
            assert(roots.contains_key(i) && roots.contains_key(j));
            assert(apart(a.file, roots[i], roots[j]));
            assert(tree_of(b.file, roots[i]) == tree_of(a.file, roots[i]));
            assert(tree_of(b.file, roots[j]) == tree_of(a.file, roots[j]));
            lemma_still_apart(a, b, roots[i], roots[j]);
        } else if i == id {
            assert(roots.contains_key(j));
            assert(apart(b.file, root2, roots[j]));
        } else {
            assert(roots.contains_key(i));
            assert(apart(b.file, roots[i], root2));
        }
    }
    assert(tables_at(b.file, roots2) =~= tables_at(a.file, roots).insert(
        id,
        content(b.file, root2),
    ));
}

/// A change to the catalog tree keeps the forest.
pub proof fn lemma_catalog_step(
    a: PagerView,
    b: PagerView,
    c: u32,
    c2: u32,
    roots: Map<u32, u32>,
    n: int,
)
    requires
        forest(a, c, roots),
        tree_step(a, b, c, c2, n),
    ensures
        forest(b, c2, roots),
        tables_at(b.file, roots) == tables_at(a.file, roots),
{
    assert forall|i: u32| roots.contains_key(i) implies {
        &&& is_tree(b.file, #[trigger] roots[i])
        &&& tree_of(b.file, roots[i]) == tree_of(a.file, roots[i])
        &&& content(b.file, roots[i]) == content(a.file, roots[i])
        &&& tree_guarded(b, roots[i])
        &&& apart(b.file, roots[i], c2)
        &&& apart(b.file, c2, roots[i])
    } by {
        lemma_other_tree(a, b, c, c2, roots[i], n);
    }
    assert forall|i: u32, j: u32|
        i != j && #[trigger] roots.contains_key(i) && #[trigger] roots.contains_key(
            j,
        ) implies apart(b.file, roots[i], roots[j]) by {
        assert(apart(a.file, roots[i], roots[j]));
        assert(tree_of(b.file, roots[i]) == tree_of(a.file, roots[i]));
        assert(tree_of(b.file, roots[j]) == tree_of(a.file, roots[j]));
        lemma_still_apart(a, b, roots[i], roots[j]);
    }
    assert(tables_at(b.file, roots) =~= tables_at(a.file, roots));
}

/// A new tree on a new page joins the forest.
pub proof fn lemma_new_tree(
    a: PagerView,
    b: PagerView,
    c: u32,
    roots: Map<u32, u32>,
    id: u32,
    root: u32,
)
    requires
        forest(a, c, roots),
        !roots.contains_key(id),
        a.file.len() <= b.file.len(),
        forall|x: u32| #[trigger] b.is_free(x) ==> a.is_free(x),
        a.is_free(root),
        is_tree(b.file, root),
        tree_guarded(b, root),
        forall|x: u32| #[trigger] tree_owns(b.file, root, x) ==> x == root,
        forall|x: u32|
            #![trigger b.file[x as int]]
            x < a.file.len() && x != root ==> b.file[x as int] == a.file[x as int],
    ensures
        forest(b, c, roots.insert(id, root)),
        content(b.file, c) == content(a.file, c),
        tables_at(b.file, roots.insert(id, root)) == tables_at(a.file, roots).insert(
            id,
            content(b.file, root),
        ),
{
    let roots2 = roots.insert(id, root);
    lemma_beside_new(a, b, c, root);
    assert forall|i: u32| roots.contains_key(i) implies {
        &&& is_tree(b.file, #[trigger] roots[i])
        &&& tree_of(b.file, roots[i]) == tree_of(a.file, roots[i])
        &&& content(b.file, roots[i]) == content(a.file, roots[i])
        &&& tree_guarded(b, roots[i])
        &&& apart(b.file, roots[i], root)
        &&& apart(b.file, root, roots[i])
    } by {
        lemma_beside_new(a, b, roots[i], root);
    }
    assert forall|i: u32| #[trigger] roots2.contains_key(i) implies is_tree(b.file, roots2[i])
        && tree_guarded(b, roots2[i]) && apart(b.file, c, roots2[i]) && apart(
        b.file,
        roots2[i],
        c,
    ) by {
        if i != id {
            assert(roots.contains_key(i));
            assert(roots2[i] == roots[i]);
            lemma_still_apart(a, b, c, roots[i]);
            lemma_still_apart(a, b, roots[i], c);
        }
    }
    assert forall|i: u32, j: u32|
        i != j && #[trigger] roots2.contains_key(i) && #[trigger] roots2.contains_key(
            j,
        ) implies apart(b.file, roots2[i], roots2[j]) by {
        if i != id && j != id {
            assert(roots.contains_key(i) && roots.contains_key(j));
            assert(apart(a.file, roots[i], roots[j]));
            assert(tree_of(b.file, roots[i]) == tree_of(a.file, roots[i]));
            assert(tree_of(b.file, roots[j]) == tree_of(a.file, roots[j]));
            lemma_still_apart(a, b, roots[i], roots[j]);
        } else if i == id {
            assert(roots.contains_key(j));
            assert(apart(b.file, root, roots[j]));
        } else {
            assert(roots.contains_key(i));
            assert(apart(b.file, roots[i], root));
        }
    }
    assert(tables_at(b.file, roots2) =~= tables_at(a.file, roots).insert(
        id,
        content(b.file, root),
    ));
}

proof fn lemma_beside_new(a: PagerView, b: PagerView, other: u32, root: u32)
    requires
        is_tree(a.file, other),
        tree_guarded(a, other),
        a.file.len() <= b.file.len(),
        forall|x: u32| #[trigger] b.is_free(x) ==> a.is_free(x),
        a.is_free(root),
        forall|x: u32| #[trigger] tree_owns(b.file, root, x) ==> x == root,
        forall|x: u32|
            #![trigger b.file[x as int]]
            x < a.file.len() && x != root ==> b.file[x as int] == a.file[x as int],
    ensures
        is_tree(b.file, other),
        tree_of(b.file, other) == tree_of(a.file, other),
        content(b.file, other) == content(a.file, other),
        tree_guarded(b, other),
        apart(b.file, other, root),
        apart(b.file, root, other),
{
    let t = tree_of(a.file, other);
    assert forall|x: u32| #[trigger] tree_owns(a.file, other, x) implies x < b.file.len()
        && a.file[x as int] == b.file[x as int] by {
        lemma_owned_in_file(a.file, t, None, None, height(t), x);
        assert(!a.is_free(x));
        assert(b.file[x as int] == a.file[x as int]);
    }
    lemma_is_tree_frame(a.file, b.file, other);
    assert forall|x: u32| #[trigger] tree_owns(b.file, other, x) implies !b.is_free(x)
        && !tree_owns(b.file, root, x) by {
        assert(tree_owns(a.file, other, x));
        if b.is_free(x) {
            assert(a.is_free(x));
        }
    }
    assert forall|x: u32| #[trigger] tree_owns(b.file, root, x) implies !tree_owns(
        b.file,
        other,
        x,
    ) by {
        if tree_owns(b.file, other, x) {
            assert(tree_owns(a.file, other, x));
        }
    }
}

/// A database is the same on pages that agree on everything that was handed
/// out, when no more can be handed out than before.
pub proof fn lemma_store_frame(a: PagerView, b: PagerView, c: u32)
    requires
        store_ok(a, c),
        b.alloc_ok(),
        a.file.len() <= b.file.len(),
        forall|x: u32| #[trigger] b.is_free(x) ==> a.is_free(x),
        forall|x: u32|
            #![trigger b.file[x as int]]
            2 <= x < a.file.len() && !a.is_free(x) ==> b.file[x as int] == a.file[x as int],
    ensures
        store_ok(b, c),
        roots_at(b.file, c) == roots_at(a.file, c),
        tables(b.file, c) == tables(a.file, c),
{
    if c != 0 {
        let roots = roots_at(a.file, c);
        lemma_same_tree(a, b, c);
        assert forall|i: u32| roots.contains_key(i) implies {
            &&& is_tree(b.file, #[trigger] roots[i])
            &&& tree_of(b.file, roots[i]) == tree_of(a.file, roots[i])
            &&& content(b.file, roots[i]) == content(a.file, roots[i])
            &&& tree_guarded(b, roots[i])
        } by {
            lemma_same_tree(a, b, roots[i]);
        }
        assert forall|i: u32| #[trigger] roots.contains_key(i) implies apart(b.file, c, roots[i])
            && apart(b.file, roots[i], c) by {
            assert(tree_of(b.file, roots[i]) == tree_of(a.file, roots[i]));
            lemma_still_apart(a, b, c, roots[i]);
            lemma_still_apart(a, b, roots[i], c);
        }
        assert forall|i: u32, j: u32|
            i != j && #[trigger] roots.contains_key(i) && #[trigger] roots.contains_key(
                j,
            ) implies apart(b.file, roots[i], roots[j]) by {
            assert(apart(a.file, roots[i], roots[j]));
            assert(tree_of(b.file, roots[i]) == tree_of(a.file, roots[i]));
            assert(tree_of(b.file, roots[j]) == tree_of(a.file, roots[j]));
            lemma_still_apart(a, b, roots[i], roots[j]);
        }
    }
    assert(tables(b.file, c) =~= tables(a.file, c));
}

proof fn lemma_same_tree(a: PagerView, b: PagerView, root: u32)
    requires
        is_tree(a.file, root),
        tree_guarded(a, root),
        a.file.len() <= b.file.len(),
        forall|x: u32| #[trigger] b.is_free(x) ==> a.is_free(x),
        forall|x: u32|
            #![trigger b.file[x as int]]
            2 <= x < a.file.len() && !a.is_free(x) ==> b.file[x as int] == a.file[x as int],
    ensures
        is_tree(b.file, root),
        tree_of(b.file, root) == tree_of(a.file, root),
        content(b.file, root) == content(a.file, root),
        tree_guarded(b, root),
{
    let t = tree_of(a.file, root);
    assert forall|x: u32| #[trigger] tree_owns(a.file, root, x) implies x < b.file.len() && a.file[
        x as int] == b.file[x as int] by {
        lemma_owned_in_file(a.file, t, None, None, height(t), x);
        assert(!a.is_free(x));
        assert(b.file[x as int] == a.file[x as int]);
    }
    lemma_is_tree_frame(a.file, b.file, root);
    assert forall|x: u32| #[trigger] tree_owns(b.file, root, x) implies !b.is_free(x) by {
        assert(tree_owns(a.file, root, x));
        if b.is_free(x) {
            assert(a.is_free(x));
        }
    }
}

} // verus!

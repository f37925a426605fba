//! What transactions promise of what is read and written.

use crate::bytes::key_le;
use crate::model::{content, is_range, is_tree, MAX_KEY_SIZE};
use crate::mvcc::{MvccError, TreeId};
use crate::mvcc::database::Database;
use crate::mvcc::store::Tables;
use crate::mvcc::txn::{
    delete_error, get_outcome, insert_error, same_base, with_entry, without_entry,
};
use crate::tree::get_result;
use vstd::prelude::*;

verus! {

/// A tree gives back what was inserted last for a key, and for every other key
/// what it gave before.
pub proof fn lemma_tree_insert_then_get(
    before: Seq<Seq<u8>>,
    old_root: u32,
    after: Seq<Seq<u8>>,
    new_root: u32,
    key: Seq<u8>,
    value: Seq<u8>,
    other: Seq<u8>,
)
    requires
        is_tree(before, old_root),
        is_tree(after, new_root),
        key.len() <= MAX_KEY_SIZE,
        content(after, new_root) == content(before, old_root).insert(key, value),
    ensures
        get_result(after, new_root, key) == Ok::<Option<Seq<u8>>, crate::error::BTreeError>(
            Some(value),
        ),
        other != key ==> get_result(after, new_root, other) == get_result(
            before,
            old_root,
            other,
        ),
{
}

/// A tree gives back nothing for a key that was deleted, and for every other
/// key what it gave before.
pub proof fn lemma_tree_delete_then_get(
    before: Seq<Seq<u8>>,
    after: Seq<Seq<u8>>,
    root: u32,
    key: Seq<u8>,
    other: Seq<u8>,
)
    requires
        is_tree(before, root),
        is_tree(after, root),
        key.len() <= MAX_KEY_SIZE,
        content(after, root) == content(before, root).remove(key),
    ensures
        get_result(after, root, key) == Ok::<Option<Seq<u8>>, crate::error::BTreeError>(None),
        other != key ==> get_result(after, root, other) == get_result(before, root, other),
{
}

/// A transaction reads what it wrote itself, and its writes touch no other key
/// and no other tree.
pub proof fn lemma_reads_own_writes(
    t: Tables,
    id: TreeId,
    key: Seq<u8>,
    value: Seq<u8>,
    other_id: TreeId,
    other: Seq<u8>,
)
    requires
        insert_error(t, id, key, value) is None,
    ensures
        get_outcome(with_entry(t, id, key, value), id, key) == Ok::<
            Option<Seq<u8>>,
            MvccError,
        >(Some(value)),
        other_id != id || other != key ==> get_outcome(
            with_entry(t, id, key, value),
            other_id,
            other,
        ) == get_outcome(t, other_id, other),
{
}

/// A transaction does not read what it deleted itself, and a deletion touches
/// no other key and no other tree.
pub proof fn lemma_deletes_own_writes(
    t: Tables,
    id: TreeId,
    key: Seq<u8>,
    other_id: TreeId,
    other: Seq<u8>,
)
    requires
        delete_error(t, id, key) is None,
    ensures
        get_outcome(without_entry(t, id, key), id, key) == Ok::<Option<Seq<u8>>, MvccError>(None),
        other_id != id || other != key ==> get_outcome(without_entry(t, id, key), other_id, other)
            == get_outcome(t, other_id, other),
{
}

/// What a transaction has not committed is not visible: nothing that it does
/// before its commit changes what the database holds, nor what a restart finds.
pub proof fn lemma_uncommitted_is_invisible(a: Database, b: Database)
    requires
        same_base(a, b),
    ensures
        b.tables() == a.tables(),
        a.stored() ==> b.stored(),
{
}

/// Inserting a key that was not there and deleting it again undoes the
/// insertion.
pub proof fn lemma_delete_undoes_insert(t: Tables, id: TreeId, key: Seq<u8>, value: Seq<u8>)
    requires
        insert_error(t, id, key, value) is None,
        !t[id.0].contains_key(key),
    ensures
        without_entry(with_entry(t, id, key, value), id, key) == t,
{
    let u = without_entry(with_entry(t, id, key, value), id, key);
    assert(t[id.0].insert(key, value).remove(key) =~= t[id.0]);
    assert(u =~= t);
}

/// A scan gives exactly the entries that lookups give for keys in its range.
pub proof fn lemma_scan_agrees_with_lookups(
    t: Tables,
    id: TreeId,
    start: Seq<u8>,
    end: Seq<u8>,
    s: Seq<(Seq<u8>, Seq<u8>)>,
    key: Seq<u8>,
    value: Seq<u8>,
)
    requires
        t.contains_key(id.0),
        is_range(s, t[id.0], start, end),
        key.len() <= MAX_KEY_SIZE,
    ensures
        s.contains((key, value)) <==> key_le(start, key) && key_le(key, end) && get_outcome(
            t,
            id,
            key,
        ) == Ok::<Option<Seq<u8>>, MvccError>(Some(value)),
{
}

} // verus!

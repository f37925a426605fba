//! How nodes and their properties are shown.

use crate::bytes::{key_lt, lemma_key_asymmetric, lemma_key_total, lemma_key_transitive};
use crate::cypher::values::{insert_sorted, node_text, props_text, sorted_props, value_text};
use crate::graph::types::{NodeVal, Props, Val};
use crate::numtext::nat_text;
use crate::shell::joined;
use vstd::prelude::*;
use vstd::utf8::encode_utf8;

verus! {

/// Whether one name does not come behind another.
pub open spec fn not_behind(a: Seq<char>, b: Seq<char>) -> bool {
    !key_lt(encode_utf8(b), encode_utf8(a))
}

/// Whether properties are in the order of their names.
pub open spec fn in_order(ps: Props) -> bool {
    forall|i: int, j: int|
        0 <= i < j < ps.len() ==> not_behind((#[trigger] ps[i]).0, (#[trigger] ps[j]).0)
}

proof fn lemma_not_behind(a: Seq<char>, b: Seq<char>, c: Seq<char>)
    requires
        not_behind(a, b),
        not_behind(b, c),
    ensures
        not_behind(a, c),
{
    let (x, y, z) = (encode_utf8(a), encode_utf8(b), encode_utf8(c));
    if key_lt(z, x) {
        lemma_key_total(x, y);
        if key_lt(x, y) {
            lemma_key_transitive(z, x, y);
        }
    }
}

proof fn lemma_inserted(ps: Props, p: (Seq<char>, Val))
    requires
        in_order(ps),
    ensures
        in_order(insert_sorted(ps, p)),
        insert_sorted(ps, p).len() == ps.len() + 1,
        insert_sorted(ps, p).to_multiset() == ps.to_multiset().insert(p),
        forall|x: (Seq<char>, Val)| #[trigger]
            insert_sorted(ps, p).contains(x) ==> ps.contains(x) || x == p,
    decreases ps.len(),
{
    broadcast use vstd::seq_lib::group_to_multiset_ensures;

    let r = insert_sorted(ps, p);
    if ps.len() == 0 || !key_lt(encode_utf8(p.0), encode_utf8(ps.last().0)) {
        assert forall|i: int, j: int| 0 <= i < j < r.len() implies not_behind(
            (#[trigger] r[i]).0,
            (#[trigger] r[j]).0,
        ) by {
            if j == ps.len() && i < ps.len() - 1 {
                assert(not_behind(ps[i].0, ps[ps.len() - 1].0));
                lemma_not_behind(ps[i].0, ps.last().0, p.0);
            } else if j < ps.len() {
                assert(not_behind(ps[i].0, ps[j].0));
            }
        }
        assert forall|x: (Seq<char>, Val)| #[trigger] r.contains(x) implies ps.contains(x) || x
            == p by {
            let i = r.index_of(x);
            if i < ps.len() {
                assert(ps[i] == x);
            }
        }
    } else {
        let d = ps.drop_last();
        let last = ps.last();
        assert forall|i: int, j: int| 0 <= i < j < d.len() implies not_behind(
            (#[trigger] d[i]).0,
            (#[trigger] d[j]).0,
        ) by {
            assert(not_behind(ps[i].0, ps[j].0));
        }
        lemma_inserted(d, p);
        let s = insert_sorted(d, p);
        assert(ps =~= d.push(last));
        assert(r == s.push(last));
        assert(r.to_multiset() =~= ps.to_multiset().insert(p));
        assert forall|i: int, j: int| 0 <= i < j < r.len() implies not_behind(
            (#[trigger] r[i]).0,
            (#[trigger] r[j]).0,
        ) by {
            if j == s.len() {
                assert(s[i] == r[i]);
                assert(s.contains(s[i]));
                if d.contains(s[i]) {
                    let k = d.index_of(s[i]);
                    assert(not_behind(ps[k].0, ps[ps.len() - 1].0));
                } else {
                    lemma_key_asymmetric(encode_utf8(p.0), encode_utf8(last.0));
                }
            } else {
                assert(not_behind(s[i].0, s[j].0));
            }
        }
        assert forall|x: (Seq<char>, Val)| #[trigger] r.contains(x) implies ps.contains(x) || x
            == p by {
            let i = r.index_of(x);
            if i < s.len() {
                assert(s[i] == x);
                assert(s.contains(x));
                if d.contains(x) {
                    assert(ps[d.index_of(x)] == x);
                }
            } else {
                assert(ps[ps.len() - 1] == x);
            }
        }
    }
}

/// Sorting properties leaves them in the order of their names, and loses and
/// adds none.
pub proof fn lemma_sorted_props(ps: Props)
    ensures
        in_order(sorted_props(ps)),
        sorted_props(ps).len() == ps.len(),
        sorted_props(ps).to_multiset() == ps.to_multiset(),
    decreases ps.len(),
{
    broadcast use vstd::seq_lib::group_to_multiset_ensures;

    if ps.len() > 0 {
        let d = ps.drop_last();
        lemma_sorted_props(d);
        lemma_inserted(sorted_props(d), ps.last());
        assert(ps =~= d.push(ps.last()));
    }
}

/// How properties are shown, each by itself.
pub open spec fn prop_parts(ps: Props) -> Seq<Seq<char>> {
    Seq::new(ps.len(), |i: int| ps[i].0 + ": "@ + value_text(ps[i].1))
}

/// Properties are shown one after the other, each with its name and its value,
/// with commas between them.
pub proof fn lemma_props_shown(ps: Props)
    ensures
        props_text(ps) == joined(prop_parts(ps), ", "@),
    decreases ps.len(),
{
    let parts = prop_parts(ps);
    if ps.len() > 0 {
        let d = ps.drop_last();
        lemma_props_shown(d);
        assert(prop_parts(d) =~= parts.drop_last());
        let last = parts[ps.len() - 1];
        assert(parts.last() == last);
        if ps.len() == 1 {
            assert(Seq::<char>::empty() + ps.last().0 =~= ps.last().0);
            assert(parts[0] == last);
        } else {
            assert(props_text(ps) =~= props_text(d) + ", "@ + last);
        }
    }
}

/// A node is shown with its number, its label and all its properties, in the
/// order of their names.
pub proof fn lemma_node_shown(n: NodeVal) -> (ps: Props)
    ensures
        in_order(ps),
        ps.to_multiset() == n.props.to_multiset(),
        n.props.len() == 0 ==> node_text(n) == "("@ + nat_text(n.id as nat) + ":"@ + n.label
            + ")"@,
        n.props.len() > 0 ==> node_text(n) == "("@ + nat_text(n.id as nat) + ":"@ + n.label
            + " {"@ + joined(prop_parts(ps), ", "@) + "}"@ + ")"@,
{
    lemma_sorted_props(n.props);
    lemma_props_shown(sorted_props(n.props));
    sorted_props(n.props)
}

} // verus!

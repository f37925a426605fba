//! The workload of the benchmarks: which nodes and edges are stored and looked
//! up, and the walk over several hops that is timed.

use crate::graph::GraphError;
use crate::graph::read_txn::GraphReadTxn;
use crate::graph::state::{neighbors_of, GraphState};
use crate::graph::types::{prop_set, Direction, NodeId, Properties, Props, Val, Value};
use crate::numtext::{nat_text, push_number};
use crate::text::{copy_str, push_text};
use vstd::prelude::*;

verus! {

/// The number of digits to which the numbers in keys and values are padded.
pub const KEY_DIGITS: usize = 8;

/// Ages are below this.
pub const AGES: u64 = 80;

/// A number in decimal, with zeros in front up to `width` digits.
pub open spec fn padded(n: nat, width: int) -> Seq<char> {
    let t = nat_text(n);
    Seq::new(
        if t.len() < width {
            (width - t.len()) as nat
        } else {
            0
        },
        |i: int| '0',
    ) + t
}

/// The properties of key-value pair `i`.
pub open spec fn pair_props(i: nat) -> Props {
    prop_set(
        prop_set(Seq::empty(), "key"@, Val::Str("key_"@ + padded(i, KEY_DIGITS as int))),
        "val"@,
        Val::Str("value_"@ + padded(i, KEY_DIGITS as int)),
    )
}

/// The properties of person `i`.
pub open spec fn person_props(i: nat) -> Props {
    prop_set(
        prop_set(Seq::empty(), "name"@, Val::Str("person_"@ + nat_text(i))),
        "age"@,
        Val::Int((i % AGES as nat) as i64),
    )
}

/// The pair that lookup `i` among `n` pairs asks for.
pub open spec fn nth_lookup(i: int, n: int) -> int {
    (i * 7 + 13) % n
}

/// The ends of edge `i` among `n` nodes.
pub open spec fn nth_edge(i: int, n: int) -> (int, int) {
    let src = (i * 7 + 3) % n;
    let dst = (i * 13 + 17) % n;
    (
        src,
        if dst == src {
            (dst + 1) % n
        } else {
            dst
        },
    )
}

/// The node among `n` from which walk `i` starts.
pub open spec fn nth_start(i: int, n: int) -> int {
    i * 37 % n
}

/// The nodes that one hop along edges of a type leads to, from each of the
/// given nodes in turn.
pub open spec fn hop(g: GraphState, from: Seq<u64>, edge_type: Seq<char>) -> Seq<u64>
    decreases from.len(),
{
    if from.len() == 0 {
        Seq::empty()
    } else {
        hop(g, from.drop_last(), edge_type) + neighbors_of(
            g,
            from.last(),
            Direction::Out,
            Some(edge_type),
        ).map_values(|x: (u64, u64)| x.1)
    }
}

/// The nodes at which a walk of `hops` hops ends, one for each way there.
pub open spec fn walk(g: GraphState, from: Seq<u64>, edge_type: Seq<char>, hops: nat) -> Seq<u64>
    decreases hops,
{
    if hops == 0 {
        from
    } else {
        hop(g, walk(g, from, edge_type, (hops - 1) as nat), edge_type)
    }
}

/// An edge of the workload never leads back to where it starts, where there are
/// two nodes or more.
pub proof fn lemma_no_loops(i: int, n: int)
    requires
        0 <= i,
        n >= 2,
    ensures
        nth_edge(i, n).0 != nth_edge(i, n).1,
        0 <= nth_edge(i, n).0 < n,
        0 <= nth_edge(i, n).1 < n,
{
    let d = (i * 13 + 17) % n;
    assert(0 <= d < n && 0 <= (i * 7 + 3) % n < n);
    if d + 1 < n {
        vstd::arithmetic::div_mod::lemma_small_mod((d + 1) as nat, n as nat);
    } else {
        vstd::arithmetic::div_mod::lemma_mod_self_0(n);
    }
}

fn push_padded(s: &mut String, n: u64)
    ensures
        final(s)@ == old(s)@ + padded(n as nat, KEY_DIGITS as int),
{
    let mut t: String = String::new();
    push_number(&mut t, n);
    assert(t@ =~= nat_text(n as nat));
    let len: usize = t.as_str().unicode_len();
    let zeros: usize = if len < KEY_DIGITS {
        KEY_DIGITS - len
    } else {
        0
    };
    let mut i: usize = 0;
    assert(s@ =~= old(s)@ + Seq::new(0, |k: int| '0'));
    while i < zeros
        invariant
            i <= zeros,
            s@ == old(s)@ + Seq::new(i as nat, |k: int| '0'),
        decreases zeros - i,
    {
        s.push('0');
        i = i + 1;
        assert(s@ =~= old(s)@ + Seq::new(i as nat, |k: int| '0'));
    }
    push_text(s, t.as_str());
    assert(s@ =~= old(s)@ + padded(n as nat, KEY_DIGITS as int));
}

/// The text under which pair `i` has its key.
pub fn pair_key(i: u64) -> (r: String)
    ensures
        r@ == "key_"@ + padded(i as nat, KEY_DIGITS as int),
{
    let mut s: String = copy_str("key_");
    push_padded(&mut s, i);
    s
}

/// The text that is the value of pair `i`.
pub fn pair_value(i: u64) -> (r: String)
    ensures
        r@ == "value_"@ + padded(i as nat, KEY_DIGITS as int),
{
    let mut s: String = copy_str("value_");
    push_padded(&mut s, i);
    s
}

/// The name of person `i`.
pub fn person_name(i: u64) -> (r: String)
    ensures
        r@ == "person_"@ + nat_text(i as nat),
{
    let mut s: String = copy_str("person_");
    push_number(&mut s, i);
    s
}

/// The properties of key-value pair `i`.
pub fn pair_properties(i: u64) -> (r: Properties)
    ensures
        r@ == pair_props(i as nat),
{
    let mut p = Properties::new();
    p.insert(copy_str("key"), Value::String(pair_key(i)));
    p.insert(copy_str("val"), Value::String(pair_value(i)));
    p
}

/// The properties of person `i`.
pub fn person_properties(i: u64) -> (r: Properties)
    ensures
        r@ == person_props(i as nat),
{
    let mut p = Properties::new();
    p.insert(copy_str("name"), Value::String(person_name(i)));
    p.insert(copy_str("age"), Value::Int((i % AGES) as i64));
    p
}

/// The pair that lookup `i` among `n` pairs asks for.
pub fn lookup_index(i: u64, n: u64) -> (r: u64)
    requires
        n > 0,
        i * 7 + 13 <= u64::MAX,
    ensures
        r == nth_lookup(i as int, n as int),
{
    (i * 7 + 13) % n
}

/// The ends of edge `i` among `n` nodes.
pub fn edge_ends(i: u64, n: u64) -> (r: (u64, u64))
    requires
        n > 0,
        i * 13 + 17 <= u64::MAX,
    ensures
        (r.0 as int, r.1 as int) == nth_edge(i as int, n as int),
{
    let src: u64 = (i * 7 + 3) % n;
    let mut dst: u64 = (i * 13 + 17) % n;
    if dst == src {
        dst = (dst + 1) % n;
    }
    (src, dst)
}

/// The node among `n` from which walk `i` starts.
pub fn start_index(i: u64, n: u64) -> (r: u64)
    requires
        n > 0,
        i * 37 <= u64::MAX,
    ensures
        r == nth_start(i as int, n as int),
{
    i * 37 % n
}

/// The end of the batch that starts at `start`.
pub fn batch_end(start: u64, batch: u64, n: u64) -> (r: u64)
    requires
        start + batch <= u64::MAX,
    ensures
        r == (if start + batch < n {
            start + batch
        } else {
            n as int
        }),
{
    if start + batch < n {
        start + batch
    } else {
        n
    }
}

/// Walks over `hops` hops along edges of a type, and gives the nodes at which
/// the ways end.
pub fn traverse<'db>(txn: &GraphReadTxn<'db>, start: NodeId, edge_type: &str, hops: u32) -> (r:
    Result<Vec<NodeId>, GraphError>)
    requires
        txn.wf(),
    ensures
        r matches Ok(v) && v@ == walk(txn.graph(), seq![start], edge_type@, hops as nat),
{
    let mut frontier: Vec<NodeId> = Vec::new();
    frontier.push(start);
    assert(frontier@ =~= seq![start]);
    let mut done: u32 = 0;
    while done < hops
        invariant
            txn.wf(),
            done <= hops,
            frontier@ == walk(txn.graph(), seq![start], edge_type@, done as nat),
        decreases hops - done,
    {
        let mut next: Vec<NodeId> = Vec::new();
        let mut i: usize = 0;
        assert(next@ =~= hop(txn.graph(), frontier@.take(0), edge_type@));
        while i < frontier.len()
            invariant
                txn.wf(),
                i <= frontier@.len(),
                next@ == hop(txn.graph(), frontier@.take(i as int), edge_type@),
            decreases frontier@.len() - i,
        {
            let found = match txn.neighbors(frontier[i], Direction::Out, Some(edge_type)) {
                Ok(v) => v,
                Err(e) => {
                    return Err(e);
                },
            };
            let ghost before = next@;
            let ghost ends = found@.map_values(|x: (u64, u64)| x.1);
            let mut j: usize = 0;
            assert(next@ =~= before + ends.take(0));
            while j < found.len()
                invariant
                    j <= found@.len(),
                    ends == found@.map_values(|x: (u64, u64)| x.1),
                    next@ == before + ends.take(j as int),
                decreases found@.len() - j,
            {
                next.push(found[j].1);
                j = j + 1;
                assert(next@ =~= before + ends.take(j as int));
            }
            proof {
                assert(ends.take(ends.len() as int) =~= ends);
                let part = frontier@.take(i + 1);
                assert(part.drop_last() =~= frontier@.take(i as int));
                assert(part.last() == frontier@[i as int]);
            }
            i = i + 1;
        }
        assert(frontier@.take(frontier@.len() as int) =~= frontier@);
        frontier = next;
        done = done + 1;
    }
    Ok(frontier)
}

} // verus!

//! The bytes of stored records.
//!
//! A record is the row of its parts as `bincode` writes them: numbers in eight
//! bytes and variant tags in four, least significant byte first, texts behind
//! their length in bytes, properties behind their number.

use crate::bytes::{
    append_bytes, le32, le32_bytes, le64, le64_bytes, lemma_le32_round_trip, lemma_le64_round_trip,
};
use crate::float::Float;
use crate::graph::GraphError;
use crate::graph::types::{
    lemma_prop_index_unique, prop_set, props_ok, EdgeRec, EdgeRecord, NodeRec, NodeRecord,
    Properties, Props, Val, Value,
};
use crate::numtext::{nat_text, push_number};
use crate::text::{copy_str, push_text};
use vstd::prelude::*;
use vstd::utf8::{
    decode_utf8, encode_utf8, encode_utf8_decode_utf8, encode_utf8_valid_utf8, valid_utf8,
};

verus! {

broadcast use crate::bytes::group_byte_lengths;

// ---------------------------------------------------------------------------
// The format
// ---------------------------------------------------------------------------

/// A signed number as the unsigned number with the same 64 bits.
pub open spec fn unsigned(i: i64) -> u64 {
    if i >= 0 {
        i as u64
    } else {
        (i + 18446744073709551616) as u64
    }
}

/// An unsigned number as the signed number with the same 64 bits.
pub open spec fn signed(v: u64) -> i64 {
    if v < 9223372036854775808 {
        v as i64
    } else {
        (v - 18446744073709551616) as i64
    }
}

/// A text: the length of its UTF-8 bytes, and the bytes.
pub open spec fn enc_text(s: Seq<char>) -> Seq<u8> {
    le64_bytes(encode_utf8(s).len() as u64) + encode_utf8(s)
}

/// A value: the tag of its kind, and what it holds.
pub open spec fn enc_value(v: Val) -> Seq<u8> {
    match v {
        Val::Null => le32_bytes(0),
        Val::Bool(b) => le32_bytes(1) + seq![if b {
            1u8
        } else {
            0u8
        }],
        Val::Int(i) => le32_bytes(2) + le64_bytes(unsigned(i)),
        Val::Float(bits) => le32_bytes(3) + le64_bytes(bits),
        Val::Str(s) => le32_bytes(4) + enc_text(s),
    }
}

/// Properties one after the other: the name, then the value.
pub open spec fn enc_entries(ps: Props) -> Seq<u8>
    decreases ps.len(),
{
    if ps.len() == 0 {
        Seq::empty()
    } else {
        enc_entries(ps.drop_last()) + enc_text(ps.last().0) + enc_value(ps.last().1)
    }
}

/// Properties: their number, and the properties.
pub open spec fn enc_props(ps: Props) -> Seq<u8> {
    le64_bytes(ps.len() as u64) + enc_entries(ps)
}

/// A node: its label, then its properties.
pub open spec fn enc_node(r: NodeRec) -> Seq<u8> {
    enc_text(r.label) + enc_props(r.props)
}

/// An edge: its two nodes, its type, its properties.
pub open spec fn enc_edge(r: EdgeRec) -> Seq<u8> {
    le64_bytes(r.src) + le64_bytes(r.dst) + enc_text(r.edge_type) + enc_props(r.props)
}

/// A number at the front of `b`, and what follows it.
pub open spec fn dec_number(b: Seq<u8>) -> Option<(u64, Seq<u8>)> {
    if b.len() < 8 {
        None
    } else {
        Some((le64(b, 0) as u64, b.skip(8)))
    }
}

/// A tag at the front of `b`, and what follows it.
pub open spec fn dec_tag(b: Seq<u8>) -> Option<(u32, Seq<u8>)> {
    if b.len() < 4 {
        None
    } else {
        Some((le32(b, 0) as u32, b.skip(4)))
    }
}

/// A flag at the front of `b`, and what follows it.
pub open spec fn dec_flag(b: Seq<u8>) -> Option<(bool, Seq<u8>)> {
    if b.len() < 1 || b[0] > 1 {
        None
    } else {
        Some((b[0] == 1, b.skip(1)))
    }
}

/// A text at the front of `b`, and what follows it.
pub open spec fn dec_text(b: Seq<u8>) -> Option<(Seq<char>, Seq<u8>)> {
    if b.len() < 8 || le64(b, 0) > b.len() - 8 || !valid_utf8(b.subrange(8, 8 + le64(b, 0))) {
        None
    } else {
        Some((decode_utf8(b.subrange(8, 8 + le64(b, 0))), b.skip(8 + le64(b, 0))))
    }
}

/// A value at the front of `b`, and what follows it.
pub open spec fn dec_value(b: Seq<u8>) -> Option<(Val, Seq<u8>)> {
    match dec_tag(b) {
        None => None,
        Some((tag, r)) => if tag == 0 {
            Some((Val::Null, r))
        } else if tag == 1 {
            match dec_flag(r) {
                Some((f, r2)) => Some((Val::Bool(f), r2)),
                None => None,
            }
        } else if tag == 2 {
            match dec_number(r) {
                Some((n, r2)) => Some((Val::Int(signed(n)), r2)),
                None => None,
            }
        } else if tag == 3 {
            match dec_number(r) {
                Some((n, r2)) => Some((Val::Float(n), r2)),
                None => None,
            }
        } else if tag == 4 {
            match dec_text(r) {
                Some((s, r2)) => Some((Val::Str(s), r2)),
                None => None,
            }
        } else {
            None
        },
    }
}

/// `n` properties at the front of `b`, set one after the other on top of
/// `acc`, and what follows them.
pub open spec fn dec_entries(b: Seq<u8>, n: nat, acc: Props) -> Option<(Props, Seq<u8>)>
    decreases n,
{
    if n == 0 {
        Some((acc, b))
    } else {
        match dec_text(b) {
            None => None,
            Some((k, r)) => match dec_value(r) {
                None => None,
                Some((v, r2)) => dec_entries(r2, (n - 1) as nat, prop_set(acc, k, v)),
            },
        }
    }
}

/// Properties at the front of `b`, and what follows them.
pub open spec fn dec_props(b: Seq<u8>) -> Option<(Props, Seq<u8>)> {
    match dec_number(b) {
        None => None,
        Some((n, r)) => dec_entries(r, n as nat, Seq::empty()),
    }
}

/// The node record that `b` starts with.
pub open spec fn dec_node(b: Seq<u8>) -> Option<NodeRec> {
    match dec_text(b) {
        None => None,
        Some((label, r)) => match dec_props(r) {
            None => None,
            Some((props, _)) => Some(NodeRec { label, props }),
        },
    }
}

/// The edge record that `b` starts with.
pub open spec fn dec_edge(b: Seq<u8>) -> Option<EdgeRec> {
    match dec_number(b) {
        None => None,
        Some((src, r1)) => match dec_number(r1) {
            None => None,
            Some((dst, r2)) => match dec_text(r2) {
                None => None,
                Some((edge_type, r3)) => match dec_props(r3) {
                    None => None,
                    Some((props, _)) => Some(EdgeRec { src, dst, edge_type, props }),
                },
            },
        },
    }
}

// ---------------------------------------------------------------------------
// Round trips
// ---------------------------------------------------------------------------

/// Whether every text of the value can have its length written.
pub open spec fn storable(v: Val) -> bool {
    v matches Val::Str(s) ==> encode_utf8(s).len() <= u64::MAX
}

/// Whether every text of the properties can have its length written.
pub open spec fn storable_props(ps: Props) -> bool {
    &&& ps.len() <= u64::MAX
    &&& forall|i: int|
        0 <= i < ps.len() ==> encode_utf8((#[trigger] ps[i]).0).len() <= u64::MAX && storable(
            ps[i].1,
        )
}

proof fn lemma_number(v: u64, rest: Seq<u8>)
    ensures
        dec_number(le64_bytes(v) + rest) == Some((v, rest)),
{
    let b = le64_bytes(v) + rest;
    lemma_le64_round_trip(v);
    assert(b.subrange(0, 8) =~= le64_bytes(v));
    assert(le64(b, 0) == le64(b.subrange(0, 8), 0));
    assert(b.skip(8) =~= rest);
}

proof fn lemma_tag(v: u32, rest: Seq<u8>)
    ensures
        dec_tag(le32_bytes(v) + rest) == Some((v, rest)),
{
    let b = le32_bytes(v) + rest;
    lemma_le32_round_trip(v);
    assert(b.subrange(0, 4) =~= le32_bytes(v));
    assert(le32(b, 0) == le32(b.subrange(0, 4), 0));
    assert(b.skip(4) =~= rest);
}

proof fn lemma_text(s: Seq<char>, rest: Seq<u8>)
    requires
        encode_utf8(s).len() <= u64::MAX,
    ensures
        dec_text(enc_text(s) + rest) == Some((s, rest)),
{
    let t = encode_utf8(s);
    let n = t.len() as u64;
    let b = enc_text(s) + rest;
    lemma_le64_round_trip(n);
    assert(b.subrange(0, 8) =~= le64_bytes(n));
    assert(le64(b, 0) == le64(b.subrange(0, 8), 0));
    assert(b.subrange(8, 8 + n) =~= t);
    assert(b.skip(8 + n) =~= rest);
    encode_utf8_valid_utf8(s);
    encode_utf8_decode_utf8(s);
}

/// A value reads back from its bytes, whatever follows them.
pub proof fn lemma_value_round_trip(v: Val, rest: Seq<u8>)
    requires
        storable(v),
    ensures
        dec_value(enc_value(v) + rest) == Some((v, rest)),
{
    let b = enc_value(v) + rest;
    match v {
        Val::Null => {
            lemma_tag(0, rest);
        },
        Val::Bool(f) => {
            let one = seq![if f {
                1u8
            } else {
                0u8
            }];
            assert(b =~= le32_bytes(1) + (one + rest));
            lemma_tag(1, one + rest);
            assert((one + rest).skip(1) =~= rest);
        },
        Val::Int(i) => {
            assert(b =~= le32_bytes(2) + (le64_bytes(unsigned(i)) + rest));
            lemma_tag(2, le64_bytes(unsigned(i)) + rest);
            lemma_number(unsigned(i), rest);
            assert(signed(unsigned(i)) == i);
        },
        Val::Float(bits) => {
            assert(b =~= le32_bytes(3) + (le64_bytes(bits) + rest));
            lemma_tag(3, le64_bytes(bits) + rest);
            lemma_number(bits, rest);
        },
        Val::Str(s) => {
            assert(b =~= le32_bytes(4) + (enc_text(s) + rest));
            lemma_tag(4, enc_text(s) + rest);
            lemma_text(s, rest);
        },
    }
}

/// The bytes of properties from `i` on follow those of the first `i`.
proof fn lemma_entries_split(ps: Props, i: int)
    requires
        0 <= i < ps.len(),
    ensures
        enc_entries(ps.skip(i)) == enc_text(ps[i].0) + enc_value(ps[i].1) + enc_entries(
            ps.skip(i + 1),
        ),
    decreases ps.len() - i,
{
    let s = ps.skip(i);
    if i + 1 == ps.len() {
        assert(s.drop_last() =~= Seq::empty());
        assert(ps.skip(i + 1) =~= Seq::empty());
        assert(enc_entries(Seq::<(Seq<char>, Val)>::empty()) =~= Seq::empty());
        assert(enc_entries(s) =~= enc_text(ps[i].0) + enc_value(ps[i].1) + enc_entries(
            ps.skip(i + 1),
        ));
    } else {
        let q = ps.drop_last();
        lemma_entries_split(q, i);
        assert(q.skip(i) =~= s.drop_last());
        assert(q.skip(i + 1) =~= ps.skip(i + 1).drop_last());
        assert(ps.skip(i + 1).last() == ps.last());
        assert(enc_entries(s) =~= enc_text(ps[i].0) + enc_value(ps[i].1) + enc_entries(
            ps.skip(i + 1),
        ));
    }
}

proof fn lemma_entries_round_trip(ps: Props, i: int, rest: Seq<u8>)
    requires
        0 <= i <= ps.len(),
        props_ok(ps),
        storable_props(ps),
    ensures
        dec_entries(enc_entries(ps.skip(i)) + rest, (ps.len() - i) as nat, ps.take(i)) == Some(
            (ps, rest),
        ),
    decreases ps.len() - i,
{
    let b = enc_entries(ps.skip(i)) + rest;
    if i == ps.len() {
        assert(ps.skip(i) =~= Seq::empty());
        assert(b =~= rest);
        assert(ps.take(i) =~= ps);
    } else {
        let k = ps[i].0;
        let v = ps[i].1;
        lemma_entries_split(ps, i);
        let tail = enc_entries(ps.skip(i + 1)) + rest;
        assert(b =~= enc_text(k) + (enc_value(v) + tail));
        assert(dec_text(b) == Some((k, enc_value(v) + tail))) by {
            lemma_text(k, enc_value(v) + tail);
        }
        assert(dec_value(enc_value(v) + tail) == Some((v, tail))) by {
            lemma_value_round_trip(v, tail);
        }
        assert(prop_set(ps.take(i), k, v) == ps.take(i + 1)) by {
            assert forall|j: int| 0 <= j < i implies (#[trigger] ps.take(i)[j]).0 != k by {
                assert(ps[j].0 != ps[i].0);
            }
            lemma_prop_index_unique(ps.take(i), k, i);
            assert(prop_set(ps.take(i), k, v) =~= ps.take(i + 1));
        }
        lemma_entries_round_trip(ps, i + 1, rest);
        lemma_entries_step(
            b,
            (ps.len() - i) as nat,
            ps.take(i),
            k,
            enc_value(v) + tail,
            v,
            tail,
        );
    }
}

proof fn lemma_entries_step(
    b: Seq<u8>,
    n: nat,
    acc: Props,
    k: Seq<char>,
    r: Seq<u8>,
    v: Val,
    r2: Seq<u8>,
)
    requires
        n > 0,
        dec_text(b) == Some((k, r)),
        dec_value(r) == Some((v, r2)),
    ensures
        dec_entries(b, n, acc) == dec_entries(r2, (n - 1) as nat, prop_set(acc, k, v)),
{
}

proof fn lemma_props_round_trip(ps: Props, rest: Seq<u8>)
    requires
        props_ok(ps),
        storable_props(ps),
    ensures
        dec_props(enc_props(ps) + rest) == Some((ps, rest)),
{
    let e = enc_entries(ps) + rest;
    assert(enc_props(ps) + rest =~= le64_bytes(ps.len() as u64) + e);
    lemma_number(ps.len() as u64, e);
    lemma_entries_round_trip(ps, 0, rest);
    assert(ps.skip(0) =~= ps);
    assert(ps.take(0) =~= Seq::empty());
}

/// A node record reads back from its bytes.
pub proof fn lemma_node_round_trip(r: NodeRec)
    requires
        encode_utf8(r.label).len() <= u64::MAX,
        props_ok(r.props),
        storable_props(r.props),
    ensures
        dec_node(enc_node(r)) == Some(r),
{
    let none = Seq::<u8>::empty();
    lemma_text(r.label, enc_props(r.props));
    lemma_props_round_trip(r.props, none);
    assert(enc_props(r.props) + none =~= enc_props(r.props));
}

/// An edge record reads back from its bytes.
pub proof fn lemma_edge_round_trip(r: EdgeRec)
    requires
        encode_utf8(r.edge_type).len() <= u64::MAX,
        props_ok(r.props),
        storable_props(r.props),
    ensures
        dec_edge(enc_edge(r)) == Some(r),
{
    let none = Seq::<u8>::empty();
    let p = enc_props(r.props);
    let t = enc_text(r.edge_type) + p;
    let d = le64_bytes(r.dst) + t;
    assert(enc_edge(r) =~= le64_bytes(r.src) + d);
    assert(dec_number(enc_edge(r)) == Some((r.src, d))) by {
        lemma_number(r.src, d);
    }
    assert(dec_number(d) == Some((r.dst, t))) by {
        lemma_number(r.dst, t);
    }
    assert(dec_text(t) == Some((r.edge_type, p))) by {
        lemma_text(r.edge_type, p);
    }
    assert(dec_props(p) == Some((r.props, none))) by {
        lemma_props_round_trip(r.props, none);
        assert(p + none =~= p);
    }
    lemma_edge_parts(enc_edge(r), d, t, p, none, r);
}

proof fn lemma_edge_parts(
    b: Seq<u8>,
    d: Seq<u8>,
    t: Seq<u8>,
    p: Seq<u8>,
    rest: Seq<u8>,
    r: EdgeRec,
)
    requires
        dec_number(b) == Some((r.src, d)),
        dec_number(d) == Some((r.dst, t)),
        dec_text(t) == Some((r.edge_type, p)),
        dec_props(p) == Some((r.props, rest)),
    ensures
        dec_edge(b) == Some(r),
{
}

/// What decoding gives keeps names apart.
pub proof fn lemma_decoded_props_ok(b: Seq<u8>, n: nat, acc: Props)
    requires
        props_ok(acc),
    ensures
        dec_entries(b, n, acc) matches Some((ps, _)) ==> props_ok(ps),
    decreases n,
{
    if n > 0 {
        if let Some((k, r)) = dec_text(b) {
            if let Some((v, r2)) = dec_value(r) {
                crate::graph::types::lemma_prop_set(acc, k, v, k);
                lemma_decoded_props_ok(r2, (n - 1) as nat, prop_set(acc, k, v));
            }
        }
    }
}

// ---------------------------------------------------------------------------
// Calls of bincode
// ---------------------------------------------------------------------------

/// The error of `bincode`.
#[verifier::external_type_specification]
#[verifier::external_body]
pub struct ExBincodeErrorKind(bincode::ErrorKind);

/// Calls `bincode::serialize` on a `u64`, which gives its eight bytes, least
/// significant first.
#[verifier::external_body]
fn write_number(v: u64) -> (r: Result<Vec<u8>, Box<bincode::ErrorKind>>)
    ensures
        r is Ok,
        r->Ok_0@ == le64_bytes(v),
{
    bincode::serialize(&v)
}

/// Calls `bincode::serialize` on a `u32`, which gives its four bytes, least
/// significant first; an enum's variant index is written the same way.
#[verifier::external_body]
fn write_tag(v: u32) -> (r: Result<Vec<u8>, Box<bincode::ErrorKind>>)
    ensures
        r is Ok,
        r->Ok_0@ == le32_bytes(v),
{
    bincode::serialize(&v)
}

/// Calls `bincode::serialize` on a `bool`, which gives one byte, 1 or 0.
#[verifier::external_body]
fn write_flag(v: bool) -> (r: Result<Vec<u8>, Box<bincode::ErrorKind>>)
    ensures
        r is Ok,
        r->Ok_0@ == seq![if v {
            1u8
        } else {
            0u8
        }],
{
    bincode::serialize(&v)
}

/// Calls `bincode::serialize` on a `str`, which gives the number of its bytes
/// as a `u64`, and its UTF-8 bytes.
#[verifier::external_body]
fn write_text(s: &str) -> (r: Result<Vec<u8>, Box<bincode::ErrorKind>>)
    ensures
        r is Ok,
        r->Ok_0@ == enc_text(s@),
{
    bincode::serialize(s)
}

/// Calls `bincode::deserialize` for a `u64`: the first eight bytes, least
/// significant first, with more bytes allowed behind them, and an error where
/// there are fewer.
#[verifier::external_body]
fn parse_number(b: &[u8]) -> (r: Result<u64, Box<bincode::ErrorKind>>)
    ensures
        match r {
            Ok(v) => b@.len() >= 8 && v == le64(b@, 0),
            Err(_) => b@.len() < 8,
        },
{
    bincode::deserialize(b)
}

/// Calls `bincode::deserialize` for a `u32`: the first four bytes, least
/// significant first, with more bytes allowed behind them, and an error where
/// there are fewer; an enum's variant index is read the same way.
#[verifier::external_body]
fn parse_tag(b: &[u8]) -> (r: Result<u32, Box<bincode::ErrorKind>>)
    ensures
        match r {
            Ok(v) => b@.len() >= 4 && v == le32(b@, 0),
            Err(_) => b@.len() < 4,
        },
{
    bincode::deserialize(b)
}

/// Calls `bincode::deserialize` for a `bool`: the first byte, 1 or 0, with more
/// bytes allowed behind it, and an error for any other byte or none.
#[verifier::external_body]
fn parse_flag(b: &[u8]) -> (r: Result<bool, Box<bincode::ErrorKind>>)
    ensures
        match r {
            Ok(v) => b@.len() >= 1 && b@[0] <= 1 && v == (b@[0] == 1),
            Err(_) => b@.len() < 1 || b@[0] > 1,
        },
{
    bincode::deserialize(b)
}

/// Calls `bincode::deserialize` for a `String`: a `u64` length and that many
/// bytes of UTF-8, with more bytes allowed behind them, and an error where there
/// are fewer or where they are not UTF-8.
#[verifier::external_body]
fn parse_text(b: &[u8]) -> (r: Result<String, Box<bincode::ErrorKind>>)
    ensures
        match r {
            Ok(s) => dec_text(b@) matches Some((t, _)) && s@ == t && encode_utf8(s@)
                == b@.subrange(8, 8 + le64(b@, 0)),
            Err(_) => dec_text(b@) is None,
        },
{
    bincode::deserialize(b)
}

/// Calls `to_string` on an error of `bincode`. Nothing is claimed of the text.
#[verifier::external_body]
fn error_text(e: &bincode::ErrorKind) -> (r: String) {
    e.to_string()
}

fn codec_error(e: Box<bincode::ErrorKind>) -> (r: GraphError)
    ensures
        r@ is Serialization,
{
    GraphError::Serialization(error_text(&*e))
}

// ---------------------------------------------------------------------------
// Writing
// ---------------------------------------------------------------------------

fn put(out: &mut Vec<u8>, part: Result<Vec<u8>, Box<bincode::ErrorKind>>) -> (r: Result<
    (),
    GraphError,
>)
    requires
        part is Ok,
    ensures
        r is Ok,
        final(out)@ == old(out)@ + part->Ok_0@,
{
    match part {
        Ok(b) => {
            append_bytes(out, b.as_slice());
            Ok(())
        },
        Err(e) => Err(codec_error(e)),
    }
}

/// A signed number as the unsigned number with the same bits.
fn to_unsigned(i: i64) -> (r: u64)
    ensures
        r == unsigned(i),
{
    if i >= 0 {
        i as u64
    } else {
        (i + 9223372036854775807 + 1) as u64 + 9223372036854775808
    }
}

/// An unsigned number as the signed number with the same bits.
fn to_signed(v: u64) -> (r: i64)
    ensures
        r == signed(v),
{
    if v < 9223372036854775808 {
        v as i64
    } else {
        (v - 9223372036854775808) as i64 - 9223372036854775807 - 1
    }
}

fn put_value(out: &mut Vec<u8>, v: &Value) -> (r: Result<(), GraphError>)
    ensures
        r is Ok,
        final(out)@ == old(out)@ + enc_value(v@),
{
    let ghost before = out@;
    match v {
        Value::Null => {
            let _ = put(out, write_tag(0));
        },
        Value::Bool(b) => {
            let _ = put(out, write_tag(1));
            let _ = put(out, write_flag(*b));
        },
        Value::Int(i) => {
            let _ = put(out, write_tag(2));
            let _ = put(out, write_number(to_unsigned(*i)));
        },
        Value::Float(f) => {
            let _ = put(out, write_tag(3));
            let _ = put(out, write_number(f.bits));
        },
        Value::String(s) => {
            let _ = put(out, write_tag(4));
            let _ = put(out, write_text(s.as_str()));
        },
    }
    assert(out@ =~= before + enc_value(v@));
    Ok(())
}

fn put_props(out: &mut Vec<u8>, props: &Properties) -> (r: Result<(), GraphError>)
    ensures
        r is Ok,
        final(out)@ == old(out)@ + enc_props(props@),
{
    let ghost before = out@;
    let ghost ps = props@;
    let n: usize = props.len();
    let _ = put(out, write_number(n as u64));
    let ghost first = out@;
    let mut i: usize = 0;
    assert(ps.take(0) =~= Seq::empty());
    assert(first + enc_entries(ps.take(0)) =~= first);
    while i < n
        invariant
            n == ps.len(),
            ps == props@,
            i <= n,
            out@ == first + enc_entries(ps.take(i as int)),
        decreases n - i,
    {
        let _ = put(out, write_text(props.name(i)));
        let _ = put_value(out, props.value(i));
        proof {
            assert(ps.take(i + 1).drop_last() =~= ps.take(i as int));
            assert(ps.take(i + 1).last() == ps[i as int]);
            assert(out@ =~= first + enc_entries(ps.take(i + 1)));
        }
        i = i + 1;
    }
    proof {
        assert(ps.take(n as int) =~= ps);
        assert(out@ =~= before + enc_props(ps));
    }
    Ok(())
}

/// The bytes of a node record.
pub fn encode_node(rec: &NodeRecord) -> (r: Result<Vec<u8>, GraphError>)
    ensures
        r matches Ok(b) && b@ == enc_node(rec@),
{
    let mut out: Vec<u8> = Vec::new();
    let _ = put(&mut out, write_text(rec.label.as_str()));
    let _ = put_props(&mut out, &rec.props);
    assert(out@ =~= enc_node(rec@));
    Ok(out)
}

/// The bytes of an edge record.
pub fn encode_edge(rec: &EdgeRecord) -> (r: Result<Vec<u8>, GraphError>)
    ensures
        r matches Ok(b) && b@ == enc_edge(rec@),
{
    let mut out: Vec<u8> = Vec::new();
    let _ = put(&mut out, write_number(rec.src));
    let _ = put(&mut out, write_number(rec.dst));
    let _ = put(&mut out, write_text(rec.edge_type.as_str()));
    let _ = put_props(&mut out, &rec.props);
    assert(out@ =~= enc_edge(rec@));
    Ok(out)
}

// ---------------------------------------------------------------------------
// Reading
// ---------------------------------------------------------------------------

fn take_number(b: &[u8], pos: usize) -> (r: Result<(u64, usize), GraphError>)
    requires
        pos <= b@.len(),
    ensures
        match r {
            Ok((v, p)) => p <= b@.len() && dec_number(b@.skip(pos as int)) == Some(
                (v, b@.skip(p as int)),
            ),
            Err(e) => dec_number(b@.skip(pos as int)) is None && e@ is Serialization,
        },
{
    assert(b@.subrange(pos as int, b@.len() as int) =~= b@.skip(pos as int));
    match parse_number(vstd::slice::slice_subrange(b, pos, b.len())) {
        Ok(v) => {
            assert(b@.skip(pos as int).skip(8) =~= b@.skip(pos + 8));
            Ok((v, pos + 8))
        },
        Err(e) => Err(codec_error(e)),
    }
}

fn take_text(b: &[u8], pos: usize) -> (r: Result<(String, usize), GraphError>)
    requires
        pos <= b@.len(),
    ensures
        match r {
            Ok((s, p)) => p <= b@.len() && dec_text(b@.skip(pos as int)) == Some(
                (s@, b@.skip(p as int)),
            ),
            Err(e) => dec_text(b@.skip(pos as int)) is None && e@ is Serialization,
        },
{
    assert(b@.subrange(pos as int, b@.len() as int) =~= b@.skip(pos as int));
    match parse_text(vstd::slice::slice_subrange(b, pos, b.len())) {
        Ok(s) => {
            let n: usize = s.as_str().as_bytes().len();
            proof {
                assert(n == le64(b@.skip(pos as int), 0));
                assert(b@.skip(pos as int).skip(8 + n) =~= b@.skip(pos + 8 + n));
            }
            Ok((s, pos + 8 + n))
        },
        Err(e) => Err(codec_error(e)),
    }
}

/// What is said of a tag that no kind of value has.
pub fn unknown_tag(tag: u32) -> (r: String)
    ensures
        r@ == "invalid value: integer `"@ + nat_text(tag as nat)
            + "`, expected variant index 0 <= i < 5"@,
{
    let mut s = copy_str("invalid value: integer `");
    push_number(&mut s, tag as u64);
    push_text(&mut s, "`, expected variant index 0 <= i < 5");
    s
}

fn take_value(b: &[u8], pos: usize) -> (r: Result<(Value, usize), GraphError>)
    requires
        pos <= b@.len(),
    ensures
        match r {
            Ok((v, p)) => p <= b@.len() && dec_value(b@.skip(pos as int)) == Some(
                (v@, b@.skip(p as int)),
            ),
            Err(e) => dec_value(b@.skip(pos as int)) is None && e@ is Serialization,
        },
{
    assert(b@.subrange(pos as int, b@.len() as int) =~= b@.skip(pos as int));
    let tag: u32 = match parse_tag(vstd::slice::slice_subrange(b, pos, b.len())) {
        Ok(t) => t,
        Err(e) => {
            return Err(codec_error(e));
        },
    };
    assert(b@.skip(pos as int).skip(4) =~= b@.skip(pos + 4));
    let at: usize = pos + 4;
    if tag == 0 {
        Ok((Value::Null, at))
    } else if tag == 1 {
        assert(b@.subrange(at as int, b@.len() as int) =~= b@.skip(at as int));
        match parse_flag(vstd::slice::slice_subrange(b, at, b.len())) {
            Ok(f) => {
                assert(b@.skip(at as int).skip(1) =~= b@.skip(at + 1));
                Ok((Value::Bool(f), at + 1))
            },
            Err(e) => Err(codec_error(e)),
        }
    } else if tag == 2 {
        match take_number(b, at) {
            Ok((n, p)) => Ok((Value::Int(to_signed(n)), p)),
            Err(e) => Err(e),
        }
    } else if tag == 3 {
        match take_number(b, at) {
            Ok((n, p)) => Ok((Value::Float(Float { bits: n }), p)),
            Err(e) => Err(e),
        }
    } else if tag == 4 {
        match take_text(b, at) {
            Ok((s, p)) => Ok((Value::String(s), p)),
            Err(e) => Err(e),
        }
    } else {
        Err(GraphError::Serialization(unknown_tag(tag)))
    }
}

fn take_props(b: &[u8], pos: usize) -> (r: Result<(Properties, usize), GraphError>)
    requires
        pos <= b@.len(),
    ensures
        match r {
            Ok((ps, p)) => p <= b@.len() && dec_props(b@.skip(pos as int)) == Some(
                (ps@, b@.skip(p as int)),
            ),
            Err(e) => dec_props(b@.skip(pos as int)) is None && e@ is Serialization,
        },
{
    let (n, start) = match take_number(b, pos) {
        Ok(x) => x,
        Err(e) => {
            return Err(e);
        },
    };
    let mut at: usize = start;
    let mut props = Properties::new();
    let mut left: u64 = n;
    while left > 0
        invariant
            at <= b@.len(),
            dec_props(b@.skip(pos as int)) == dec_entries(b@.skip(at as int), left as nat, props@),
        decreases left,
    {
        let (key, at2) = match take_text(b, at) {
            Ok(x) => x,
            Err(e) => {
                return Err(e);
            },
        };
        let (value, at3) = match take_value(b, at2) {
            Ok(x) => x,
            Err(e) => {
                return Err(e);
            },
        };
        props.insert(key, value);
        at = at3;
        left = left - 1;
    }
    Ok((props, at))
}

/// The node record that stored bytes start with.
pub fn decode_node(b: &[u8]) -> (r: Result<NodeRecord, GraphError>)
    ensures
        match r {
            Ok(rec) => dec_node(b@) == Some(rec@),
            Err(e) => dec_node(b@) is None && e@ is Serialization,
        },
{
    assert(b@.skip(0) =~= b@);
    let (label, at) = match take_text(b, 0) {
        Ok(x) => x,
        Err(e) => {
            return Err(e);
        },
    };
    let (props, _) = match take_props(b, at) {
        Ok(x) => x,
        Err(e) => {
            return Err(e);
        },
    };
    Ok(NodeRecord { label, props })
}

/// The edge record that stored bytes start with.
pub fn decode_edge(b: &[u8]) -> (r: Result<EdgeRecord, GraphError>)
    ensures
        match r {
            Ok(rec) => dec_edge(b@) == Some(rec@),
            Err(e) => dec_edge(b@) is None && e@ is Serialization,
        },
{
    assert(b@.skip(0) =~= b@);
    let (src, a1) = match take_number(b, 0) {
        Ok(x) => x,
        Err(e) => {
            return Err(e);
        },
    };
    let (dst, a2) = match take_number(b, a1) {
        Ok(x) => x,
        Err(e) => {
            return Err(e);
        },
    };
    let (edge_type, a3) = match take_text(b, a2) {
        Ok(x) => x,
        Err(e) => {
            return Err(e);
        },
    };
    let (props, _) = match take_props(b, a3) {
        Ok(x) => x,
        Err(e) => {
            return Err(e);
        },
    };
    Ok(EdgeRecord { src, dst, edge_type, props })
}

} // verus!

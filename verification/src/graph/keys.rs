//! Keys of the index trees.
//!
//! An adjacency key is 29 bytes: the node, the direction, the hash of the edge
//! type, the node at the other end, the edge. A label key is 12 bytes: the hash
//! of the label, the node. All numbers have their most significant byte first,
//! so that the keys of one node, or of one label, stand together.

use crate::bytes::{
    be32, be32_bytes, be64, be64_bytes, key_le, key_lt, lemma_be32_inverse, lemma_be32_order,
    lemma_be32_round_trip, lemma_be64_inverse, lemma_be64_order, lemma_be64_round_trip,
    lemma_key_irreflexive, lemma_key_parts, read_be64,
};
use crate::graph::types::{Direction, EdgeId, NodeId};
use vstd::prelude::*;
use vstd::utf8::encode_utf8;

verus! {

broadcast use crate::bytes::group_byte_lengths;

pub const ADJ_KEY_LEN: usize = 29;

pub const LABEL_KEY_LEN: usize = 12;

/// One step of the FNV-1a hash.
pub open spec fn hash_step(h: u32, b: u8) -> u32 {
    (((h ^ (b as u32)) as int * 16777619) % 4294967296) as u32
}

/// The FNV-1a hash of a byte string.
pub open spec fn hash_bytes(s: Seq<u8>) -> u32
    decreases s.len(),
{
    if s.len() == 0 {
        2166136261
    } else {
        hash_step(hash_bytes(s.drop_last()), s.last())
    }
}

/// The hash of a text: that of its UTF-8 bytes.
pub open spec fn hash_of(s: Seq<char>) -> u32 {
    hash_bytes(encode_utf8(s))
}

/// The byte that stands for a direction.
pub open spec fn direction_code(d: Direction) -> u8 {
    match d {
        Direction::Out => 0,
        Direction::In => 1,
    }
}

/// The other direction.
pub open spec fn opposite(d: Direction) -> Direction {
    match d {
        Direction::Out => Direction::In,
        Direction::In => Direction::Out,
    }
}

/// An adjacency key.
pub open spec fn adj_key(src: u64, dir: Direction, hash: u32, dst: u64, edge: u64) -> Seq<u8> {
    adj_dir_prefix(src, dir) + be32_bytes(hash) + be64_bytes(dst) + be64_bytes(edge)
}

/// What the adjacency keys of a node in one direction start with.
pub open spec fn adj_dir_prefix(src: u64, dir: Direction) -> Seq<u8> {
    be64_bytes(src) + seq![direction_code(dir)]
}

/// What the adjacency keys of a node in one direction with one type hash start
/// with.
pub open spec fn adj_type_prefix(src: u64, dir: Direction, hash: u32) -> Seq<u8> {
    adj_dir_prefix(src, dir) + be32_bytes(hash)
}

/// A label key.
pub open spec fn label_key(hash: u32, node: u64) -> Seq<u8> {
    be32_bytes(hash) + be64_bytes(node)
}

/// Whether `k` starts with `p`.
pub open spec fn starts_with(k: Seq<u8>, p: Seq<u8>) -> bool {
    p.len() <= k.len() && k.take(p.len() as int) == p
}

/// `n` times the byte `b`.
pub open spec fn repeated(b: u8, n: int) -> Seq<u8> {
    Seq::new(n as nat, |i: int| b)
}

/// The keys of one length between a prefix filled up with zeros and the same
/// prefix filled up with 255s are those that start with the prefix.
pub proof fn lemma_prefix_range(p: Seq<u8>, n: int, k: Seq<u8>)
    requires
        0 <= n,
        k.len() == p.len() + n,
    ensures
        key_le(p + repeated(0, n), k) && key_le(k, p + repeated(255, n)) <==> starts_with(k, p),
    decreases k.len(),
{
    let lo = p + repeated(0, n);
    let hi = p + repeated(255, n);
    if p.len() == 0 {
        assert(lo =~= repeated(0, n));
        assert(hi =~= repeated(255, n));
        assert(k.take(0) =~= p);
        lemma_all_between(n, k);
    } else {
        let q = p.drop_first();
        let r = k.drop_first();
        assert(lo.drop_first() =~= q + repeated(0, n));
        assert(hi.drop_first() =~= q + repeated(255, n));
        lemma_prefix_range(q, n, r);
        assert(lo[0] == p[0] && hi[0] == p[0]);
        if k[0] == p[0] {
            assert(key_lt(lo, k) == key_lt(lo.drop_first(), r));
            assert(key_lt(k, hi) == key_lt(r, hi.drop_first()));
            assert(lo == k <==> lo.drop_first() == r) by {
                if lo.drop_first() == r {
                    assert(lo =~= seq![lo[0]] + lo.drop_first());
                    assert(k =~= seq![k[0]] + r);
                }
            }
            assert(hi == k <==> hi.drop_first() == r) by {
                if hi.drop_first() == r {
                    assert(hi =~= seq![hi[0]] + hi.drop_first());
                    assert(k =~= seq![k[0]] + r);
                }
            }
            assert(k.take(p.len() as int).drop_first() =~= r.take(q.len() as int));
            assert(k.take(p.len() as int) == p <==> r.take(q.len() as int) == q) by {
                if r.take(q.len() as int) == q {
                    assert(k.take(p.len() as int) =~= p) by {
                        assert forall|i: int| 0 <= i < p.len() implies k[i] == p[i] by {
                            if i > 0 {
                                assert(r.take(q.len() as int)[i - 1] == q[i - 1]);
                            }
                        }
                    }
                }
            }
        } else {
            assert(k.take(p.len() as int)[0] == k[0]);
        }
    }
}

proof fn lemma_all_between(n: int, k: Seq<u8>)
    requires
        0 <= n,
        k.len() == n,
    ensures
        key_le(repeated(0, n), k),
        key_le(k, repeated(255, n)),
    decreases n,
{
    let lo = repeated(0, n);
    let hi = repeated(255, n);
    if n == 0 {
        assert(lo =~= k);
        assert(hi =~= k);
    } else {
        assert(lo.drop_first() =~= repeated(0, n - 1));
        assert(hi.drop_first() =~= repeated(255, n - 1));
        lemma_all_between(n - 1, k.drop_first());
        if k[0] == 0 && lo.drop_first() == k.drop_first() {
            assert(lo =~= seq![lo[0]] + lo.drop_first());
            assert(k =~= seq![k[0]] + k.drop_first());
        }
        if k[0] == 255 && hi.drop_first() == k.drop_first() {
            assert(hi =~= seq![hi[0]] + hi.drop_first());
            assert(k =~= seq![k[0]] + k.drop_first());
        }
    }
}

proof fn lemma_zero_and_max()
    ensures
        be64_bytes(0) == repeated(0, 8),
        be64_bytes(u64::MAX) == repeated(255, 8),
        be32_bytes(0) == repeated(0, 4),
        be32_bytes(u32::MAX) == repeated(255, 4),
{
    reveal(be32_bytes);
    reveal(be64_bytes);
    assert(be32_bytes(0) =~= repeated(0, 4));
    assert(be32_bytes(u32::MAX) =~= repeated(255, 4));
    assert(u64::MAX % 4294967296 == u32::MAX);
    assert(u64::MAX / 4294967296 == u32::MAX);
    assert(be64_bytes(0) =~= repeated(0, 8));
    assert(be64_bytes(u64::MAX) =~= repeated(255, 8));
}

/// The range from `adj_prefix_start` to `adj_prefix_end` holds exactly the keys
/// of the node's edges in that direction whose type has that hash.
pub proof fn lemma_type_range(node: u64, dir: Direction, hash: u32, k: Seq<u8>)
    requires
        k.len() == ADJ_KEY_LEN,
    ensures
        key_le(adj_key(node, dir, hash, 0, 0), k) && key_le(
            k,
            adj_key(node, dir, hash, u64::MAX, u64::MAX),
        ) <==> starts_with(k, adj_type_prefix(node, dir, hash)),
{
    lemma_zero_and_max();
    lemma_be64_round_trip(node);
    lemma_be32_round_trip(hash);
    let p = adj_type_prefix(node, dir, hash);
    assert(adj_key(node, dir, hash, 0, 0) =~= p + repeated(0, 16));
    assert(adj_key(node, dir, hash, u64::MAX, u64::MAX) =~= p + repeated(255, 16));
    lemma_prefix_range(p, 16, k);
}

/// The range from `adj_dir_start` to `adj_dir_end` holds exactly the keys of
/// the node's edges in that direction.
pub proof fn lemma_dir_range(node: u64, dir: Direction, k: Seq<u8>)
    requires
        k.len() == ADJ_KEY_LEN,
    ensures
        key_le(adj_key(node, dir, 0, 0, 0), k) && key_le(
            k,
            adj_key(node, dir, u32::MAX, u64::MAX, u64::MAX),
        ) <==> starts_with(k, adj_dir_prefix(node, dir)),
{
    lemma_zero_and_max();
    lemma_be64_round_trip(node);
    let p = adj_dir_prefix(node, dir);
    assert(adj_key(node, dir, 0, 0, 0) =~= p + repeated(0, 20));
    assert(adj_key(node, dir, u32::MAX, u64::MAX, u64::MAX) =~= p + repeated(255, 20));
    lemma_prefix_range(p, 20, k);
}

/// The range from `label_prefix_start` to `label_prefix_end` holds exactly the
/// keys of the nodes whose label has that hash.
pub proof fn lemma_label_range(hash: u32, k: Seq<u8>)
    requires
        k.len() == LABEL_KEY_LEN,
    ensures
        key_le(label_key(hash, 0), k) && key_le(k, label_key(hash, u64::MAX)) <==> starts_with(
            k,
            be32_bytes(hash),
        ),
{
    lemma_zero_and_max();
    lemma_be32_round_trip(hash);
    lemma_prefix_range(be32_bytes(hash), 8, k);
}

/// Whether one triple of type hash, neighbour and edge comes before another.
pub open spec fn link_before(h: u32, o: u64, e: u64, h2: u32, o2: u64, e2: u64) -> bool {
    h < h2 || (h == h2 && (o < o2 || (o == o2 && e < e2)))
}

/// The adjacency keys of a node in one direction are ordered by type hash, then
/// by neighbour, then by edge.
pub proof fn lemma_adj_order(
    node: u64,
    dir: Direction,
    h: u32,
    o: u64,
    e: u64,
    h2: u32,
    o2: u64,
    e2: u64,
)
    ensures
        key_lt(adj_key(node, dir, h, o, e), adj_key(node, dir, h2, o2, e2)) <==> link_before(
            h,
            o,
            e,
            h2,
            o2,
            e2,
        ),
{
    let p = adj_dir_prefix(node, dir);
    let a = be64_bytes(o) + be64_bytes(e);
    let b = be64_bytes(o2) + be64_bytes(e2);
    assert(adj_key(node, dir, h, o, e) =~= p + (be32_bytes(h) + a));
    assert(adj_key(node, dir, h2, o2, e2) =~= p + (be32_bytes(h2) + b));
    lemma_key_parts(p, p, be32_bytes(h) + a, be32_bytes(h2) + b);
    lemma_key_irreflexive(p);
    lemma_key_parts(be32_bytes(h), be32_bytes(h2), a, b);
    lemma_key_parts(be64_bytes(o), be64_bytes(o2), be64_bytes(e), be64_bytes(e2));
    lemma_be32_order(h, h2);
    lemma_be64_order(o, o2);
    lemma_be64_order(e, e2);
    lemma_be32_round_trip(h);
    lemma_be32_round_trip(h2);
    lemma_be64_round_trip(o);
    lemma_be64_round_trip(o2);
}

/// The label keys of one hash are ordered by node.
pub proof fn lemma_label_order(hash: u32, a: u64, b: u64)
    ensures
        key_lt(label_key(hash, a), label_key(hash, b)) <==> a < b,
{
    lemma_key_parts(be32_bytes(hash), be32_bytes(hash), be64_bytes(a), be64_bytes(b));
    lemma_key_irreflexive(be32_bytes(hash));
    lemma_be64_order(a, b);
}

/// The parts of an adjacency key read back from it.
pub proof fn lemma_adj_key(src: u64, dir: Direction, hash: u32, dst: u64, edge: u64)
    ensures
        adj_key(src, dir, hash, dst, edge).len() == ADJ_KEY_LEN,
        be64(adj_key(src, dir, hash, dst, edge), 0) == src,
        adj_key(src, dir, hash, dst, edge)[8] == direction_code(dir),
        be32(adj_key(src, dir, hash, dst, edge), 9) == hash,
        be64(adj_key(src, dir, hash, dst, edge), 13) == dst,
        be64(adj_key(src, dir, hash, dst, edge), 21) == edge,
{
    lemma_be64_round_trip(src);
    lemma_be32_round_trip(hash);
    lemma_be64_round_trip(dst);
    lemma_be64_round_trip(edge);
    let k = adj_key(src, dir, hash, dst, edge);
    assert(k.subrange(0, 8) =~= be64_bytes(src));
    assert(k.subrange(9, 13) =~= be32_bytes(hash));
    assert(k.subrange(13, 21) =~= be64_bytes(dst));
    assert(k.subrange(21, 29) =~= be64_bytes(edge));
    assert(be64(k, 0) == be64(k.subrange(0, 8), 0));
    assert(be32(k, 9) == be32(k.subrange(9, 13), 0));
    assert(be64(k, 13) == be64(k.subrange(13, 21), 0));
    assert(be64(k, 21) == be64(k.subrange(21, 29), 0));
}

/// A key of 29 bytes that starts with a node and direction is the adjacency
/// key made of its own parts.
pub proof fn lemma_adj_parts(k: Seq<u8>, src: u64, dir: Direction)
    requires
        k.len() == ADJ_KEY_LEN,
        starts_with(k, adj_dir_prefix(src, dir)),
    ensures
        k == adj_key(
            src,
            dir,
            be32(k, 9) as u32,
            be64(k, 13) as u64,
            be64(k, 21) as u64,
        ),
{
    lemma_be64_round_trip(src);
    lemma_be32_inverse(k, 9);
    lemma_be64_inverse(k, 13);
    lemma_be64_inverse(k, 21);
    assert(k =~= k.take(9) + k.subrange(9, 13) + k.subrange(13, 21) + k.subrange(21, 29));
}

/// The parts of a label key read back from it.
pub proof fn lemma_label_key(hash: u32, node: u64)
    ensures
        label_key(hash, node).len() == LABEL_KEY_LEN,
        be32(label_key(hash, node), 0) == hash,
        be64(label_key(hash, node), 4) == node,
{
    lemma_be32_round_trip(hash);
    lemma_be64_round_trip(node);
    let k = label_key(hash, node);
    assert(k.subrange(0, 4) =~= be32_bytes(hash));
    assert(k.subrange(4, 12) =~= be64_bytes(node));
    assert(be32(k, 0) == be32(k.subrange(0, 4), 0));
    assert(be64(k, 4) == be64(k.subrange(4, 12), 0));
}

/// FNV-1a hash of a text, 32 bits wide.
pub fn hash_str(s: &str) -> (r: u32)
    ensures
        r == hash_of(s@),
{
    let bytes = s.as_bytes();
    let mut h: u32 = 0x811c_9dc5;
    let mut i: usize = 0;
    assert(bytes@.take(0) =~= Seq::empty());
    while i < bytes.len()
        invariant
            i <= bytes@.len(),
            h == hash_bytes(bytes@.take(i as int)),
        decreases bytes@.len() - i,
    {
        proof {
            assert(bytes@.take(i + 1).drop_last() =~= bytes@.take(i as int));
        }
        let x: u32 = h ^ (bytes[i] as u32);
        h = ((x as u64 * 0x0100_0193) % 0x1_0000_0000) as u32;
        i = i + 1;
    }
    assert(bytes@.take(bytes@.len() as int) =~= bytes@);
    h
}

fn put_be32<const N: usize>(buf: &mut [u8; N], off: usize, v: u32)
    requires
        off + 4 <= N,
    ensures
        final(buf)@.subrange(off as int, off + 4) == be32_bytes(v),
        forall|i: int| 0 <= i < N && !(off <= i < off + 4) ==> final(buf)@[i] == old(buf)@[i],
{
    buf[off] = (v / 16777216) as u8;
    buf[off + 1] = (v / 65536 % 256) as u8;
    buf[off + 2] = (v / 256 % 256) as u8;
    buf[off + 3] = (v % 256) as u8;
    proof {
        reveal(be32_bytes);
        assert(buf@.subrange(off as int, off + 4) =~= be32_bytes(v));
    }
}

fn put_be64<const N: usize>(buf: &mut [u8; N], off: usize, v: u64)
    requires
        off + 8 <= N,
    ensures
        final(buf)@.subrange(off as int, off + 8) == be64_bytes(v),
        forall|i: int| 0 <= i < N && !(off <= i < off + 8) ==> final(buf)@[i] == old(buf)@[i],
{
    proof {
        reveal(be64_bytes);
    }
    put_be32(buf, off, (v / 4294967296) as u32);
    let ghost one = buf@;
    put_be32(buf, off + 4, (v % 4294967296) as u32);
    assert(buf@.subrange(off as int, off + 8) =~= one.subrange(off as int, off + 4) + buf@.subrange(
        off + 4,
        off + 8,
    ));
}

/// The byte key of a number: eight bytes, most significant first.
pub fn number_key(v: u64) -> (r: [u8; 8])
    ensures
        r@ == be64_bytes(v),
{
    let mut buf: [u8; 8] = [0u8;8];
    put_be64(&mut buf, 0, v);
    assert(buf@.subrange(0, 8) =~= buf@);
    buf
}

/// Builds an adjacency key.
pub fn encode_adjacency_key(
    src: NodeId,
    dir: Direction,
    edge_type_hash: u32,
    dst: NodeId,
    edge_id: EdgeId,
) -> (r: [u8; ADJ_KEY_LEN])
    ensures
        r@ == adj_key(src, dir, edge_type_hash, dst, edge_id),
{
    let mut buf: [u8; ADJ_KEY_LEN] = [0u8;ADJ_KEY_LEN];
    put_be64(&mut buf, 0, src);
    let ghost b1 = buf@;
    buf[8] = match dir {
        Direction::Out => 0,
        Direction::In => 1,
    };
    let ghost b2 = buf@;
    put_be32(&mut buf, 9, edge_type_hash);
    let ghost b3 = buf@;
    put_be64(&mut buf, 13, dst);
    let ghost b4 = buf@;
    put_be64(&mut buf, 21, edge_id);
    proof {
        assert(buf@.subrange(0, 8) =~= b1.subrange(0, 8));
        assert(buf@.subrange(9, 13) =~= b3.subrange(9, 13));
        assert(buf@.subrange(13, 21) =~= b4.subrange(13, 21));
        assert(buf@ =~= buf@.subrange(0, 8) + seq![buf@[8]] + buf@.subrange(9, 13) + buf@.subrange(
            13,
            21,
        ) + buf@.subrange(21, 29));
    }
    buf
}

/// Takes an adjacency key apart; any direction byte but 0 reads as `In`.
pub fn decode_adjacency_key(key: &[u8]) -> (r: (NodeId, Direction, u32, NodeId, EdgeId))
    requires
        key@.len() >= ADJ_KEY_LEN,
    ensures
        r.0 == be64(key@, 0),
        r.1 == (if key@[8] == 0 {
            Direction::Out
        } else {
            Direction::In
        }),
        r.2 == be32(key@, 9),
        r.3 == be64(key@, 13),
        r.4 == be64(key@, 21),
{
    let src: u64 = read_be64(key, 0);
    let dir = if key[8] == 0 {
        Direction::Out
    } else {
        Direction::In
    };
    let type_hash: u32 = read_be32(key, 9);
    let dst: u64 = read_be64(key, 13);
    let edge_id: u64 = read_be64(key, 21);
    (src, dir, type_hash, dst, edge_id)
}

fn read_be32(s: &[u8], off: usize) -> (r: u32)
    requires
        off + 4 <= s@.len(),
    ensures
        r == be32(s@, off as int),
{
    assert(s.len() == s@.len());
    s[off + 3] as u32 + 256 * (s[off + 2] as u32) + 65536 * (s[off + 1] as u32) + 16777216 * (
    s[off] as u32)
}

/// Start of the scan over a node's edges in a direction with one type.
pub fn adj_prefix_start(node: NodeId, dir: Direction, type_hash: u32) -> (r: [u8; ADJ_KEY_LEN])
    ensures
        r@ == adj_key(node, dir, type_hash, 0, 0),
{
    encode_adjacency_key(node, dir, type_hash, 0, 0)
}

/// End of the scan over a node's edges in a direction with one type.
pub fn adj_prefix_end(node: NodeId, dir: Direction, type_hash: u32) -> (r: [u8; ADJ_KEY_LEN])
    ensures
        r@ == adj_key(node, dir, type_hash, u64::MAX, u64::MAX),
{
    encode_adjacency_key(node, dir, type_hash, u64::MAX, u64::MAX)
}

/// Start of the scan over all of a node's edges in a direction.
pub fn adj_dir_start(node: NodeId, dir: Direction) -> (r: [u8; ADJ_KEY_LEN])
    ensures
        r@ == adj_key(node, dir, 0, 0, 0),
{
    encode_adjacency_key(node, dir, 0, 0, 0)
}

/// End of the scan over all of a node's edges in a direction.
pub fn adj_dir_end(node: NodeId, dir: Direction) -> (r: [u8; ADJ_KEY_LEN])
    ensures
        r@ == adj_key(node, dir, u32::MAX, u64::MAX, u64::MAX),
{
    encode_adjacency_key(node, dir, u32::MAX, u64::MAX, u64::MAX)
}

/// Builds a label key.
pub fn encode_label_key(label_hash: u32, node_id: NodeId) -> (r: [u8; LABEL_KEY_LEN])
    ensures
        r@ == label_key(label_hash, node_id),
{
    let mut buf: [u8; LABEL_KEY_LEN] = [0u8;LABEL_KEY_LEN];
    put_be32(&mut buf, 0, label_hash);
    let ghost b1 = buf@;
    put_be64(&mut buf, 4, node_id);
    proof {
        assert(buf@.subrange(0, 4) =~= b1.subrange(0, 4));
        assert(buf@ =~= buf@.subrange(0, 4) + buf@.subrange(4, 12));
    }
    buf
}

/// Takes a label key apart.
pub fn decode_label_key(key: &[u8]) -> (r: (u32, NodeId))
    requires
        key@.len() >= LABEL_KEY_LEN,
    ensures
        r.0 == be32(key@, 0),
        r.1 == be64(key@, 4),
{
    (read_be32(key, 0), read_be64(key, 4))
}

/// Start of the scan over the nodes with one label hash.
pub fn label_prefix_start(label_hash: u32) -> (r: [u8; LABEL_KEY_LEN])
    ensures
        r@ == label_key(label_hash, 0),
{
    encode_label_key(label_hash, 0)
}

/// End of the scan over the nodes with one label hash.
pub fn label_prefix_end(label_hash: u32) -> (r: [u8; LABEL_KEY_LEN])
    ensures
        r@ == label_key(label_hash, u64::MAX),
{
    encode_label_key(label_hash, u64::MAX)
}

} // verus!

//! Directed edges between 32-bit vertex ids, packed into one 64-bit key.
use vstd::prelude::*;

verus! {

/// The packed form of an edge: `from` in the high 32 bits, `to` in the low 32.
pub type EdgeAsInt = u64;

/// A directed edge `(from, to)`.
#[derive(Debug, Clone, Copy, PartialEq, Eq, Structural)]
pub struct Edge(pub u32, pub u32);

/// The key of the edge `(from, to)`: ordering keys orders edges by `from`, then by `to`.
pub open spec fn key_of(from: u32, to: u32) -> int {
    from as int * 0x1_0000_0000 + to as int
}

/// The source vertex of a packed edge.
pub open spec fn from_of(key: u64) -> u32 {
    (key as int / 0x1_0000_0000) as u32
}

/// The target vertex of a packed edge.
pub open spec fn to_of(key: u64) -> u32 {
    (key as int % 0x1_0000_0000) as u32
}

impl Edge {
    /// Packs the edge into its 64-bit key.
    pub fn to_int(self) -> (r: EdgeAsInt)
        ensures
            r as int == key_of(self.0, self.1),
    {
        let f = self.0;
        let t = self.1;
        let r = ((f as u64) << 32u64) | (t as u64);
        assert(r == (f as u64) * 0x1_0000_0000u64 + (t as u64)) by (bit_vector)
            requires r == ((f as u64) << 32u64) | (t as u64);
        r
    }

    /// Unpacks a 64-bit key into the edge it encodes.
    pub fn from_int(value: EdgeAsInt) -> (r: Edge)
        ensures
            r.0 == from_of(value),
            r.1 == to_of(value),
    {
        let f = (value >> 32u64) as u32;
        let t = value as u32;
        assert(f as u64 == value / 0x1_0000_0000u64) by (bit_vector)
            requires f == (value >> 32u64) as u32;
        assert(t as u64 == value % 0x1_0000_0000u64) by (bit_vector)
            requires t == value as u32;
        Edge(f, t)
    }
}

/// Decoding the key of an edge gives the edge back.
pub proof fn lemma_round_trip(from: u32, to: u32)
    ensures
        key_of(from, to) <= u64::MAX,
        from_of(key_of(from, to) as u64) == from,
        to_of(key_of(from, to) as u64) == to,
{
    let k = key_of(from, to);
    assert(0 <= k <= u64::MAX) by (nonlinear_arith)
        requires k == from as int * 0x1_0000_0000 + to as int, from <= u32::MAX, to <= u32::MAX;
    assert(k / 0x1_0000_0000 == from as int) by (nonlinear_arith)
        requires k == from as int * 0x1_0000_0000 + to as int, 0 <= to < 0x1_0000_0000;
    assert(k % 0x1_0000_0000 == to as int) by (nonlinear_arith)
        requires k == from as int * 0x1_0000_0000 + to as int, 0 <= to < 0x1_0000_0000;
}

/// A key is its source times 2³² plus its target.
pub proof fn lemma_key_parts(a: u64)
    ensures
        a as int == from_of(a) as int * 0x1_0000_0000 + to_of(a) as int,
        from_of(a) as int == a as int / 0x1_0000_0000,
        to_of(a) as int == a as int % 0x1_0000_0000,
{
    let q = a as int / 0x1_0000_0000;
    let r = a as int % 0x1_0000_0000;
    assert(a as int == q * 0x1_0000_0000 + r && 0 <= r < 0x1_0000_0000 && 0 <= q < 0x1_0000_0000) by (nonlinear_arith)
        requires q == a as int / 0x1_0000_0000, r == a as int % 0x1_0000_0000, 0 <= a <= u64::MAX;
}

/// Between keys of the same source, the order is that of the targets.
pub proof fn lemma_same_source_order(a: u64, b: u64)
    requires
        a <= b,
        from_of(a) == from_of(b),
    ensures
        to_of(a) <= to_of(b),
        a == b <==> to_of(a) == to_of(b),
{
    lemma_key_parts(a);
    lemma_key_parts(b);
}

/// Keys order edges by source first, then by target.
pub proof fn lemma_key_order(a: u64, b: u64)
    requires
        a <= b,
    ensures
        from_of(a) <= from_of(b),
{
    assert(a as int / 0x1_0000_0000 <= b as int / 0x1_0000_0000) by (nonlinear_arith)
        requires a <= b;
}

/// The number of edges of `edges` from `v` to `u`.
pub open spec fn edge_count(edges: Seq<u64>, v: u32, u: u32) -> int
    decreases edges.len(),
{
    if edges.len() == 0 {
        0
    } else {
        edge_count(edges.drop_last(), v, u) + if from_of(edges.last()) == v && to_of(edges.last()) == u {
            1int
        } else {
            0
        }
    }
}

/// Each edge appears as often as its reverse.
pub open spec fn symmetric_counts(edges: Seq<u64>) -> bool {
    forall|a: u32, b: u32| #[trigger] edge_count(edges, a, b) == edge_count(edges, b, a)
}

/// The number of edges `(a, b)` among `edges` is the number of times their key occurs.
pub proof fn lemma_count_is_multiplicity(edges: Seq<u64>, a: u32, b: u32)
    ensures
        edge_count(edges, a, b) == edges.to_multiset().count(key_of(a, b) as u64),
    decreases edges.len(),
{
    broadcast use vstd::seq_lib::group_to_multiset_ensures;

    lemma_round_trip(a, b);
    if edges.len() > 0 {
        let init = edges.drop_last();
        lemma_count_is_multiplicity(init, a, b);
        assert(edges =~= init.push(edges.last()));
        lemma_key_parts(edges.last());
    }
}

/// Counting edges over a concatenation adds the counts of the parts.
pub proof fn lemma_count_concat(s1: Seq<u64>, s2: Seq<u64>, a: u32, b: u32)
    ensures
        edge_count(s1 + s2, a, b) == edge_count(s1, a, b) + edge_count(s2, a, b),
    decreases s2.len(),
{
    if s2.len() > 0 {
        lemma_count_concat(s1, s2.drop_last(), a, b);
        assert((s1 + s2).drop_last() =~= s1 + s2.drop_last());
    }
}

} // verus!

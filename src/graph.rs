//! The weighted graph of the Louvain method: vertices, communities, local moves,
//! modularity and contraction.
use vstd::prelude::*;
use std::collections::{HashMap, HashSet};
use crate::edge::{
    edge_count, from_of, lemma_key_order, lemma_same_source_order, symmetric_counts, to_of, Edge,
    EdgeAsInt,
};
use crate::sums::{
    lemma_sum_ext, lemma_sum_ge_term, lemma_sum_le, lemma_sum_point, lemma_sum_prefix_le,
    lemma_sum_prefix_step, lemma_sum_scale, lemma_sum_single, lemma_sum_sub, lemma_sum_swap, sum_of,
};

verus! {

broadcast use vstd::std_specs::hash::group_hash_axioms;

/// The largest total degree a graph may have: it keeps the exact modularity arithmetic
/// of `i128` free of overflow.
pub const MAX_TOTAL_DEGREES: u64 = 0x4000_0000_0000_0000;

/// Local moving stops once a pass changes the modularity by less than `1 / CONVERGENCE_DIVISOR`.
pub const CONVERGENCE_DIVISOR: u128 = 1000;

/// The most local-moving passes in one epoch.
pub const MAX_INNER_ITERS: usize = 10;

/// The summed weight of the entries of `ns` whose neighbor satisfies `p`.
pub open spec fn weight_where(ns: Seq<(u32, u64)>, p: spec_fn(u32) -> bool) -> int
    decreases ns.len(),
{
    if ns.len() == 0 {
        0
    } else {
        weight_where(ns.drop_last(), p) + if p(ns.last().0) {
            ns.last().1 as int
        } else {
            0
        }
    }
}

/// The summed weight of all entries of `ns`.
pub open spec fn weight_sum(ns: Seq<(u32, u64)>) -> int {
    weight_where(ns, |u: u32| true)
}

/// The weight of the entry for `u` in `ns` (0 where there is none).
pub open spec fn weight_of(ns: Seq<(u32, u64)>, u: u32) -> int {
    weight_where(ns, |x: u32| x == u)
}

/// No neighbor appears twice.
pub open spec fn distinct_keys(ns: Seq<(u32, u64)>) -> bool {
    forall|i: int, j: int| 0 <= i < j < ns.len() ==> ns[i].0 != ns[j].0
}

pub proof fn lemma_weight_where_nonneg(ns: Seq<(u32, u64)>, p: spec_fn(u32) -> bool)
    ensures
        0 <= weight_where(ns, p) <= weight_sum(ns),
    decreases ns.len(),
{
    if ns.len() > 0 {
        lemma_weight_where_nonneg(ns.drop_last(), p);
    }
}

/// A vertex: its id, the community it belongs to, its weighted neighbors and its degree.
#[derive(Debug)]
pub struct Vertex {
    pub id: u32,
    pub community: u32,
    pub neighbors: Vec<(u32, u64)>,
    pub degrees: u64,
}

impl Vertex {
    /// The vertex is consistent: distinct neighbors, and a degree that is their summed weight.
    pub open spec fn wf(&self) -> bool {
        &&& distinct_keys(self.neighbors@)
        &&& self.degrees as int == weight_sum(self.neighbors@)
    }

    /// A vertex with no neighbors, in the community named by its own id.
    pub fn new(id: u32) -> (r: Vertex)
        ensures
            r.wf(),
            r.id == id,
            r.community == id,
            r.neighbors@ == Seq::<(u32, u64)>::empty(),
            r.degrees == 0,
    {
        Vertex { id, community: id, neighbors: Vec::new(), degrees: 0 }
    }

    /// The summed weight of the vertex's edges.
    pub fn degrees(&self) -> (r: u64)
        ensures
            r == self.degrees,
    {
        self.degrees
    }

    /// Index of the entry for `neighbor`, if there is one.
    fn find(&self, neighbor: u32) -> (r: Option<usize>)
        ensures
            r matches Some(i) ==> i < self.neighbors@.len() && self.neighbors@[i as int].0
                == neighbor,
            r is None ==> forall|i: int|
                0 <= i < self.neighbors@.len() ==> self.neighbors@[i].0 != neighbor,
    {
        let mut i: usize = 0;
        while i < self.neighbors.len()
            invariant
                i <= self.neighbors@.len(),
                forall|j: int| 0 <= j < i ==> self.neighbors@[j].0 != neighbor,
            decreases self.neighbors@.len() - i,
        {
            if self.neighbors[i].0 == neighbor {
                return Some(i);
            }
            i = i + 1;
        }
        None
    }

    /// Sets the weight of the edge to `neighbor`, returning the weight it replaces; the
    /// degree follows.
    pub fn add_neighbor(&mut self, neighbor: u32, weight: u64) -> (r: Option<u64>)
        requires
            old(self).wf(),
            old(self).degrees + weight <= u64::MAX,
        ensures
            final(self).wf(),
            final(self).id == old(self).id,
            final(self).community == old(self).community,
            r == (if has_key(old(self).neighbors@, neighbor) {
                Some(weight_of(old(self).neighbors@, neighbor) as u64)
            } else {
                None
            }),
            weight_of(final(self).neighbors@, neighbor) == weight,
            has_key(final(self).neighbors@, neighbor),
            forall|u: u32| u != neighbor ==> weight_of(final(self).neighbors@, u) == weight_of(old(self).neighbors@, u) && (has_key(final(self).neighbors@, u) == has_key(old(self).neighbors@, u)),
            final(self).degrees == old(self).degrees - weight_of(old(self).neighbors@, neighbor) + weight,
    {
        proof {
            lemma_weight_where_nonneg(self.neighbors@, |x: u32| x == neighbor);
        }
        match self.find(neighbor) {
            Some(i) => {
                let old_w = self.neighbors[i].1;
                proof {
                    lemma_entry_weights(self.neighbors@, i as int);
                }
                let ghost before = self.neighbors@;
                self.neighbors.set(i, (neighbor, weight));
                proof {
                    lemma_replace_weights(before, i as int, weight);
                }
                self.degrees = self.degrees - old_w + weight;
                Some(old_w)
            },
            None => {
                let ghost before = self.neighbors@;
                proof {
                    lemma_absent_weight(before, neighbor);
                }
                self.neighbors.push((neighbor, weight));
                proof {
                    lemma_push_weights(before, neighbor, weight);
                }
                self.degrees = self.degrees + weight;
                None
            },
        }
    }

    /// Adds `weight` to the edge to `neighbor` (creating it at `weight`), returning the
    /// edge's new weight; the degree grows by `weight`.
    pub fn add_neighbor_or_accumulate(&mut self, neighbor: u32, weight: u64) -> (r: u64)
        requires
            old(self).wf(),
            old(self).degrees + weight <= u64::MAX,
        ensures
            final(self).wf(),
            final(self).id == old(self).id,
            final(self).community == old(self).community,
            r == weight_of(final(self).neighbors@, neighbor),
            weight_of(final(self).neighbors@, neighbor) == weight_of(old(self).neighbors@, neighbor) + weight,
            has_key(final(self).neighbors@, neighbor),
            forall|u: u32| u != neighbor ==> weight_of(final(self).neighbors@, u) == weight_of(old(self).neighbors@, u) && (has_key(final(self).neighbors@, u) == has_key(old(self).neighbors@, u)),
            final(self).degrees == old(self).degrees + weight,
    {
        proof {
            lemma_weight_where_nonneg(self.neighbors@, |x: u32| x == neighbor);
        }
        match self.find(neighbor) {
            Some(i) => {
                proof {
                    lemma_entry_weights(self.neighbors@, i as int);
                }
                let w = self.neighbors[i].1 + weight;
                let ghost before = self.neighbors@;
                self.neighbors.set(i, (neighbor, w));
                proof {
                    lemma_replace_weights(before, i as int, w);
                }
                self.degrees = self.degrees + weight;
                w
            },
            None => {
                let ghost before = self.neighbors@;
                proof {
                    lemma_absent_weight(before, neighbor);
                }
                self.neighbors.push((neighbor, weight));
                proof {
                    lemma_push_weights(before, neighbor, weight);
                }
                self.degrees = self.degrees + weight;
                weight
            },
        }
    }
}

/// `u` has an entry in `ns`.
pub open spec fn has_key(ns: Seq<(u32, u64)>, u: u32) -> bool {
    exists|i: int| 0 <= i < ns.len() && ns[i].0 == u
}

proof fn lemma_absent_weight(ns: Seq<(u32, u64)>, u: u32)
    requires
        forall|i: int| 0 <= i < ns.len() ==> ns[i].0 != u,
    ensures
        weight_of(ns, u) == 0,
        !has_key(ns, u),
    decreases ns.len(),
{
    if ns.len() > 0 {
        lemma_absent_weight(ns.drop_last(), u);
    }
}

/// The weight of the entry at `i` is that entry's share of each sum it satisfies.
proof fn lemma_entry_weights(ns: Seq<(u32, u64)>, i: int)
    requires
        distinct_keys(ns),
        0 <= i < ns.len(),
    ensures
        weight_of(ns, ns[i].0) == ns[i].1,
        has_key(ns, ns[i].0),
        ns[i].1 <= weight_sum(ns),
    decreases ns.len(),
{
    let u = ns[i].0;
    lemma_weight_where_nonneg(ns, |x: u32| x == u);
    if i == ns.len() - 1 {
        let init = ns.drop_last();
        assert forall|j: int| 0 <= j < init.len() implies init[j].0 != u by {
            assert(ns[j].0 != ns[i].0);
        }
        lemma_absent_weight(init, u);
        lemma_weight_where_nonneg(init, |x: u32| true);
    } else {
        lemma_entry_weights(ns.drop_last(), i);
        assert(ns.last().0 != u);
        assert(ns.drop_last()[i] == ns[i]);
    }
}

/// Replacing the weight of entry `i` changes each sum that counts it by the difference.
proof fn lemma_replace_weights(ns: Seq<(u32, u64)>, i: int, w: u64)
    requires
        distinct_keys(ns),
        0 <= i < ns.len(),
    ensures
        ({
            let ms = ns.update(i, (ns[i].0, w));
            &&& distinct_keys(ms)
            &&& forall|p: spec_fn(u32) -> bool| #[trigger] weight_where(ms, p) == weight_where(ns, p) + if p(ns[i].0) {
                w - ns[i].1
            } else {
                0
            }
            &&& forall|u: u32| #[trigger] has_key(ms, u) == has_key(ns, u)
        }),
    decreases ns.len(),
{
    let ms = ns.update(i, (ns[i].0, w));
    assert forall|u: u32| #[trigger] has_key(ms, u) == has_key(ns, u) by {
        if has_key(ns, u) {
            let k = choose|k: int| 0 <= k < ns.len() && ns[k].0 == u;
            assert(ms[k].0 == u);
        }
        if has_key(ms, u) {
            let k = choose|k: int| 0 <= k < ms.len() && ms[k].0 == u;
            assert(ns[k].0 == u);
        }
    }
    assert forall|p: spec_fn(u32) -> bool| #[trigger] weight_where(ms, p) == weight_where(ns, p) + if p(ns[i].0) {
        w - ns[i].1
    } else {
        0
    } by {
        lemma_replace_one(ns, i, w, p);
    }
}

proof fn lemma_replace_one(ns: Seq<(u32, u64)>, i: int, w: u64, p: spec_fn(u32) -> bool)
    requires
        0 <= i < ns.len(),
    ensures
        weight_where(ns.update(i, (ns[i].0, w)), p) == weight_where(ns, p) + if p(ns[i].0) {
            w - ns[i].1
        } else {
            0
        },
    decreases ns.len(),
{
    let ms = ns.update(i, (ns[i].0, w));
    if i == ns.len() - 1 {
        assert(ms.drop_last() =~= ns.drop_last());
    } else {
        lemma_replace_one(ns.drop_last(), i, w, p);
        assert(ms.drop_last() =~= ns.drop_last().update(i, (ns[i].0, w)));
    }
}

/// Appending an entry for a new neighbor adds its weight to each sum that counts it.
proof fn lemma_push_weights(ns: Seq<(u32, u64)>, u: u32, w: u64)
    requires
        distinct_keys(ns),
        !has_key(ns, u),
    ensures
        ({
            let ms = ns.push((u, w));
            &&& distinct_keys(ms)
            &&& forall|p: spec_fn(u32) -> bool| #[trigger] weight_where(ms, p) == weight_where(ns, p) + if p(u) {
                w as int
            } else {
                0
            }
            &&& forall|x: u32| #[trigger] has_key(ms, x) == (has_key(ns, x) || x == u)
        }),
{
    let ms = ns.push((u, w));
    assert forall|p: spec_fn(u32) -> bool| #[trigger] weight_where(ms, p) == weight_where(ns, p) + if p(u) {
        w as int
    } else {
        0
    } by {
        assert(ms.drop_last() =~= ns);
    }
    assert forall|x: u32| #[trigger] has_key(ms, x) == (has_key(ns, x) || x == u) by {
        if has_key(ns, x) {
            let k = choose|k: int| 0 <= k < ns.len() && ns[k].0 == x;
            assert(ms[k].0 == x);
        }
        if x == u {
            assert(ms[ns.len() as int].0 == u);
        }
        if has_key(ms, x) && x != u {
            let k = choose|k: int| 0 <= k < ms.len() && ms[k].0 == x;
            assert(ns[k].0 == x);
        }
    }
    assert forall|a: int, b: int| 0 <= a < b < ms.len() implies ms[a].0 != ms[b].0 by {
        if b == ns.len() {
            assert(ns[a].0 != u);
        }
    }
}


/// A community: its id, its member vertices and their summed degree.
#[derive(Debug)]
pub struct Community {
    pub id: u32,
    pub vertices: HashSet<u32>,
    pub degrees: u64,
}

impl Community {
    /// The community that holds `vertex` alone, named by the vertex's id.
    fn from_single_vertex(vertex: &Vertex) -> (r: Community)
        ensures
            r.id == vertex.id,
            r.vertices@ == set![vertex.id],
            r.degrees == vertex.degrees,
    {
        let mut vertices = HashSet::new();
        vertices.insert(vertex.id);
        assert(vertices@ =~= set![vertex.id]);
        Community { id: vertex.id, vertices, degrees: vertex.degrees }
    }

    /// The member `vertex_id` of this community, looked up in `graph`.
    pub fn vertex<'a>(&self, graph: &'a Graph, vertex_id: u32) -> (r: Option<&'a Vertex>)
        ensures
            r matches Some(v) ==> self.vertices@.contains(vertex_id) && graph.vertices@.contains_key(vertex_id) && *v == graph.vertices@[vertex_id],
            r is None ==> !self.vertices@.contains(vertex_id) || !graph.vertices@.contains_key(vertex_id),
    {
        if self.vertices.contains(&vertex_id) {
            graph.vertex(vertex_id)
        } else {
            None
        }
    }

    /// The members of this community, in the graph's vertex order.
    pub fn vertices<'a>(&self, graph: &'a Graph) -> (r: Vec<&'a Vertex>)
        requires
            graph.wf(),
        ensures
            forall|i: int| 0 <= i < r@.len() ==> self.vertices@.contains(#[trigger] r@[i].id) && *r@[i] == graph.vertices@[r@[i].id],
            forall|v: u32| self.vertices@.contains(v) && graph.vertices@.contains_key(v) ==> exists|i: int| 0 <= i < r@.len() && r@[i].id == v,
            forall|i: int, j: int| 0 <= i < j < r@.len() ==> r@[i].id != r@[j].id,
    {
        let mut r: Vec<&'a Vertex> = Vec::new();
        let mut i: usize = 0;
        while i < graph.order.len()
            invariant
                graph.wf(),
                i <= graph.order@.len(),
                forall|k: int| 0 <= k < r@.len() ==> self.vertices@.contains(#[trigger] r@[k].id) && *r@[k] == graph.vertices@[r@[k].id],
                forall|t: int| 0 <= t < i && self.vertices@.contains(#[trigger] graph.order@[t]) ==> exists|k: int| 0 <= k < r@.len() && r@[k].id == graph.order@[t],
                forall|k: int| 0 <= k < r@.len() ==> exists|t: int| 0 <= t < i && graph.order@[t] == #[trigger] r@[k].id,
                forall|a: int, b: int| 0 <= a < b < r@.len() ==> r@[a].id != r@[b].id,
            decreases graph.order@.len() - i,
        {
            let id = graph.order[i];
            let ghost before = r@;
            if self.vertices.contains(&id) {
                assert(graph.order@.contains(id));
                let v = graph.vertices.get(&id).unwrap();
                assert(graph.vertex_ok(id));
                r.push(v);
                assert(r@[r@.len() - 1].id == id);
                assert forall|a: int, b: int| 0 <= a < b < r@.len() implies r@[a].id != r@[b].id by {
                    if b == r@.len() - 1 {
                        assert(r@[a] == before[a]);
                        let t = choose|t: int| 0 <= t < i && graph.order@[t] == before[a].id;
                        assert(graph.order@[t] != graph.order@[i as int]);
                    } else {
                        assert(r@[a] == before[a] && r@[b] == before[b]);
                    }
                }
            }
            assert forall|k: int| 0 <= k < r@.len() implies exists|t: int| 0 <= t < i + 1 && graph.order@[t] == #[trigger] r@[k].id by {
                if k < before.len() {
                    assert(r@[k] == before[k]);
                    let t = choose|t: int| 0 <= t < i && graph.order@[t] == before[k].id;
                } else {
                    assert(graph.order@[i as int] == r@[k].id);
                }
            }
            assert forall|t: int| 0 <= t < i + 1 && self.vertices@.contains(#[trigger] graph.order@[t]) implies exists|k: int| 0 <= k < r@.len() && r@[k].id == graph.order@[t] by {
                if t < i {
                    let k = choose|k: int| 0 <= k < before.len() && before[k].id == graph.order@[t];
                    assert(r@[k] == before[k]);
                } else {
                    assert(r@[r@.len() - 1].id == id);
                }
            }
            i = i + 1;
        }
        proof {
            assert forall|v: u32| self.vertices@.contains(v) && graph.vertices@.contains_key(v) implies exists|i: int| 0 <= i < r@.len() && r@[i].id == v by {
                assert(graph.order@.contains(v));
                let t = choose|t: int| 0 <= t < graph.order@.len() && graph.order@[t] == v;
                assert(self.vertices@.contains(graph.order@[t]));
            }
        }
        r
    }

    /// Takes `vertex_id` out of the community, with its degree; tells whether it was a member.
    pub fn remove(&mut self, vertex_id: u32, degrees: u64) -> (r: bool)
        requires
            old(self).degrees >= degrees,
        ensures
            final(self).id == old(self).id,
            final(self).vertices@ == old(self).vertices@.remove(vertex_id),
            final(self).degrees == old(self).degrees - degrees,
            r == old(self).vertices@.contains(vertex_id),
    {
        self.degrees = self.degrees - degrees;
        self.vertices.remove(&vertex_id)
    }

    /// Adds `vertex_id` to the community, with its degree; tells whether it was new.
    pub fn insert(&mut self, vertex_id: u32, degrees: u64) -> (r: bool)
        requires
            old(self).degrees + degrees <= u64::MAX,
        ensures
            final(self).id == old(self).id,
            final(self).vertices@ == old(self).vertices@.insert(vertex_id),
            final(self).degrees == old(self).degrees + degrees,
            r == !old(self).vertices@.contains(vertex_id),
    {
        self.degrees = self.degrees + degrees;
        self.vertices.insert(vertex_id)
    }

    /// The summed degree of the members.
    pub fn degrees(&self) -> (r: u64)
        ensures
            r == self.degrees,
    {
        self.degrees
    }
}

/// A graph being clustered: its vertices by id, its communities by id, the order in
/// which the vertices are visited, its total degree and its epoch.
#[derive(Debug)]
pub struct Graph {
    pub epoch: usize,
    pub total_degrees: u64,
    pub communities: HashMap<u32, Community>,
    pub vertices: HashMap<u32, Vertex>,
    pub order: Vec<u32>,
}

/// The summed degree of the vertices of `ids` that belong to community `c`.
pub open spec fn member_degrees(vs: Map<u32, Vertex>, ids: Seq<u32>, c: u32) -> int {
    sum_of(ids, |v: u32| if vs[v].community == c { vs[v].degrees as int } else { 0 })
}

/// The summed degree of the vertices of `ids`.
pub open spec fn degree_sum(vs: Map<u32, Vertex>, ids: Seq<u32>) -> int {
    sum_of(ids, |v: u32| vs[v].degrees as int)
}

/// The summed degree of the communities of `ids`.
pub open spec fn community_degree_sum(cs: Map<u32, Community>, ids: Seq<u32>) -> int {
    sum_of(ids, |c: u32| cs[c].degrees as int)
}

/// The ids of the vertices of `vs` in community `c`.
pub open spec fn members(vs: Map<u32, Vertex>, c: u32) -> Set<u32> {
    Set::new(|v: u32| vs.contains_key(v) && vs[v].community == c)
}

impl Graph {
    /// Vertex `v` is consistent and its neighbors and community are in the graph.
    pub open spec fn vertex_ok(&self, v: u32) -> bool {
        let x = self.vertices@[v];
        &&& x.id == v
        &&& x.wf()
        &&& self.vertices@.contains_key(x.community)
        &&& forall|i: int| 0 <= i < x.neighbors@.len() ==> self.vertices@.contains_key(#[trigger] x.neighbors@[i].0)
        &&& positive_weights(x.neighbors@)
    }

    /// Community `c` holds exactly the vertices that name it, and their summed degree.
    pub open spec fn community_ok(&self, c: u32) -> bool {
        let x = self.communities@[c];
        &&& x.id == c
        &&& x.vertices@ == members(self.vertices@, c)
        &&& x.degrees as int == member_degrees(self.vertices@, self.order@, c)
    }

    /// The graph's invariants.
    pub open spec fn wf(&self) -> bool {
        &&& self.order@.no_duplicates()
        &&& forall|v: u32| #[trigger] self.vertices@.contains_key(v) <==> self.order@.contains(v)
        &&& forall|c: u32| #[trigger] self.communities@.contains_key(c) <==> self.order@.contains(c)
        &&& forall|v: u32| #[trigger] self.vertices@.contains_key(v) ==> self.vertex_ok(v)
        &&& forall|c: u32| #[trigger] self.communities@.contains_key(c) ==> self.community_ok(c)
        &&& self.total_degrees as int == degree_sum(self.vertices@, self.order@)
        &&& community_degree_sum(self.communities@, self.order@) == self.total_degrees as int
        &&& self.total_degrees <= MAX_TOTAL_DEGREES
    }

    /// The community with id `community_id`.
    pub fn community(&self, community_id: u32) -> (r: Option<&Community>)
        ensures
            r matches Some(c) ==> self.communities@.contains_key(community_id) && *c == self.communities@[community_id],
            r is None ==> !self.communities@.contains_key(community_id),
    {
        self.communities.get(&community_id)
    }

    /// The vertex with id `vertex_id`.
    pub fn vertex(&self, vertex_id: u32) -> (r: Option<&Vertex>)
        ensures
            r matches Some(v) ==> self.vertices@.contains_key(vertex_id) && *v == self.vertices@[vertex_id],
            r is None ==> !self.vertices@.contains_key(vertex_id),
    {
        self.vertices.get(&vertex_id)
    }

    /// The communities, in the graph's vertex order (each community is named by a vertex).
    pub fn communities(&self) -> (r: Vec<&Community>)
        requires
            self.wf(),
        ensures
            r@.len() == self.order@.len(),
            forall|i: int| 0 <= i < r@.len() ==> *#[trigger] r@[i] == self.communities@[self.order@[i]],
    {
        let mut r: Vec<&Community> = Vec::new();
        let mut i: usize = 0;
        while i < self.order.len()
            invariant
                self.wf(),
                i <= self.order@.len(),
                r@.len() == i,
                forall|k: int| 0 <= k < i ==> *#[trigger] r@[k] == self.communities@[self.order@[k]],
            decreases self.order@.len() - i,
        {
            let id = self.order[i];
            assert(self.communities@.contains_key(id));
            r.push(self.communities.get(&id).unwrap());
            i = i + 1;
        }
        r
    }

    /// The vertices, in the graph's vertex order.
    pub fn vertices(&self) -> (r: Vec<&Vertex>)
        requires
            self.wf(),
        ensures
            r@.len() == self.order@.len(),
            forall|i: int| 0 <= i < r@.len() ==> *#[trigger] r@[i] == self.vertices@[self.order@[i]],
    {
        let mut r: Vec<&Vertex> = Vec::new();
        let mut i: usize = 0;
        while i < self.order.len()
            invariant
                self.wf(),
                i <= self.order@.len(),
                r@.len() == i,
                forall|k: int| 0 <= k < i ==> *#[trigger] r@[k] == self.vertices@[self.order@[k]],
            decreases self.order@.len() - i,
        {
            let id = self.order[i];
            assert(self.vertices@.contains_key(id));
            r.push(self.vertices.get(&id).unwrap());
            i = i + 1;
        }
        r
    }

    /// Moves vertex `vertex_id` into community `dst_community_id`: the vertex names its new
    /// community, and both communities' member sets and degrees follow.
    pub fn move_vertex(&mut self, vertex_id: u32, dst_community_id: u32)
        requires
            old(self).wf(),
            old(self).vertices@.contains_key(vertex_id),
            old(self).communities@.contains_key(dst_community_id),
        ensures
            final(self).wf(),
            final(self).order@ == old(self).order@,
            final(self).epoch == old(self).epoch,
            final(self).total_degrees == old(self).total_degrees,
            final(self).vertices@.dom() == old(self).vertices@.dom(),
            final(self).vertices@[vertex_id].community == dst_community_id,
            final(self).vertices@[vertex_id].id == old(self).vertices@[vertex_id].id,
            final(self).vertices@[vertex_id].degrees == old(self).vertices@[vertex_id].degrees,
            final(self).vertices@[vertex_id].neighbors@ == old(self).vertices@[vertex_id].neighbors@,
            forall|u: u32| u != vertex_id && #[trigger] old(self).vertices@.contains_key(u) ==> final(self).vertices@[u] == old(self).vertices@[u],
    {
        let src = self.vertices.get(&vertex_id).unwrap().community;
        if src == dst_community_id {
            return;
        }
        let ghost vs0 = self.vertices@;
        let ghost cs0 = self.communities@;
        let ghost ord = self.order@;
        let mut v = self.vertices.remove(&vertex_id).unwrap();
        let k = v.degrees;
        v.community = dst_community_id;
        self.vertices.insert(vertex_id, v);
        let ghost vs1 = self.vertices@;
        proof {
            assert(ord.contains(vertex_id));
            assert(vs1.dom() =~= vs0.dom());
            assert forall|u: u32| u != vertex_id && vs0.contains_key(u) implies vs1[u] == vs0[u] by {}
            lemma_move_sums(vs0, vs1, ord, vertex_id, src, dst_community_id);
            lemma_sum_ge_term(ord, |x: u32| if vs0[x].community == src { vs0[x].degrees as int } else { 0 }, vertex_id);
        }
        let mut cs = self.communities.remove(&src).unwrap();
        assert(cs.degrees as int == member_degrees(vs0, ord, src));
        cs.remove(vertex_id, k);
        self.communities.insert(src, cs);
        let mut cd = self.communities.remove(&dst_community_id).unwrap();
        assert(cd.degrees as int == member_degrees(vs0, ord, dst_community_id));
        cd.insert(vertex_id, k);
        self.communities.insert(dst_community_id, cd);
        proof {
            let cs2 = self.communities@;
            assert(cs2.dom() =~= cs0.dom());
            assert forall|c: u32| #[trigger] cs2.contains_key(c) implies self.community_ok(c) by {
                assert(cs0.contains_key(c));
                assert(members(vs1, c) =~= if c == src {
                    members(vs0, c).remove(vertex_id)
                } else if c == dst_community_id {
                    members(vs0, c).insert(vertex_id)
                } else {
                    members(vs0, c)
                });
            }
            assert forall|u: u32| #[trigger] vs1.contains_key(u) implies self.vertex_ok(u) by {
                assert(vs0.contains_key(u));
                if u != vertex_id {
                    assert(vs1[u] == vs0[u]);
                }
                assert(vs1[u].neighbors@ == vs0[u].neighbors@);
            }
            let g1 = |c: u32| if c == src { cs0[c].degrees as int - k } else { cs0[c].degrees as int };
            lemma_sum_point(ord, |c: u32| cs0[c].degrees as int, g1, src);
            lemma_sum_point(ord, g1, |c: u32| cs2[c].degrees as int, dst_community_id);
        }
    }

    /// The degree of `vertex_id` is at most the graph's total degree, and so is each
    /// community's degree.
    proof fn lemma_degree_bounds(&self, vertex_id: u32)
        requires
            self.wf(),
            self.vertices@.contains_key(vertex_id),
        ensures
            self.vertices@[vertex_id].degrees <= self.total_degrees,
            forall|c: u32| #[trigger] self.communities@.contains_key(c) ==> self.communities@[c].degrees <= self.total_degrees,
            self.communities@[self.vertices@[vertex_id].community].degrees >= self.vertices@[vertex_id].degrees,
    {
        let vs = self.vertices@;
        let ord = self.order@;
        assert(ord.contains(vertex_id));
        lemma_sum_ge_term(ord, |x: u32| vs[x].degrees as int, vertex_id);
        assert forall|c: u32| #[trigger] self.communities@.contains_key(c) implies self.communities@[c].degrees <= self.total_degrees by {
            assert(self.community_ok(c));
            lemma_sum_le(ord, |x: u32| if vs[x].community == c { vs[x].degrees as int } else { 0 }, |x: u32| vs[x].degrees as int);
        }
        let own = vs[vertex_id].community;
        assert(self.communities@.contains_key(own));
        assert(self.community_ok(own));
        assert forall|i: int| 0 <= i < ord.len() implies (|x: u32| if vs[x].community == own { vs[x].degrees as int } else { 0 })(#[trigger] ord[i]) >= 0 by {}
        lemma_sum_ge_term(ord, |x: u32| if vs[x].community == own { vs[x].degrees as int } else { 0 }, vertex_id);
    }

    /// The summed weight of the edges from `vertex_id` to vertices of community `c`.
    fn weight_to_community(&self, vertex_id: u32, c: u32) -> (r: u64)
        requires
            self.wf(),
            self.vertices@.contains_key(vertex_id),
        ensures
            r == weight_to(self.vertices@, vertex_id, c),
    {
        let x = self.vertices.get(&vertex_id).unwrap();
        assert(self.vertex_ok(vertex_id));
        let ghost ns = x.neighbors@;
        let ghost p = |u: u32| self.vertices@[u].community == c;
        let mut acc: u64 = 0;
        let mut i: usize = 0;
        assert(ns.subrange(0, 0) =~= Seq::<(u32, u64)>::empty());
        while i < x.neighbors.len()
            invariant
                ns == x.neighbors@,
                p == (|u: u32| self.vertices@[u].community == c),
                i <= ns.len(),
                self.wf(),
                self.vertex_ok(vertex_id),
                *x == self.vertices@[vertex_id],
                acc as int == weight_where(ns.subrange(0, i as int), p),
            decreases ns.len() - i,
        {
            let (u, w) = x.neighbors[i];
            assert(self.vertices@.contains_key(ns[i as int].0));
            let cu = self.vertices.get(&u).unwrap().community;
            assert(ns.subrange(0, i + 1).drop_last() =~= ns.subrange(0, i as int));
            proof {
                lemma_weight_where_nonneg(ns.subrange(0, i + 1), p);
                lemma_weight_sum_prefix(ns, i + 1);
            }
            assert(u == ns[i as int].0 && w == ns[i as int].1);
            assert(p(u) == (cu == c));
            assert(weight_where(ns.subrange(0, i + 1), p) == weight_where(ns.subrange(0, i as int), p) + if p(u) { w as int } else { 0 });
            if cu == c {
                acc = acc + w;
            }
            i = i + 1;
        }
        assert(ns.subrange(0, ns.len() as int) =~= ns);
        acc
    }

    /// The weight of `vertex_id`'s edge to itself (0 where it has none).
    fn self_weight(&self, vertex_id: u32) -> (r: u64)
        requires
            self.wf(),
            self.vertices@.contains_key(vertex_id),
        ensures
            r == weight_of(self.vertices@[vertex_id].neighbors@, vertex_id),
    {
        let x = self.vertices.get(&vertex_id).unwrap();
        assert(self.vertex_ok(vertex_id));
        match x.find(vertex_id) {
            Some(i) => {
                proof {
                    lemma_entry_weights(x.neighbors@, i as int);
                }
                x.neighbors[i].1
            },
            None => {
                proof {
                    lemma_absent_weight(x.neighbors@, vertex_id);
                }
                0
            },
        }
    }

    /// The gain in modularity, scaled by the total degree, of moving `vertex_id` into
    /// community `c`; for its own community, the vertex's share is taken out first.
    fn modularity_gain(&self, vertex_id: u32, c: u32) -> (r: i128)
        requires
            self.wf(),
            self.vertices@.contains_key(vertex_id),
            self.communities@.contains_key(c),
        ensures
            r == gain_score(self, vertex_id, c),
    {
        reveal(gain_score);
        proof {
            self.lemma_degree_bounds(vertex_id);
        }
        let x = self.vertices.get(&vertex_id).unwrap();
        assert(self.vertex_ok(vertex_id));
        let k = x.degrees;
        let mut to_c = self.weight_to_community(vertex_id, c);
        let mut tot = self.communities.get(&c).unwrap().degrees;
        proof {
            lemma_weight_where_nonneg(x.neighbors@, |u: u32| self.vertices@[u].community == c);
        }
        if x.community == c {
            let sw = self.self_weight(vertex_id);
            proof {
                lemma_self_weight_le(x.neighbors@, self.vertices@, vertex_id, c);
            }
            to_c = to_c - sw;
            tot = tot - k;
        }
        let m = self.total_degrees;
        assert(to_c as int * m as int <= 0x4000_0000_0000_0000int * 0x4000_0000_0000_0000int) by (nonlinear_arith)
            requires to_c <= 0x4000_0000_0000_0000u64, m <= 0x4000_0000_0000_0000u64;
        assert(tot as int * k as int <= 0x4000_0000_0000_0000int * 0x4000_0000_0000_0000int) by (nonlinear_arith)
            requires tot <= 0x4000_0000_0000_0000u64, k <= 0x4000_0000_0000_0000u64;
        (to_c as i128) * (m as i128) - (tot as i128) * (k as i128)
    }

    /// The community, among those of `vertex_id`'s neighbors, into which moving the vertex
    /// gains the most modularity, if that gain is positive; of equal gains, the first in
    /// neighbor order.
    #[verifier::spinoff_prover]
    #[verifier::rlimit(100)]
    pub fn max_modularity_gain(&self, vertex_id: u32) -> (r: Option<u32>)
        requires
            self.wf(),
            self.vertices@.contains_key(vertex_id),
        ensures
            best_move(self, vertex_id, r),
    {
        let x = self.vertices.get(&vertex_id).unwrap();
        assert(self.vertex_ok(vertex_id));
        let ghost ns = x.neighbors@;
        let ghost vs = self.vertices@;
        let mut best: Option<(u32, i128)> = None;
        let ghost mut bi: int = 0;
        let mut seen: HashSet<u32> = HashSet::new();
        let mut i: usize = 0;
        while i < x.neighbors.len()
            invariant
                ns == x.neighbors@,
                vs == self.vertices@,
                self.vertices@.contains_key(vertex_id),
                *x == vs[vertex_id],
                self.wf(),
                self.vertex_ok(vertex_id),
                i <= ns.len(),
                forall|c: u32| #[trigger] seen@.contains(c) ==> exists|j: int| 0 <= j < i && vs[ns[j].0].community == c,
                best is None ==> forall|j: int| 0 <= j < i ==> gain_score(self, vertex_id, #[trigger] vs[ns[j].0].community) <= 0,
                best matches Some((d, sc)) ==> {
                    &&& 0 <= bi < i
                    &&& vs[ns[bi].0].community == d
                    &&& sc == gain_score(self, vertex_id, d)
                    &&& sc > 0
                    &&& forall|j: int| 0 <= j < i ==> gain_score(self, vertex_id, #[trigger] vs[ns[j].0].community) <= sc
                    &&& forall|j: int| 0 <= j < bi ==> gain_score(self, vertex_id, #[trigger] vs[ns[j].0].community) < sc
                },
            decreases ns.len() - i,
        {
            let u = x.neighbors[i].0;
            assert(vs.contains_key(ns[i as int].0));
            let cu = self.vertices.get(&u).unwrap().community;
            assert(self.vertex_ok(u));
            if seen.contains(&cu) {
                proof {
                    let j = choose|j: int| 0 <= j < i && vs[ns[j].0].community == cu;
                    assert(gain_score(self, vertex_id, vs[ns[j].0].community) == gain_score(self, vertex_id, cu));
                }
            } else {
                seen.insert(cu);
                let g = self.modularity_gain(vertex_id, cu);
                let better = match best {
                    Some((_, sc)) => g > sc,
                    None => g > 0,
                };
                if better {
                    best = Some((cu, g));
                    proof {
                        bi = i as int;
                    }
                }
            }
            i = i + 1;
        }
        match best {
            Some((d, _)) => Some(d),
            None => None,
        }
    }

    /// Local moving of one vertex: it moves into the community that `max_modularity_gain`
    /// picks, where that is not its own; otherwise nothing changes.
    pub fn local_move(&mut self, vertex_id: u32) -> (r: Option<u32>)
        requires
            old(self).wf(),
            old(self).vertices@.contains_key(vertex_id),
        ensures
            final(self).wf(),
            best_move(old(self), vertex_id, r),
            final(self).order@ == old(self).order@,
            final(self).epoch == old(self).epoch,
            final(self).total_degrees == old(self).total_degrees,
            final(self).vertices@.dom() == old(self).vertices@.dom(),
            final(self).communities@.dom() == old(self).communities@.dom(),
            match r {
                Some(d) if d != old(self).vertices@[vertex_id].community => {
                    &&& final(self).vertices@[vertex_id].community == d
                    &&& final(self).vertices@[vertex_id].id == old(self).vertices@[vertex_id].id
                    &&& final(self).vertices@[vertex_id].degrees == old(self).vertices@[vertex_id].degrees
                    &&& final(self).vertices@[vertex_id].neighbors@ == old(self).vertices@[vertex_id].neighbors@
                    &&& forall|u: u32| u != vertex_id && #[trigger] old(self).vertices@.contains_key(u) ==> final(self).vertices@[u] == old(self).vertices@[u]
                },
                _ => final(self).vertices@ == old(self).vertices@ && final(self).communities@ == old(self).communities@,
            },
    {
        let r = self.max_modularity_gain(vertex_id);
        if let Some(dst) = r {
            let ghost ns = self.vertices@[vertex_id].neighbors@;
            proof {
                let k = choose|k: int| 0 <= k < ns.len() && #[trigger] self.vertices@[ns[k].0].community == dst;
                assert(self.vertex_ok(vertex_id));
                assert(self.vertices@.contains_key(ns[k].0));
                assert(self.vertex_ok(ns[k].0));
            }
            if self.vertices.get(&vertex_id).unwrap().community != dst {
                let ghost g0 = *self;
                self.move_vertex(vertex_id, dst);
                assert(self.communities@.dom() =~= g0.communities@.dom());
            }
        }
        r
    }

    /// One pass of local moving: `local_move` on each vertex in the graph's order, each
    /// seeing the moves made before it.
    pub fn local_moving_pass(&mut self)
        requires
            old(self).wf(),
        ensures
            final(self).wf(),
            final(self).order@ == old(self).order@,
            final(self).epoch == old(self).epoch,
            final(self).total_degrees == old(self).total_degrees,
            final(self).vertices@.dom() == old(self).vertices@.dom(),
            final(self).communities@.dom() == old(self).communities@.dom(),
            symmetric(old(self)) ==> symmetric(final(self)) && modularity_numerator(final(self)) >= modularity_numerator(old(self)),
            keeps_vertices(old(self), final(self)),
            pass_of(old(self), final(self)),
    {
        let ghost g0 = *self;
        let ghost mut t: Seq<Graph> = seq![*self];
        let mut i: usize = 0;
        while i < self.order.len()
            invariant
                self.wf(),
                i <= self.order@.len(),
                self.order@ == g0.order@,
                self.epoch == g0.epoch,
                self.total_degrees == g0.total_degrees,
                self.vertices@.dom() == g0.vertices@.dom(),
                self.communities@.dom() == g0.communities@.dom(),
                symmetric(&g0) ==> symmetric(self) && modularity_numerator(self) >= modularity_numerator(&g0),
                keeps_vertices(&g0, self),
                t.len() == i + 1,
                same_state(&t[0], &g0),
                same_state(&t[i as int], self),
                forall|k: int| 0 <= k < i ==> #[trigger] local_step(&t[k], &t[k + 1], g0.order@[k]),
            decreases self.order@.len() - i,
        {
            let id = self.order[i];
            assert(self.vertices@.contains_key(id));
            let ghost before = *self;
            let r = self.local_move(id);
            proof {
                if symmetric(&g0) {
                    lemma_local_move_monotone(&before, self, id, r);
                }
                assert(best_move(&before, id, r));
                assert(local_step(&before, self, id));
                assert(g0.order@[i as int] == id);
                lemma_step_from_same(&t[i as int], &before, self, id);
                let t0 = t;
                t = t.push(*self);
                assert forall|k: int| 0 <= k < i + 1 implies #[trigger] local_step(&t[k], &t[k + 1], g0.order@[k]) by {
                    if k < i {
                        assert(t[k] == t0[k] && t[k + 1] == t0[k + 1]);
                    }
                }
                assert forall|v: u32| #[trigger] g0.vertices@.contains_key(v) implies self.vertices@[v].id == g0.vertices@[v].id
                    && self.vertices@[v].neighbors@ == g0.vertices@[v].neighbors@ && self.vertices@[v].degrees == g0.vertices@[v].degrees by {
                    assert(before.vertices@.contains_key(v));
                }
            }
            assert(self.communities@.dom() =~= g0.communities@.dom());
            i = i + 1;
        }
        assert(pass_trace(&g0, self, t));
    }

    /// The numerator of the graph's modularity over the denominator `total_degrees²`.
    pub fn modularity(&self) -> (r: i128)
        requires
            self.wf(),
        ensures
            r == modularity_numerator(self),
            -(self.total_degrees as int * self.total_degrees as int) <= r <= self.total_degrees as int * self.total_degrees as int,
    {
        let ghost ord = self.order@;
        let ghost vs = self.vertices@;
        let ghost cs = self.communities@;
        let ghost fin = |v: u32| internal_weight(vs, v);
        let ghost fdeg = |v: u32| vs[v].degrees as int;
        let ghost fsq = |c: u32| cs[c].degrees as int * cs[c].degrees as int;
        let ghost fcd = |c: u32| cs[c].degrees as int;
        let ghost fmd = |c: u32| self.total_degrees as int * (cs[c].degrees as int);
        let m = self.total_degrees;
        proof {
            assert forall|k: int| 0 <= k < ord.len() implies fin(#[trigger] ord[k]) <= fdeg(ord[k]) && fin(ord[k]) >= 0 by {
                assert(vs.contains_key(ord[k]));
                assert(self.vertex_ok(ord[k]));
                lemma_weight_where_nonneg(vs[ord[k]].neighbors@, |u: u32| vs[u].community == vs[ord[k]].community);
            }
            lemma_sum_le(ord, fin, fdeg);
            assert forall|k: int| 0 <= k < ord.len() implies fsq(#[trigger] ord[k]) <= fmd(ord[k]) && fsq(ord[k]) >= 0 by {
                assert(cs.contains_key(ord[k]));
                self.lemma_degree_bounds(ord[k]);
                let d = cs[ord[k]].degrees as int;
                assert(d * d <= m as int * d && d * d >= 0) by (nonlinear_arith)
                    requires 0 <= d <= m;
            }
            lemma_sum_le(ord, fsq, fmd);
            lemma_sum_scale(ord, fcd, fmd, m as int);
            assert forall|k: int| 0 <= k < ord.len() implies fin(#[trigger] ord[k]) >= 0 by {}
            assert forall|k: int| 0 <= k < ord.len() implies fsq(#[trigger] ord[k]) >= 0 by {}
            assert(ord.subrange(0, 0) =~= Seq::<u32>::empty());
        }
        let mut inner: u64 = 0;
        let mut sq: u128 = 0;
        let mut i: usize = 0;
        while i < self.order.len()
            invariant
                self.wf(),
                ord == self.order@,
                vs == self.vertices@,
                cs == self.communities@,
                m == self.total_degrees,
                fin == (|v: u32| internal_weight(vs, v)),
                fsq == (|c: u32| cs[c].degrees as int * cs[c].degrees as int),
                i <= ord.len(),
                inner as int == sum_of(ord.subrange(0, i as int), fin),
                sq as int == sum_of(ord.subrange(0, i as int), fsq),
                sum_of(ord, fin) <= m,
                sum_of(ord, fsq) <= m as int * m as int,
                forall|k: int| 0 <= k < ord.len() ==> fin(#[trigger] ord[k]) >= 0,
                forall|k: int| 0 <= k < ord.len() ==> fsq(#[trigger] ord[k]) >= 0,
            decreases ord.len() - i,
        {
            let id = self.order[i];
            assert(vs.contains_key(id));
            assert(self.vertex_ok(id));
            let c = self.vertices.get(&id).unwrap().community;
            let w = self.weight_to_community(id, c);
            let d = self.communities.get(&id).unwrap().degrees;
            proof {
                lemma_sum_prefix_step(ord, fin, i as int);
                lemma_sum_prefix_step(ord, fsq, i as int);
                lemma_sum_prefix_le(ord, fin, i + 1);
                lemma_sum_prefix_le(ord, fsq, i + 1);
                assert(m as int * m as int <= 0x4000_0000_0000_0000int * 0x4000_0000_0000_0000int) by (nonlinear_arith)
                    requires m <= 0x4000_0000_0000_0000u64;
            }
            inner = inner + w;
            sq = sq + (d as u128) * (d as u128);
            i = i + 1;
        }
        proof {
            assert(ord.subrange(0, ord.len() as int) =~= ord);
            assert(m as int * inner as int <= 0x4000_0000_0000_0000int * 0x4000_0000_0000_0000int) by (nonlinear_arith)
                requires m <= 0x4000_0000_0000_0000u64, inner <= m;
            assert(m as int * m as int <= 0x4000_0000_0000_0000int * 0x4000_0000_0000_0000int) by (nonlinear_arith)
                requires m <= 0x4000_0000_0000_0000u64;
            assert(sq <= m as int * m as int);
            lemma_sum_ext(ord, fin, |v: u32| internal_weight(self.vertices@, v));
            lemma_sum_ext(ord, fsq, |c: u32| self.communities@[c].degrees as int * self.communities@[c].degrees as int);
            assert(m as int * inner as int <= m as int * m as int) by (nonlinear_arith)
                requires inner <= m;
            assert(0 <= m as int * inner as int) by (nonlinear_arith)
                requires 0 <= inner, 0 <= m;
        }
        (m as i128) * (inner as i128) - (sq as i128)
    }

    /// Adds the edges of vertex `id`, the `i`-th of the order, to the contracted vertex of
    /// its community.
    #[verifier::spinoff_prover]
    #[verifier::rlimit(100)]
    fn absorb_vertex(&self, sv: &mut HashMap<u32, Vertex>, nord: &Vec<u32>, id: u32, Ghost(i): Ghost<int>)
        requires
            self.wf(),
            0 <= i < self.order@.len(),
            self.order@[i] == id,
            old(sv)@.contains_key(self.vertices@[id].community),
            nord@.no_duplicates(),
            forall|y: u32| #[trigger] old(sv)@.contains_key(y) <==> nord@.contains(y),
            forall|y: u32| #[trigger] old(sv)@.contains_key(y) ==> contracted_ok(self.vertices@, old(sv)@[y], y),
            degree_sum(old(sv)@, nord@) == degree_sum(self.vertices@, self.order@.subrange(0, i)),
            degree_sum(self.vertices@, self.order@.subrange(0, i + 1)) == degree_sum(self.vertices@, self.order@.subrange(0, i)) + self.vertices@[id].degrees,
            degree_sum(self.vertices@, self.order@.subrange(0, i + 1)) <= self.total_degrees,
            forall|y: u32, d: u32| old(sv)@.contains_key(y) ==> #[trigger] weight_of(old(sv)@[y].neighbors@, d) == weight_between(self.vertices@, self.order@.subrange(0, i), y, d),
            forall|y: u32| #[trigger] old(sv)@.contains_key(y) ==> old(sv)@[y].degrees == member_degrees(self.vertices@, self.order@.subrange(0, i), y),
        ensures
            final(sv)@.dom() == old(sv)@.dom(),
            forall|y: u32| #[trigger] final(sv)@.contains_key(y) ==> contracted_ok(self.vertices@, final(sv)@[y], y),
            degree_sum(final(sv)@, nord@) == degree_sum(self.vertices@, self.order@.subrange(0, i + 1)),
            forall|y: u32, d: u32| final(sv)@.contains_key(y) ==> #[trigger] weight_of(final(sv)@[y].neighbors@, d) == weight_between(self.vertices@, self.order@.subrange(0, i + 1), y, d),
            forall|y: u32| #[trigger] final(sv)@.contains_key(y) ==> final(sv)@[y].degrees == member_degrees(self.vertices@, self.order@.subrange(0, i + 1), y),
    {
        let ghost ord = self.order@;
        let ghost vs = self.vertices@;
        let ghost sv_in = sv@;
        assert(vs.contains_key(id)) by {
            assert(ord.contains(id));
        }
        assert(self.vertex_ok(id));
        let x = self.vertices.get(&id).unwrap();
        let c = x.community;
        proof {
            lemma_between_step(vs, ord, i);
        }
        let ghost base = degree_sum(sv@, nord@);
        let ghost ns = x.neighbors@;
        let mut j: usize = 0;
        proof {
            assert(ns.subrange(0, 0) =~= Seq::<(u32, u64)>::empty());
        }
        while j < x.neighbors.len()
            invariant
                self.wf(),
                ord == self.order@,
                vs == self.vertices@,
                *x == vs[id],
                ns == x.neighbors@,
                c == vs[id].community,
                self.vertex_ok(id),
                j <= ns.len(),
                base + vs[id].degrees <= self.total_degrees,
                sv@.dom() == sv_in.dom(),
                sv@.contains_key(c),
                nord@.no_duplicates(),
                forall|y: u32| #[trigger] sv@.contains_key(y) <==> nord@.contains(y),
                forall|y: u32| #[trigger] sv@.contains_key(y) ==> contracted_ok(vs, sv@[y], y),
                degree_sum(sv@, nord@) == base + weight_sum(ns.subrange(0, j as int)),
                forall|y: u32, d: u32| sv@.contains_key(y) ==> #[trigger] weight_of(sv@[y].neighbors@, d) == weight_between(vs, ord.subrange(0, i), y, d) + if y == c {
                    weight_where(ns.subrange(0, j as int), |u: u32| vs[u].community == d)
                } else {
                    0
                },
                forall|y: u32| #[trigger] sv@.contains_key(y) ==> sv@[y].degrees == member_degrees(vs, ord.subrange(0, i), y) + if y == c {
                    weight_sum(ns.subrange(0, j as int))
                } else {
                    0
                },
            decreases ns.len() - j,
        {
            let (u, w) = x.neighbors[j];
            assert(vs.contains_key(ns[j as int].0));
            let d = self.vertices.get(&u).unwrap().community;
            proof {
                assert(ns.subrange(0, j + 1).drop_last() =~= ns.subrange(0, j as int));
                lemma_weight_sum_prefix(ns, j + 1);
                assert(self.vertex_ok(u));
                assert(occupied(vs).contains(d)) by {
                    assert(vs.contains_key(u));
                }
            }
            let ghost sv0 = sv@;
            accumulate_edge(sv, nord, c, d, w, Ghost(vs));
            proof {
                assert forall|y: u32, e: u32| sv@.contains_key(y) implies #[trigger] weight_of(sv@[y].neighbors@, e) == weight_between(vs, ord.subrange(0, i), y, e) + if y == c {
                    weight_where(ns.subrange(0, j + 1), |u: u32| vs[u].community == e)
                } else {
                    0
                } by {
                    assert(sv0.contains_key(y));
                    assert(weight_of(sv0[y].neighbors@, e) == weight_between(vs, ord.subrange(0, i), y, e) + if y == c {
                        weight_where(ns.subrange(0, j as int), |u: u32| vs[u].community == e)
                    } else {
                        0
                    });
                    if y == c {
                        assert(ns.subrange(0, j + 1).last() == (u, w));
                    }
                }
                assert forall|y: u32| #[trigger] sv@.contains_key(y) implies sv@[y].degrees == member_degrees(vs, ord.subrange(0, i), y) + if y == c {
                    weight_sum(ns.subrange(0, j + 1))
                } else {
                    0
                } by {
                    assert(sv0.contains_key(y));
                }
            }
            j = j + 1;
        }
        proof {
            assert(ns.subrange(0, ns.len() as int) =~= ns);
            assert forall|y: u32, d: u32| sv@.contains_key(y) implies #[trigger] weight_of(sv@[y].neighbors@, d) == weight_between(vs, ord.subrange(0, i + 1), y, d) by {
                assert(weight_to(vs, id, d) == weight_where(ns, |u: u32| vs[u].community == d));
            }
            assert(vs[id].wf());
        }
    }

    /// Contracts each non-empty community into one vertex named by the community's id. Its
    /// edges to other communities carry the summed weight of the edges between them; the
    /// weight of the edges inside the community becomes its edge to itself. Each new vertex
    /// starts in a community of its own, and the epoch advances.
    #[verifier::spinoff_prover]
    #[verifier::rlimit(100)]
    pub fn merge(&self) -> (r: Graph)
        requires
            self.wf(),
            self.epoch < usize::MAX,
        ensures
            r.wf(),
            r.total_degrees == self.total_degrees,
            r.epoch == self.epoch + 1,
            forall|c: u32| #[trigger] r.vertices@.contains_key(c) <==> occupied(self.vertices@).contains(c),
            forall|c: u32| #[trigger] r.vertices@.contains_key(c) ==> r.vertices@[c].community == c,
            forall|c: u32| #[trigger] r.vertices@.contains_key(c) ==> r.vertices@[c].degrees == self.communities@[c].degrees,
            forall|c: u32, d: u32| r.vertices@.contains_key(c) ==> #[trigger] weight_of(r.vertices@[c].neighbors@, d) == weight_between(self.vertices@, self.order@, c, d),
            forall|c: u32, d: u32| r.vertices@.contains_key(c) ==> (#[trigger] has_key(r.vertices@[c].neighbors@, d) <==> weight_between(self.vertices@, self.order@, c, d) > 0),
            symmetric(self) ==> symmetric(&r),
    {
        let ghost ord = self.order@;
        let ghost vs = self.vertices@;
        let m = self.total_degrees;
        let mut sv: HashMap<u32, Vertex> = HashMap::new();
        let mut nord: Vec<u32> = Vec::new();
        let mut i: usize = 0;
        proof {
            assert(ord.subrange(0, 0) =~= Seq::<u32>::empty());
        }
        while i < self.order.len()
            invariant
                self.wf(),
                ord == self.order@,
                vs == self.vertices@,
                m == self.total_degrees,
                i <= ord.len(),
                nord@.no_duplicates(),
                forall|c: u32| #[trigger] sv@.contains_key(c) <==> nord@.contains(c),
                forall|c: u32| #[trigger] sv@.contains_key(c) <==> exists|k: int| 0 <= k < i && vs[ord[k]].community == c,
                forall|c: u32| #[trigger] sv@.contains_key(c) ==> contracted_ok(vs, sv@[c], c),
                degree_sum(sv@, nord@) == degree_sum(vs, ord.subrange(0, i as int)),
                forall|y: u32, d: u32| sv@.contains_key(y) ==> #[trigger] weight_of(sv@[y].neighbors@, d) == weight_between(vs, ord.subrange(0, i as int), y, d),
                forall|y: u32| #[trigger] sv@.contains_key(y) ==> sv@[y].degrees == member_degrees(vs, ord.subrange(0, i as int), y),
            decreases ord.len() - i,
        {
            let id = self.order[i];
            assert(vs.contains_key(id));
            assert(self.vertex_ok(id));
            let c = self.vertices.get(&id).unwrap().community;
            if !sv.contains_key(&c) {
                let ghost sv0 = sv@;
                proof {
                    assert forall|k: int| 0 <= k < ord.subrange(0, i as int).len() implies vs[#[trigger] ord.subrange(0, i as int)[k]].community != c by {
                        assert(ord.subrange(0, i as int)[k] == ord[k]);
                    }
                    lemma_between_zero(vs, ord.subrange(0, i as int), c);
                }
                open_vertex(&mut sv, &mut nord, c);
                proof {
                    assert forall|y: u32, d: u32| sv@.contains_key(y) implies #[trigger] weight_of(sv@[y].neighbors@, d) == weight_between(vs, ord.subrange(0, i as int), y, d) by {
                        if y == c {
                            lemma_absent_weight(sv@[y].neighbors@, d);
                        } else {
                            assert(sv0.contains_key(y));
                        }
                    }
                    assert forall|y: u32| #[trigger] sv@.contains_key(y) implies sv@[y].degrees == member_degrees(vs, ord.subrange(0, i as int), y) by {
                        if y != c {
                            assert(sv0.contains_key(y));
                        }
                    }
                }
            }
            proof {
                lemma_degree_prefix(vs, ord, i as int);
            }
            self.absorb_vertex(&mut sv, &nord, id, Ghost(i as int));
            proof {
                assert forall|y: u32| #[trigger] sv@.contains_key(y) <==> exists|k: int| 0 <= k < i + 1 && vs[ord[k]].community == y by {
                    if sv@.contains_key(y) && y != c {
                        let k = choose|k: int| 0 <= k < i && vs[ord[k]].community == y;
                    }
                }
            }
            i = i + 1;
        }
        proof {
            assert(ord.subrange(0, ord.len() as int) =~= ord);
            assert forall|y: u32| #[trigger] sv@.contains_key(y) implies sv@[y].degrees == self.communities@[y].degrees by {
                let k = choose|k: int| 0 <= k < ord.len() && vs[ord[k]].community == y;
                assert(vs.contains_key(ord[k]));
                assert(self.vertex_ok(ord[k]));
                assert(self.order@.contains(y));
                assert(self.communities@.contains_key(y));
                assert(self.community_ok(y));
            }
        }
        let cs = singleton_communities(&sv, &nord);
        let ghost cs0 = cs@;
        let ghost nord0 = nord@;
        let g = Graph { epoch: self.epoch + 1, total_degrees: m, communities: cs, vertices: sv, order: nord };
        proof {
            assert(g.communities@ == cs0);
            assert(g.order@ == nord0);
            assert forall|y: u32| #[trigger] g.communities@.contains_key(y) <==> exists|t: int| 0 <= t < g.order@.len() && g.order@[t] == y by {
                assert(cs0.contains_key(y) <==> exists|t: int| 0 <= t < nord0.len() && nord0[t] == y);
            }
            assert forall|y: u32| #[trigger] g.vertices@.contains_key(y) <==> occupied(vs).contains(y) by {
                if g.vertices@.contains_key(y) {
                    let t = choose|t: int| 0 <= t < ord.len() && vs[ord[t]].community == y;
                    assert(vs.contains_key(ord[t]));
                }
                if occupied(vs).contains(y) {
                    let v = choose|v: u32| #[trigger] vs.contains_key(v) && vs[v].community == y;
                    assert(ord.contains(v));
                    let t = choose|t: int| 0 <= t < ord.len() && ord[t] == v;
                    assert(vs[ord[t]].community == y);
                }
            }
            assert forall|y: u32| #[trigger] g.vertices@.contains_key(y) implies singleton_ok(g.vertices@, y) by {
                let x = g.vertices@[y];
                assert(contracted_ok(vs, x, y));
                assert forall|t: int| 0 <= t < x.neighbors@.len() implies g.vertices@.contains_key(#[trigger] x.neighbors@[t].0) by {
                    assert(occupied(vs).contains(x.neighbors@[t].0));
                }
            }
            g.lemma_singletons_wf();
            assert forall|c: u32, d: u32| g.vertices@.contains_key(c) implies (#[trigger] has_key(g.vertices@[c].neighbors@, d) <==> weight_between(self.vertices@, self.order@, c, d) > 0) by {
                assert(g.vertex_ok(c));
                lemma_key_iff_positive(g.vertices@[c].neighbors@);
            }
            if symmetric(self) {
                assert forall|a: u32, b: u32| g.vertices@.contains_key(a) && g.vertices@.contains_key(b) implies #[trigger] weight_of(g.vertices@[a].neighbors@, b) == #[trigger] weight_of(g.vertices@[b].neighbors@, a) by {
                    lemma_between_symmetric(self, a, b);
                }
            }
        }
        g
    }

    /// A graph whose vertices each name their own community, with the singleton community of
    /// the same degree, is well formed.
    proof fn lemma_singletons_wf(&self)
        requires
            self.order@.no_duplicates(),
            forall|y: u32| #[trigger] self.vertices@.contains_key(y) <==> self.order@.contains(y),
            forall|y: u32| #[trigger] self.vertices@.contains_key(y) ==> singleton_ok(self.vertices@, y),
            forall|y: u32| #[trigger] self.communities@.contains_key(y) <==> exists|t: int| 0 <= t < self.order@.len() && self.order@[t] == y,
            forall|y: u32| #[trigger] self.communities@.contains_key(y) ==> self.communities@[y].id == y && self.communities@[y].vertices@ == set![y] && self.communities@[y].degrees == self.vertices@[y].degrees,
            degree_sum(self.vertices@, self.order@) == self.total_degrees,
            self.total_degrees <= MAX_TOTAL_DEGREES,
        ensures
            self.wf(),
    {
        let nvs = self.vertices@;
        let cs = self.communities@;
        let ord = self.order@;
        assert forall|y: u32| #[trigger] cs.contains_key(y) <==> ord.contains(y) by {}
        assert forall|y: u32| #[trigger] nvs.contains_key(y) implies self.vertex_ok(y) by {
            assert(singleton_ok(nvs, y));
        }
        assert forall|y: u32| #[trigger] cs.contains_key(y) implies self.community_ok(y) by {
            assert(ord.contains(y));
            assert(members(nvs, y) =~= set![y]);
            assert forall|i: int| 0 <= i < ord.len() implies nvs[#[trigger] ord[i]].community == ord[i] by {
                assert(nvs.contains_key(ord[i]));
                assert(singleton_ok(nvs, ord[i]));
            }
            lemma_singleton_member_degrees(nvs, ord, y);
            assert(cs[y].id == y);
            assert(cs[y].vertices@ == members(nvs, y));
            assert(cs[y].degrees as int == member_degrees(nvs, ord, y));
        }
        assert forall|i: int| 0 <= i < ord.len() implies (|c: u32| cs[c].degrees as int)(#[trigger] ord[i]) == (|v: u32| nvs[v].degrees as int)(ord[i]) by {
            assert(cs.contains_key(ord[i]));
        }
        lemma_sum_ext(ord, |c: u32| cs[c].degrees as int, |v: u32| nvs[v].degrees as int);
    }

    /// Whether a pass that moved the modularity numerator from `before` to `after` has
    /// converged: the change in modularity is below `1 / CONVERGENCE_DIVISOR`.
    pub fn converged(&self, before: i128, after: i128) -> (r: bool)
        requires
            self.total_degrees <= MAX_TOTAL_DEGREES,
            -(self.total_degrees as int * self.total_degrees as int) <= before <= self.total_degrees as int * self.total_degrees as int,
            -(self.total_degrees as int * self.total_degrees as int) <= after <= self.total_degrees as int * self.total_degrees as int,
        ensures
            r == (CONVERGENCE_DIVISOR * abs_int(after - before) < self.total_degrees as int * self.total_degrees as int),
    {
        let m = self.total_degrees as u128;
        assert(m * m <= 0x4000_0000_0000_0000int * 0x4000_0000_0000_0000int) by (nonlinear_arith)
            requires m <= 0x4000_0000_0000_0000u128;
        let m2 = m * m;
        let diff: u128 = if after >= before {
            (after - before) as u128
        } else {
            (before - after) as u128
        };
        if m2 == 0 {
            return false;
        }
        let limit = (m2 - 1) / CONVERGENCE_DIVISOR;
        assert((diff <= limit) == (1000 * diff < m2)) by (nonlinear_arith)
            requires limit == (m2 - 1) / 1000, m2 >= 1, diff >= 0;
        diff <= limit
    }

    /// One epoch of the Louvain method: local-moving passes until the modularity settles
    /// (or `MAX_INNER_ITERS` passes), then contraction. Returns the contracted graph and the
    /// modularity numerator reached, over `total_degrees²`.
    #[verifier::spinoff_prover]
    #[verifier::rlimit(100)]
    pub fn louvain(&mut self) -> (r: (Graph, i128))
        requires
            old(self).wf(),
            old(self).epoch < usize::MAX,
        ensures
            final(self).wf(),
            final(self).order@ == old(self).order@,
            final(self).total_degrees == old(self).total_degrees,
            final(self).vertices@.dom() == old(self).vertices@.dom(),
            r.1 == modularity_numerator(final(self)),
            symmetric(old(self)) ==> r.1 >= modularity_numerator(old(self)) && symmetric(&r.0),
            r.0.wf(),
            r.0.total_degrees == old(self).total_degrees,
            r.0.epoch == old(self).epoch + 1,
            forall|c: u32| #[trigger] r.0.vertices@.contains_key(c) <==> occupied(final(self).vertices@).contains(c),
            forall|c: u32| #[trigger] r.0.vertices@.contains_key(c) ==> r.0.vertices@[c].community == c,
            forall|c: u32| #[trigger] r.0.vertices@.contains_key(c) ==> r.0.vertices@[c].degrees == final(self).communities@[c].degrees,
            forall|c: u32, d: u32| r.0.vertices@.contains_key(c) ==> #[trigger] weight_of(r.0.vertices@[c].neighbors@, d) == weight_between(final(self).vertices@, final(self).order@, c, d),
            forall|c: u32, d: u32| r.0.vertices@.contains_key(c) ==> (#[trigger] has_key(r.0.vertices@[c].neighbors@, d) <==> weight_between(final(self).vertices@, final(self).order@, c, d) > 0),
            keeps_vertices(old(self), final(self)),
            exists|states: Seq<Graph>, conv: bool|
                #[trigger] epoch_trace(old(self), final(self), states, conv) && states.len() - 1 <= MAX_INNER_ITERS && (states.len() - 1 < MAX_INNER_ITERS ==> conv),
    {
        let ghost g0 = *self;
        let ghost mut states: Seq<Graph> = seq![*self];
        let mut last = self.modularity();
        let mut passes: usize = 0;
        let mut done = false;
        while passes < MAX_INNER_ITERS && !done
            invariant
                self.wf(),
                self.order@ == g0.order@,
                self.epoch == g0.epoch,
                self.total_degrees == g0.total_degrees,
                self.vertices@.dom() == g0.vertices@.dom(),
                last == modularity_numerator(self),
                -(self.total_degrees as int * self.total_degrees as int) <= last <= self.total_degrees as int * self.total_degrees as int,
                symmetric(&g0) ==> symmetric(self) && last >= modularity_numerator(&g0),
                keeps_vertices(&g0, self),
                passes <= MAX_INNER_ITERS,
                passes == 0 ==> !done,
                states.len() == passes + 1,
                same_state(&states[0], &g0),
                same_state(&states[passes as int], self),
                forall|j: int| 0 <= j < passes ==> #[trigger] pass_of(&states[j], &states[j + 1]),
                forall|j: int| 0 <= j < passes - 1 ==> !#[trigger] pass_converged(&states[j], &states[j + 1]),
                passes > 0 ==> done == pass_converged(&states[passes - 1], &states[passes as int]),
            decreases MAX_INNER_ITERS - passes,
        {
            let ghost before = *self;
            self.local_moving_pass();
            let q = self.modularity();
            done = self.converged(last, q);
            proof {
                assert(done == pass_converged(&before, self));
                lemma_epoch_step(states, passes as int, &before, self, done);
                states = states.push(*self);
                assert forall|v: u32| #[trigger] g0.vertices@.contains_key(v) implies self.vertices@[v].id == g0.vertices@[v].id
                    && self.vertices@[v].neighbors@ == g0.vertices@[v].neighbors@ && self.vertices@[v].degrees == g0.vertices@[v].degrees by {
                    assert(before.vertices@.contains_key(v));
                }
            }
            last = q;
            passes = passes + 1;
        }
        assert(epoch_trace(&g0, self, states, done));
        (self.merge(), last)
    }

    /// Builds the graph of a sorted array of packed edges: a vertex for each id that an
    /// edge names, each edge `(v, u)` adding 1 to the weight of `v`'s edge to `u`, and each
    /// vertex alone in a community named by its id.
    #[verifier::spinoff_prover]
    #[verifier::rlimit(100)]
    pub fn from_edges(epoch: usize, edges: &[EdgeAsInt]) -> (r: Graph)
        requires
            forall|a: int, b: int| 0 <= a < b < edges@.len() ==> edges@[a] <= edges@[b],
            edges@.len() <= MAX_TOTAL_DEGREES,
        ensures
            r.wf(),
            r.epoch == epoch,
            r.total_degrees == edges@.len(),
            forall|v: u32| #[trigger] r.vertices@.contains_key(v) <==> endpoints(edges@).contains(v),
            forall|v: u32| #[trigger] r.vertices@.contains_key(v) ==> r.vertices@[v].community == v,
            forall|v: u32, u: u32| r.vertices@.contains_key(v) ==> weight_of(r.vertices@[v].neighbors@, u) == #[trigger] edge_count(edges@, v, u),
            forall|v: u32, u: u32| r.vertices@.contains_key(v) ==> (#[trigger] has_key(r.vertices@[v].neighbors@, u) <==> edge_count(edges@, v, u) > 0),
            symmetric_counts(edges@) ==> symmetric(&r),
    {
        let ghost es = edges@;
        let mut vs: HashMap<u32, Vertex> = HashMap::new();
        let mut ord: Vec<u32> = Vec::new();
        let n = edges.len();
        let mut i: usize = 0;
        proof {
            assert(es.subrange(0, 0) =~= Seq::<u64>::empty());
        }
        while i < n
            invariant
                es == edges@,
                n == es.len(),
                n <= MAX_TOTAL_DEGREES,
                forall|a: int, b: int| 0 <= a < b < es.len() ==> es[a] <= es[b],
                i <= n,
                ord@.no_duplicates(),
                forall|y: u32| #[trigger] vs@.contains_key(y) <==> ord@.contains(y),
                forall|y: u32| #[trigger] vs@.contains_key(y) ==> built_ok(vs@, y),
                forall|y: u32| #[trigger] vs@.contains_key(y) ==> exists|j: int| 0 <= j < i && from_of(es[j]) == y,
                forall|j: int| 0 <= j < i ==> vs@.contains_key(#[trigger] from_of(es[j])),
                i > 0 ==> {
                    let f = from_of(es[i - 1]);
                    &&& vs@.contains_key(f)
                    &&& vs@[f].neighbors@.len() > 0
                    &&& vs@[f].neighbors@.last().0 == to_of(es[i - 1])
                    &&& forall|y: u32| #[trigger] vs@.contains_key(y) ==> y <= f
                },
                forall|y: u32, u: u32| #[trigger] edge_count(es.subrange(0, i as int), y, u) == if vs@.contains_key(y) { weight_of(vs@[y].neighbors@, u) } else { 0 },
                degree_sum(vs@, ord@) == i,
            decreases n - i,
        {
            let e = Edge::from_int(edges[i]);
            let f = e.0;
            let t = e.1;
            let fresh = i == 0 || Edge::from_int(edges[i - 1]).0 != f;
            proof {
                if i > 0 {
                    assert(es[i - 1] <= es[i as int]);
                    lemma_key_order(es[i - 1], es[i as int]);
                    if !fresh {
                        lemma_same_source_order(es[i - 1], es[i as int]);
                    }
                }
                lemma_count_step(es, i as int);
            }
            if fresh {
                open_vertex(&mut vs, &mut ord, f);
            }
            add_sorted_edge(&mut vs, &ord, f, t);
            proof {
                assert forall|y: u32| #[trigger] vs@.contains_key(y) implies exists|j: int| 0 <= j < i + 1 && from_of(es[j]) == y by {
                    if y != f {
                        let j = choose|j: int| 0 <= j < i && from_of(es[j]) == y;
                    } else {
                        assert(from_of(es[i as int]) == y);
                    }
                }
            }
            i = i + 1;
        }
        proof {
            assert(es.subrange(0, n as int) =~= es);
        }
        let n0 = ord.len();
        let mut k: usize = 0;
        while k < n0
            invariant
                es == edges@,
                n == es.len(),
                n <= MAX_TOTAL_DEGREES,
                n0 <= ord@.len(),
                k <= n0,
                ord@.no_duplicates(),
                forall|y: u32| #[trigger] vs@.contains_key(y) <==> ord@.contains(y),
                forall|y: u32| #[trigger] vs@.contains_key(y) ==> built_ok(vs@, y),
                forall|y: u32| #[trigger] vs@.contains_key(y) ==> endpoints(es).contains(y),
                forall|j: int| 0 <= j < n ==> vs@.contains_key(#[trigger] from_of(es[j])),
                forall|t: int| n0 <= t < ord@.len() ==> vs@[#[trigger] ord@[t]].neighbors@.len() == 0,
                forall|t: int, q: int| 0 <= t < k && 0 <= q < vs@[ord@[t]].neighbors@.len() ==> vs@.contains_key(#[trigger] vs@[#[trigger] ord@[t]].neighbors@[q].0),
                forall|y: u32, u: u32| #[trigger] edge_count(es, y, u) == if vs@.contains_key(y) { weight_of(vs@[y].neighbors@, u) } else { 0 },
                degree_sum(vs@, ord@) == n,
            decreases n0 - k,
        {
            let v = ord[k];
            assert(vs@.contains_key(v));
            let len = vs.get(&v).unwrap().neighbors.len();
            let ghost ns = vs@[v].neighbors@;
            let mut j: usize = 0;
            while j < len
                invariant
                    es == edges@,
                    n == es.len(),
                    n <= MAX_TOTAL_DEGREES,
                    n0 <= ord@.len(),
                    k < n0,
                    v == ord@[k as int],
                    vs@.contains_key(v),
                    ns == vs@[v].neighbors@,
                    len == ns.len(),
                    j <= len,
                    ord@.no_duplicates(),
                    forall|y: u32| #[trigger] vs@.contains_key(y) <==> ord@.contains(y),
                    forall|y: u32| #[trigger] vs@.contains_key(y) ==> built_ok(vs@, y),
                    forall|y: u32| #[trigger] vs@.contains_key(y) ==> endpoints(es).contains(y),
                    forall|j: int| 0 <= j < n ==> vs@.contains_key(#[trigger] from_of(es[j])),
                    forall|t: int| n0 <= t < ord@.len() ==> vs@[#[trigger] ord@[t]].neighbors@.len() == 0,
                    forall|t: int, q: int| 0 <= t < k && 0 <= q < vs@[ord@[t]].neighbors@.len() ==> vs@.contains_key(#[trigger] vs@[#[trigger] ord@[t]].neighbors@[q].0),
                    forall|q: int| 0 <= q < j ==> vs@.contains_key(#[trigger] ns[q].0),
                    forall|y: u32, u: u32| #[trigger] edge_count(es, y, u) == if vs@.contains_key(y) { weight_of(vs@[y].neighbors@, u) } else { 0 },
                    degree_sum(vs@, ord@) == n,
                decreases len - j,
            {
                let u = vs.get(&v).unwrap().neighbors[j].0;
                if !vs.contains_key(&u) {
                    let ghost vs0 = vs@;
                    let ghost ord0 = ord@;
                    proof {
                        assert(built_ok(vs0, v));
                        lemma_entry_weights(ns, j as int);
                        assert(edge_count(es, v, u) >= 1);
                        lemma_count_pos(es, v, u);
                    }
                    open_vertex(&mut vs, &mut ord, u);
                    proof {
                        assert forall|y: u32| #[trigger] vs@.contains_key(y) implies built_ok(vs@, y) by {
                            if y != u {
                                assert(vs0.contains_key(y));
                                assert(built_ok(vs0, y));
                            }
                        }
                        assert forall|t: int| n0 <= t < ord@.len() implies vs@[#[trigger] ord@[t]].neighbors@.len() == 0 by {
                            if t < ord0.len() {
                                assert(ord@[t] == ord0[t]);
                                assert(ord0.contains(ord0[t]));
                            }
                        }
                        assert forall|t: int, q: int| 0 <= t < k && 0 <= q < vs@[ord@[t]].neighbors@.len() implies vs@.contains_key(#[trigger] vs@[#[trigger] ord@[t]].neighbors@[q].0) by {
                            assert(ord@[t] == ord0[t]);
                            assert(ord0.contains(ord0[t]));
                            assert(vs0.contains_key(vs0[ord0[t]].neighbors@[q].0));
                        }
                        assert forall|y: u32, w: u32| #[trigger] edge_count(es, y, w) == if vs@.contains_key(y) { weight_of(vs@[y].neighbors@, w) } else { 0 } by {
                            if y == u {
                                assert(!vs0.contains_key(u));
                                assert(edge_count(es, y, w) == 0);
                                lemma_absent_weight(vs@[u].neighbors@, w);
                            }
                        }
                    }
                }
                j = j + 1;
            }
            proof {
                assert forall|t: int, q: int| 0 <= t < k + 1 && 0 <= q < vs@[ord@[t]].neighbors@.len() implies vs@.contains_key(#[trigger] vs@[#[trigger] ord@[t]].neighbors@[q].0) by {
                    if t == k {
                        assert(vs@[ord@[t]].neighbors@ == ns);
                    }
                }
            }
            k = k + 1;
        }
        let cs = singleton_communities(&vs, &ord);
        let ghost cs0 = cs@;
        let ghost ord0 = ord@;
        let g = Graph { epoch, total_degrees: n as u64, communities: cs, vertices: vs, order: ord };
        proof {
            assert(g.communities@ == cs0);
            assert(g.order@ == ord0);
            assert forall|y: u32| #[trigger] g.vertices@.contains_key(y) implies singleton_ok(g.vertices@, y) by {
                assert(built_ok(g.vertices@, y));
                assert(ord0.contains(y));
                let t = choose|t: int| 0 <= t < ord0.len() && ord0[t] == y;
                let x = g.vertices@[y];
                assert forall|q: int| 0 <= q < x.neighbors@.len() implies g.vertices@.contains_key(#[trigger] x.neighbors@[q].0) by {
                    if t < n0 {
                        assert(g.vertices@.contains_key(g.vertices@[ord0[t]].neighbors@[q].0));
                    }
                }
            }
            assert forall|y: u32| #[trigger] g.communities@.contains_key(y) <==> exists|t: int| 0 <= t < g.order@.len() && g.order@[t] == y by {
                assert(cs0.contains_key(y) <==> exists|t: int| 0 <= t < ord0.len() && ord0[t] == y);
            }
            g.lemma_singletons_wf();
            assert forall|v: u32, u: u32| g.vertices@.contains_key(v) implies (#[trigger] has_key(g.vertices@[v].neighbors@, u) <==> edge_count(es, v, u) > 0) by {
                assert(g.vertex_ok(v));
                lemma_key_iff_positive(g.vertices@[v].neighbors@);
            }
            if symmetric_counts(es) {
                assert forall|a: u32, b: u32| g.vertices@.contains_key(a) && g.vertices@.contains_key(b) implies #[trigger] weight_of(g.vertices@[a].neighbors@, b) == #[trigger] weight_of(g.vertices@[b].neighbors@, a) by {
                    assert(edge_count(es, a, b) == edge_count(es, b, a));
                }
            }
            assert forall|v: u32| #[trigger] endpoints(es).contains(v) implies g.vertices@.contains_key(v) by {
                let j = choose|j: int| 0 <= j < es.len() && (from_of(es[j]) == v || to_of(es[j]) == v);
                assert(g.vertices@.contains_key(from_of(es[j])));
                if to_of(es[j]) == v {
                    let f = from_of(es[j]);
                    lemma_count_has(es, j);
                    assert(weight_of(g.vertices@[f].neighbors@, v) >= 1);
                    lemma_weight_present(g.vertices@[f].neighbors@, v);
                    let q = choose|q: int| 0 <= q < g.vertices@[f].neighbors@.len() && g.vertices@[f].neighbors@[q].0 == v;
                    assert(singleton_ok(g.vertices@, f));
                }
            }
        }
        g
    }

    /// The number of communities, empty ones included.
    pub fn community_count(&self) -> (r: usize)
        ensures
            r == self.communities@.len(),
    {
        self.communities.len()
    }
}


/// Moving vertex `v` from community `src` to `dst` moves its degree between the two
/// communities' member sums and leaves the total alone.
proof fn lemma_move_sums(
    vs0: Map<u32, Vertex>,
    vs1: Map<u32, Vertex>,
    ord: Seq<u32>,
    v: u32,
    src: u32,
    dst: u32,
)
    requires
        ord.no_duplicates(),
        ord.contains(v),
        src != dst,
        vs0[v].community == src,
        vs1[v].community == dst,
        vs1[v].degrees == vs0[v].degrees,
        forall|u: u32| u != v && #[trigger] vs0.contains_key(u) ==> vs1[u] == vs0[u],
        forall|i: int| 0 <= i < ord.len() ==> vs0.contains_key(#[trigger] ord[i]),
    ensures
        degree_sum(vs1, ord) == degree_sum(vs0, ord),
        forall|c: u32| #[trigger] member_degrees(vs1, ord, c) == member_degrees(vs0, ord, c) + if c == src {
            -(vs0[v].degrees as int)
        } else if c == dst {
            vs0[v].degrees as int
        } else {
            0
        },
        member_degrees(vs1, ord, dst) <= degree_sum(vs1, ord),
{
    assert forall|i: int| 0 <= i < ord.len() implies (|x: u32| vs0[x].degrees as int)(#[trigger] ord[i]) == (|x: u32| vs1[x].degrees as int)(ord[i]) by {
        assert(vs0.contains_key(ord[i]));
    }
    lemma_sum_ext(ord, |x: u32| vs0[x].degrees as int, |x: u32| vs1[x].degrees as int);
    assert forall|c: u32| #[trigger] member_degrees(vs1, ord, c) == member_degrees(vs0, ord, c) + if c == src {
        -(vs0[v].degrees as int)
    } else if c == dst {
        vs0[v].degrees as int
    } else {
        0
    } by {
        let f = |x: u32| if vs0[x].community == c { vs0[x].degrees as int } else { 0 };
        let g = |x: u32| if vs1[x].community == c { vs1[x].degrees as int } else { 0 };
        assert forall|i: int| 0 <= i < ord.len() && ord[i] != v implies f(#[trigger] ord[i]) == g(ord[i]) by {
            assert(vs0.contains_key(ord[i]));
        }
        lemma_sum_point(ord, f, g, v);
    }
    let h = |x: u32| if vs1[x].community == dst { vs1[x].degrees as int } else { 0 };
    assert forall|i: int| 0 <= i < ord.len() implies h(#[trigger] ord[i]) <= (|x: u32| vs1[x].degrees as int)(ord[i]) by {}
    lemma_sum_le(ord, h, |x: u32| vs1[x].degrees as int);
}


/// The summed weight of the edges from vertex `v` of `vs` to vertices of community `c`.
pub open spec fn weight_to(vs: Map<u32, Vertex>, v: u32, c: u32) -> int {
    weight_where(vs[v].neighbors@, |u: u32| vs[u].community == c)
}

/// The modularity gain of moving vertex `v` into community `c`, scaled by the total
/// degree `m`: `m * k_vc - tot_c * k_v`, where for `v`'s own community `v`'s edge to itself
/// and `v`'s degree are first taken out of `k_vc` and `tot_c`.
#[verifier::opaque]
pub open spec fn gain_score(g: &Graph, v: u32, c: u32) -> int {
    let x = g.vertices@[v];
    let own = x.community == c;
    let k_vc = weight_to(g.vertices@, v, c) - if own { weight_of(x.neighbors@, v) } else { 0 };
    let tot = g.communities@[c].degrees as int - if own { x.degrees as int } else { 0 };
    k_vc * g.total_degrees as int - tot * x.degrees as int
}

/// `r` is the move of vertex `v` that local moving makes: the community of the first
/// neighbor whose community has the greatest gain, where that gain is positive; none where
/// no neighbor's community has a positive gain.
pub open spec fn best_move(g: &Graph, v: u32, r: Option<u32>) -> bool {
    let vs = g.vertices@;
    let ns = vs[v].neighbors@;
    match r {
        Some(d) => exists|i: int| {
            &&& 0 <= i < ns.len()
            &&& vs[#[trigger] ns[i].0].community == d
            &&& gain_score(g, v, d) > 0
            &&& forall|j: int| 0 <= j < ns.len() ==> gain_score(g, v, #[trigger] vs[ns[j].0].community) <= gain_score(g, v, d)
            &&& forall|j: int| 0 <= j < i ==> gain_score(g, v, #[trigger] vs[ns[j].0].community) < gain_score(g, v, d)
        },
        None => forall|j: int| 0 <= j < ns.len() ==> gain_score(g, v, #[trigger] vs[ns[j].0].community) <= 0,
    }
}

proof fn lemma_weight_sum_prefix(ns: Seq<(u32, u64)>, i: int)
    requires
        0 <= i <= ns.len(),
    ensures
        weight_sum(ns.subrange(0, i)) <= weight_sum(ns),
    decreases ns.len() - i,
{
    if i < ns.len() {
        lemma_weight_sum_prefix(ns, i + 1);
        assert(ns.subrange(0, i + 1).drop_last() =~= ns.subrange(0, i));
    } else {
        assert(ns.subrange(0, i) =~= ns);
    }
}

proof fn lemma_self_weight_le(ns: Seq<(u32, u64)>, vs: Map<u32, Vertex>, v: u32, c: u32)
    requires
        vs[v].community == c,
    ensures
        weight_of(ns, v) <= weight_where(ns, |u: u32| vs[u].community == c),
    decreases ns.len(),
{
    if ns.len() > 0 {
        lemma_self_weight_le(ns.drop_last(), vs, v, c);
    }
}

/// The summed weight of the edges from vertex `v` to vertices of its own community.
pub open spec fn internal_weight(vs: Map<u32, Vertex>, v: u32) -> int {
    weight_to(vs, v, vs[v].community)
}

/// The modularity `Q` of the graph's partition times `m²`, where `m` is the total degree:
/// `m · Σ_v internal_weight(v) − Σ_c degrees(c)²`, that is `Σ_c (e_c·m − a_c²)`.
pub open spec fn modularity_numerator(g: &Graph) -> int {
    g.total_degrees as int * sum_of(g.order@, |v: u32| internal_weight(g.vertices@, v)) - sum_of(
        g.order@,
        |c: u32| g.communities@[c].degrees as int * g.communities@[c].degrees as int,
    )
}


/// Where every vertex is in the community named by its own id, a community's member
/// degree is the degree of the vertex that names it.
proof fn lemma_singleton_member_degrees(vs: Map<u32, Vertex>, ord: Seq<u32>, y: u32)
    requires
        ord.no_duplicates(),
        ord.contains(y),
        forall|i: int| 0 <= i < ord.len() ==> vs[#[trigger] ord[i]].community == ord[i],
    ensures
        member_degrees(vs, ord, y) == vs[y].degrees,
{
    let f = |v: u32| if vs[v].community == y { vs[v].degrees as int } else { 0 };
    assert forall|i: int| 0 <= i < ord.len() && ord[i] != y implies f(#[trigger] ord[i]) == 0 by {}
    lemma_sum_single(ord, f, y);
    let k = choose|k: int| 0 <= k < ord.len() && ord[k] == y;
    assert(vs[ord[k]].community == ord[k]);
}

/// Adds vertex `c`, with no edges yet, in its own community and at the end of the order.
fn open_vertex(sv: &mut HashMap<u32, Vertex>, nord: &mut Vec<u32>, c: u32)
    requires
        !old(sv)@.contains_key(c),
        old(nord)@.no_duplicates(),
        forall|y: u32| #[trigger] old(sv)@.contains_key(y) <==> old(nord)@.contains(y),
    ensures
        final(sv)@ == old(sv)@.insert(c, final(sv)@[c]),
        final(sv)@[c].id == c,
        final(sv)@[c].community == c,
        final(sv)@[c].wf(),
        final(sv)@[c].neighbors@.len() == 0,
        final(nord)@ == old(nord)@.push(c),
        final(nord)@.no_duplicates(),
        forall|y: u32| #[trigger] final(sv)@.contains_key(y) <==> final(nord)@.contains(y),
        degree_sum(final(sv)@, final(nord)@) == degree_sum(old(sv)@, old(nord)@),
{
    let ghost sv0 = sv@;
    let ghost nord0 = nord@;
    sv.insert(c, Vertex::new(c));
    nord.push(c);
    proof {
        assert forall|a: int, b: int| 0 <= a < b < nord@.len() implies nord@[a] != nord@[b] by {
            if b == nord0.len() {
                assert(nord0.contains(nord@[a]));
            }
        }
        assert forall|y: u32| #[trigger] sv@.contains_key(y) <==> nord@.contains(y) by {
            if nord@.contains(y) && y != c {
                let k = choose|k: int| 0 <= k < nord@.len() && nord@[k] == y;
                assert(nord0[k] == y);
            }
            if nord0.contains(y) {
                let k = choose|k: int| 0 <= k < nord0.len() && nord0[k] == y;
                assert(nord@[k] == y);
            }
            if y == c {
                assert(nord@[nord0.len() as int] == c);
            }
        }
        assert forall|i: int| 0 <= i < nord0.len() implies (|v: u32| sv0[v].degrees as int)(#[trigger] nord0[i]) == (|v: u32| sv@[v].degrees as int)(nord0[i]) by {
            assert(nord0.contains(nord0[i]));
        }
        lemma_sum_ext(nord0, |v: u32| sv0[v].degrees as int, |v: u32| sv@[v].degrees as int);
        assert(nord@.drop_last() == nord0);
    }
}

/// One singleton community for each contracted vertex, of the same degree.
fn singleton_communities(sv: &HashMap<u32, Vertex>, nord: &Vec<u32>) -> (cs: HashMap<
    u32,
    Community,
>)
    requires
        forall|y: u32| #[trigger] sv@.contains_key(y) <==> nord@.contains(y),
        forall|y: u32| #[trigger] sv@.contains_key(y) ==> sv@[y].id == y,
    ensures
        forall|y: u32| #[trigger] cs@.contains_key(y) <==> exists|t: int| 0 <= t < nord@.len() && nord@[t] == y,
        forall|y: u32| #[trigger] cs@.contains_key(y) ==> cs@[y].id == y && cs@[y].vertices@ == set![y] && cs@[y].degrees == sv@[y].degrees,
{
    let mut cs: HashMap<u32, Community> = HashMap::new();
    let mut k: usize = 0;
    while k < nord.len()
        invariant
            forall|y: u32| #[trigger] sv@.contains_key(y) <==> nord@.contains(y),
            forall|y: u32| #[trigger] sv@.contains_key(y) ==> sv@[y].id == y,
            k <= nord@.len(),
            forall|y: u32| #[trigger] cs@.contains_key(y) <==> exists|t: int| 0 <= t < k && nord@[t] == y,
            forall|y: u32| #[trigger] cs@.contains_key(y) ==> cs@[y].id == y && cs@[y].vertices@ == set![y] && cs@[y].degrees == sv@[y].degrees,
        decreases nord@.len() - k,
    {
        let id = nord[k];
        assert(sv@.contains_key(id));
        let v = sv.get(&id).unwrap();
        let c = Community::from_single_vertex(v);
        cs.insert(id, c);
        k = k + 1;
    }
    cs
}

/// What vertex `v` adds to the edge from community `c` to community `d`: the weight of
/// its edges into `d`, where it is a member of `c`.
pub open spec fn contribution(vs: Map<u32, Vertex>, c: u32, d: u32, v: u32) -> int {
    if vs[v].community == c {
        weight_to(vs, v, d)
    } else {
        0
    }
}

/// The summed weight of the edges from the members of community `c` among `ids` to
/// vertices of community `d`.
pub open spec fn weight_between(vs: Map<u32, Vertex>, ids: Seq<u32>, c: u32, d: u32) -> int {
    sum_of(ids, |v: u32| contribution(vs, c, d, v))
}

proof fn lemma_between_step(vs: Map<u32, Vertex>, ord: Seq<u32>, i: int)
    requires
        0 <= i < ord.len(),
    ensures
        forall|c: u32, d: u32| #[trigger] weight_between(vs, ord.subrange(0, i + 1), c, d) == weight_between(vs, ord.subrange(0, i), c, d) + contribution(vs, c, d, ord[i]),
        forall|c: u32| #[trigger] member_degrees(vs, ord.subrange(0, i + 1), c) == member_degrees(vs, ord.subrange(0, i), c) + if vs[ord[i]].community == c { vs[ord[i]].degrees as int } else { 0 },
{
    assert(ord.subrange(0, i + 1).drop_last() =~= ord.subrange(0, i));
    assert(ord.subrange(0, i + 1).last() == ord[i]);
}

proof fn lemma_degree_prefix(vs: Map<u32, Vertex>, ord: Seq<u32>, i: int)
    requires
        0 <= i < ord.len(),
    ensures
        degree_sum(vs, ord.subrange(0, i + 1)) == degree_sum(vs, ord.subrange(0, i)) + vs[ord[i]].degrees,
        degree_sum(vs, ord.subrange(0, i + 1)) <= degree_sum(vs, ord),
{
    assert(ord.subrange(0, i + 1).drop_last() =~= ord.subrange(0, i));
    assert(ord.subrange(0, i + 1).last() == ord[i]);
    assert forall|k: int| 0 <= k < ord.len() implies (|v: u32| vs[v].degrees as int)(#[trigger] ord[k]) >= 0 by {}
    lemma_sum_prefix_le(ord, |v: u32| vs[v].degrees as int, i + 1);
}

proof fn lemma_between_zero(vs: Map<u32, Vertex>, ids: Seq<u32>, c: u32)
    requires
        forall|k: int| 0 <= k < ids.len() ==> vs[#[trigger] ids[k]].community != c,
    ensures
        forall|d: u32| #[trigger] weight_between(vs, ids, c, d) == 0,
        member_degrees(vs, ids, c) == 0,
    decreases ids.len(),
{
    if ids.len() > 0 {
        let init = ids.drop_last();
        assert forall|k: int| 0 <= k < init.len() implies vs[#[trigger] init[k]].community != c by {
            assert(init[k] == ids[k]);
        }
        lemma_between_zero(vs, init, c);
        assert(vs[ids[ids.len() - 1]].community != c);
        assert forall|d: u32| #[trigger] weight_between(vs, ids, c, d) == 0 by {
            assert(weight_between(vs, init, c, d) == 0);
            assert(contribution(vs, c, d, ids.last()) == 0);
        }
    }
}

/// Adds weight `w` to the edge from contracted vertex `c` to `d`.
fn accumulate_edge(
    sv: &mut HashMap<u32, Vertex>,
    nord: &Vec<u32>,
    c: u32,
    d: u32,
    w: u64,
    Ghost(vs): Ghost<Map<u32, Vertex>>,
)
    requires
        old(sv)@.contains_key(c),
        nord@.no_duplicates(),
        forall|y: u32| #[trigger] old(sv)@.contains_key(y) <==> nord@.contains(y),
        forall|y: u32| #[trigger] old(sv)@.contains_key(y) ==> contracted_ok(vs, old(sv)@[y], y),
        occupied(vs).contains(d),
        w >= 1,
        degree_sum(old(sv)@, nord@) + w <= u64::MAX,
    ensures
        final(sv)@.dom() == old(sv)@.dom(),
        forall|y: u32| #[trigger] final(sv)@.contains_key(y) ==> contracted_ok(vs, final(sv)@[y], y),
        degree_sum(final(sv)@, nord@) == degree_sum(old(sv)@, nord@) + w,
        forall|y: u32| y != c ==> #[trigger] final(sv)@[y] == old(sv)@[y],
        forall|x: u32| #[trigger] weight_of(final(sv)@[c].neighbors@, x) == weight_of(old(sv)@[c].neighbors@, x) + if x == d { w as int } else { 0 },
        final(sv)@[c].degrees == old(sv)@[c].degrees + w,
{
    let ghost sv0 = sv@;
    proof {
        assert(nord@.contains(c));
        assert forall|i: int| 0 <= i < nord@.len() implies (|v: u32| sv0[v].degrees as int)(#[trigger] nord@[i]) >= 0 by {}
        lemma_sum_ge_term(nord@, |v: u32| sv0[v].degrees as int, c);
    }
    let mut y = sv.remove(&c).unwrap();
    y.add_neighbor_or_accumulate(d, w);
    sv.insert(c, y);
    proof {
        assert(sv@.dom() =~= sv0.dom());
        assert forall|i: int| 0 <= i < nord@.len() && nord@[i] != c implies (|v: u32| sv0[v].degrees as int)(#[trigger] nord@[i]) == (|v: u32| sv@[v].degrees as int)(nord@[i]) by {}
        lemma_sum_point(nord@, |v: u32| sv0[v].degrees as int, |v: u32| sv@[v].degrees as int, c);
        assert forall|t: u32| #[trigger] sv@.contains_key(t) implies contracted_ok(vs, sv@[t], t) by {
            if t == c {
                let z = sv@[t];
                assert forall|k: int| 0 <= k < z.neighbors@.len() implies occupied(vs).contains(#[trigger] z.neighbors@[k].0) by {
                    let e = z.neighbors@[k].0;
                    assert(has_key(z.neighbors@, e));
                    if e != d {
                        assert(has_key(sv0[c].neighbors@, e));
                        let k0 = choose|k0: int| 0 <= k0 < sv0[c].neighbors@.len() && sv0[c].neighbors@[k0].0 == e;
                        assert(occupied(vs).contains(sv0[c].neighbors@[k0].0));
                    }
                }
                assert forall|k: int| 0 <= k < z.neighbors@.len() implies #[trigger] z.neighbors@[k].1 >= 1 by {
                    let e = z.neighbors@[k].0;
                    lemma_entry_weights(z.neighbors@, k);
                    lemma_weight_of_nonneg(sv0[c].neighbors@, d);
                    if e != d {
                        assert(has_key(z.neighbors@, e));
                        assert(has_key(sv0[c].neighbors@, e));
                        let k0 = choose|k0: int| 0 <= k0 < sv0[c].neighbors@.len() && sv0[c].neighbors@[k0].0 == e;
                        lemma_entry_weights(sv0[c].neighbors@, k0);
                        assert(sv0[c].neighbors@[k0].1 >= 1);
                    }
                }
            }
        }
    }
}

pub open spec fn abs_int(x: int) -> int {
    if x < 0 {
        -x
    } else {
        x
    }
}

/// Vertex `y` of `vs` is consistent, in the community named by its own id, and its
/// neighbors are vertices of `vs`.
pub open spec fn singleton_ok(vs: Map<u32, Vertex>, y: u32) -> bool {
    let x = vs[y];
    &&& x.id == y
    &&& x.community == y
    &&& x.wf()
    &&& forall|t: int| 0 <= t < x.neighbors@.len() ==> vs.contains_key(#[trigger] x.neighbors@[t].0)
    &&& positive_weights(x.neighbors@)
}

/// The vertex ids that some edge of `edges` names.
pub open spec fn endpoints(edges: Seq<u64>) -> Set<u32> {
    Set::new(|v: u32| exists|j: int| 0 <= j < edges.len() && (from_of(edges[j]) == v || to_of(edges[j]) == v))
}

/// Neighbors in strictly increasing order of id.
pub open spec fn increasing_keys(ns: Seq<(u32, u64)>) -> bool {
    forall|i: int, j: int| 0 <= i < j < ns.len() ==> ns[i].0 < ns[j].0
}

/// Vertex `y` of a graph being built: consistent, alone in its community, with its
/// neighbors in increasing order.
pub open spec fn built_ok(vs: Map<u32, Vertex>, y: u32) -> bool {
    let x = vs[y];
    &&& x.id == y
    &&& x.community == y
    &&& x.wf()
    &&& increasing_keys(x.neighbors@)
    &&& positive_weights(x.neighbors@)
}

proof fn lemma_count_step(es: Seq<u64>, i: int)
    requires
        0 <= i < es.len(),
    ensures
        forall|y: u32, u: u32| #[trigger] edge_count(es.subrange(0, i + 1), y, u) == edge_count(es.subrange(0, i), y, u) + if from_of(es[i]) == y && to_of(es[i]) == u { 1int } else { 0 },
{
    assert(es.subrange(0, i + 1).drop_last() =~= es.subrange(0, i));
}

proof fn lemma_count_pos(es: Seq<u64>, v: u32, u: u32)
    requires
        edge_count(es, v, u) >= 1,
    ensures
        endpoints(es).contains(u),
    decreases es.len(),
{
    if from_of(es.last()) == v && to_of(es.last()) == u {
        assert(to_of(es[es.len() - 1]) == u);
    } else {
        lemma_count_pos(es.drop_last(), v, u);
        let j = choose|j: int| 0 <= j < es.drop_last().len() && (from_of(es.drop_last()[j]) == u || to_of(es.drop_last()[j]) == u);
        assert(es[j] == es.drop_last()[j]);
    }
}

proof fn lemma_count_has(es: Seq<u64>, j: int)
    requires
        0 <= j < es.len(),
    ensures
        edge_count(es, from_of(es[j]), to_of(es[j])) >= 1,
    decreases es.len(),
{
    lemma_count_nonneg(es.drop_last(), from_of(es[j]), to_of(es[j]));
    if j < es.len() - 1 {
        lemma_count_has(es.drop_last(), j);
    }
}

proof fn lemma_count_nonneg(es: Seq<u64>, v: u32, u: u32)
    ensures
        edge_count(es, v, u) >= 0,
    decreases es.len(),
{
    if es.len() > 0 {
        lemma_count_nonneg(es.drop_last(), v, u);
    }
}

proof fn lemma_weight_present(ns: Seq<(u32, u64)>, u: u32)
    requires
        weight_of(ns, u) >= 1,
    ensures
        has_key(ns, u),
{
    if !has_key(ns, u) {
        lemma_absent_weight(ns, u);
    }
}

/// Adds 1 to the weight of the edge from `f` to `t`, where `t` is at least each neighbor
/// `f` has: the edge is `f`'s last neighbor or a new one after it.
fn add_sorted_edge(vs: &mut HashMap<u32, Vertex>, ord: &Vec<u32>, f: u32, t: u32)
    requires
        old(vs)@.contains_key(f),
        ord@.no_duplicates(),
        forall|y: u32| #[trigger] old(vs)@.contains_key(y) <==> ord@.contains(y),
        built_ok(old(vs)@, f),
        old(vs)@[f].neighbors@.len() > 0 ==> old(vs)@[f].neighbors@.last().0 <= t,
        degree_sum(old(vs)@, ord@) < u64::MAX,
    ensures
        final(vs)@.dom() == old(vs)@.dom(),
        forall|y: u32| y != f ==> #[trigger] final(vs)@[y] == old(vs)@[y],
        built_ok(final(vs)@, f),
        final(vs)@[f].neighbors@.len() > 0,
        final(vs)@[f].neighbors@.last().0 == t,
        forall|u: u32| #[trigger] weight_of(final(vs)@[f].neighbors@, u) == weight_of(old(vs)@[f].neighbors@, u) + if u == t { 1int } else { 0 },
        degree_sum(final(vs)@, ord@) == degree_sum(old(vs)@, ord@) + 1,
{
    let ghost vs0 = vs@;
    proof {
        assert(ord@.contains(f));
        assert forall|i: int| 0 <= i < ord@.len() implies (|v: u32| vs0[v].degrees as int)(#[trigger] ord@[i]) >= 0 by {}
        lemma_sum_ge_term(ord@, |v: u32| vs0[v].degrees as int, f);
    }
    let mut x = vs.remove(&f).unwrap();
    let len = x.neighbors.len();
    let ghost ns = x.neighbors@;
    if len > 0 && x.neighbors[len - 1].0 == t {
        let w = x.neighbors[len - 1].1;
        proof {
            lemma_entry_weights(ns, len - 1);
        }
        x.neighbors.set(len - 1, (t, w + 1));
        proof {
            lemma_replace_weights(ns, len - 1, (w + 1) as u64);
            assert forall|a: int, b: int| 0 <= a < b < x.neighbors@.len() implies x.neighbors@[a].0 < x.neighbors@[b].0 by {
                assert(x.neighbors@[a].0 == ns[a].0 && x.neighbors@[b].0 == ns[b].0);
            }
            assert forall|u: u32| #[trigger] weight_of(x.neighbors@, u) == weight_of(ns, u) + if u == t { 1int } else { 0 } by {
                assert(weight_where(x.neighbors@, |y: u32| y == u) == weight_where(ns, |y: u32| y == u) + if (|y: u32| y == u)(ns[len - 1].0) { (w + 1) - ns[len - 1].1 } else { 0 });
            }
            assert(weight_sum(x.neighbors@) == weight_sum(ns) + 1) by {
                assert(weight_where(x.neighbors@, |u: u32| true) == weight_where(ns, |u: u32| true) + if (|u: u32| true)(ns[len - 1].0) { (w + 1) - ns[len - 1].1 } else { 0 });
            }
        }
    } else {
        proof {
            assert forall|i: int| 0 <= i < ns.len() implies ns[i].0 != t by {
                if i < ns.len() - 1 {
                    assert(ns[i].0 < ns[ns.len() - 1].0);
                }
            }
            lemma_absent_weight(ns, t);
        }
        x.neighbors.push((t, 1));
        proof {
            lemma_push_weights(ns, t, 1);
            assert forall|a: int, b: int| 0 <= a < b < x.neighbors@.len() implies x.neighbors@[a].0 < x.neighbors@[b].0 by {
                if b == ns.len() && a < ns.len() - 1 {
                    assert(ns[a].0 < ns[ns.len() - 1].0);
                }
            }
            assert forall|u: u32| #[trigger] weight_of(x.neighbors@, u) == weight_of(ns, u) + if u == t { 1int } else { 0 } by {
                assert(weight_where(x.neighbors@, |y: u32| y == u) == weight_where(ns, |y: u32| y == u) + if (|y: u32| y == u)(t) { 1int } else { 0 });
            }
            assert(weight_sum(x.neighbors@) == weight_sum(ns) + 1) by {
                assert(weight_where(x.neighbors@, |u: u32| true) == weight_where(ns, |u: u32| true) + if (|u: u32| true)(t) { 1int } else { 0 });
            }
        }
    }
    x.degrees = x.degrees + 1;
    vs.insert(f, x);
    proof {
        assert(vs@.dom() =~= vs0.dom());
        assert forall|i: int| 0 <= i < ord@.len() && ord@[i] != f implies (|v: u32| vs0[v].degrees as int)(#[trigger] ord@[i]) == (|v: u32| vs@[v].degrees as int)(ord@[i]) by {}
        lemma_sum_point(ord@, |v: u32| vs0[v].degrees as int, |v: u32| vs@[v].degrees as int, f);
    }
}

/// The vertex degrees and the community degrees both add up to the total degree.
pub proof fn lemma_degree_totals(g: &Graph)
    requires
        g.wf(),
    ensures
        degree_sum(g.vertices@, g.order@) == g.total_degrees,
        community_degree_sum(g.communities@, g.order@) == g.total_degrees,
{
}

/// Every vertex names a community, and that community's member set holds it.
pub proof fn lemma_vertex_in_its_community(g: &Graph, v: u32)
    requires
        g.wf(),
        g.vertices@.contains_key(v),
    ensures
        g.communities@.contains_key(g.vertices@[v].community),
        g.communities@[g.vertices@[v].community].vertices@.contains(v),
{
    assert(g.vertex_ok(v));
    let c = g.vertices@[v].community;
    assert(g.order@.contains(c));
    assert(g.communities@.contains_key(c));
    assert(g.community_ok(c));
    assert(members(g.vertices@, c).contains(v));
}

/// A community's degree is the summed degree of its members.
pub proof fn lemma_community_degrees(g: &Graph, c: u32)
    requires
        g.wf(),
        g.communities@.contains_key(c),
    ensures
        g.communities@[c].degrees == member_degrees(g.vertices@, g.order@, c),
        forall|v: u32| g.communities@[c].vertices@.contains(v) <==> g.vertices@.contains_key(v) && g.vertices@[v].community == c,
{
    assert(g.community_ok(c));
}

proof fn lemma_singleton_weight_to(ns: Seq<(u32, u64)>, vs: Map<u32, Vertex>, c: u32)
    requires
        forall|i: int| 0 <= i < ns.len() ==> vs[#[trigger] ns[i].0].community == ns[i].0,
    ensures
        weight_where(ns, |u: u32| vs[u].community == c) == weight_of(ns, c),
    decreases ns.len(),
{
    if ns.len() > 0 {
        let init = ns.drop_last();
        assert forall|i: int| 0 <= i < init.len() implies vs[#[trigger] init[i].0].community == init[i].0 by {
            assert(init[i] == ns[i]);
        }
        lemma_singleton_weight_to(init, vs, c);
        assert(vs[ns[ns.len() - 1].0].community == ns[ns.len() - 1].0);
    }
}

/// With every vertex alone in the community named by its id, and no vertex with an edge to
/// itself, the modularity is `−Σ_v (k_v / m)²`: its numerator over `m²` is `−Σ_v k_v²`.
pub proof fn lemma_singleton_modularity(g: &Graph)
    requires
        g.wf(),
        forall|v: u32| #[trigger] g.vertices@.contains_key(v) ==> g.vertices@[v].community == v,
        forall|v: u32| #[trigger] g.vertices@.contains_key(v) ==> weight_of(g.vertices@[v].neighbors@, v) == 0,
    ensures
        modularity_numerator(g) == -sum_of(g.order@, |v: u32| g.vertices@[v].degrees as int * g.vertices@[v].degrees as int),
{
    let vs = g.vertices@;
    let cs = g.communities@;
    let ord = g.order@;
    assert forall|i: int| 0 <= i < ord.len() implies (|v: u32| internal_weight(g.vertices@, v))(#[trigger] ord[i]) == (|v: u32| 0int)(ord[i]) by {
        let v = ord[i];
        assert(vs.contains_key(v));
        assert(g.vertex_ok(v));
        let ns = vs[v].neighbors@;
        assert forall|k: int| 0 <= k < ns.len() implies vs[#[trigger] ns[k].0].community == ns[k].0 by {
            assert(vs.contains_key(ns[k].0));
        }
        lemma_singleton_weight_to(ns, vs, v);
    }
    lemma_sum_ext(ord, |v: u32| internal_weight(g.vertices@, v), |v: u32| 0int);
    crate::sums::lemma_sum_zero(ord);
    assert forall|i: int| 0 <= i < ord.len() implies (|c: u32| g.communities@[c].degrees as int * g.communities@[c].degrees as int)(#[trigger] ord[i]) == (|v: u32| g.vertices@[v].degrees as int * g.vertices@[v].degrees as int)(ord[i]) by {
        let c = ord[i];
        assert(cs.contains_key(c));
        assert(g.community_ok(c));
        assert forall|k: int| 0 <= k < ord.len() implies vs[#[trigger] ord[k]].community == ord[k] by {
            assert(vs.contains_key(ord[k]));
        }
        lemma_singleton_member_degrees(vs, ord, c);
    }
    lemma_sum_ext(ord, |c: u32| g.communities@[c].degrees as int * g.communities@[c].degrees as int, |v: u32| g.vertices@[v].degrees as int * g.vertices@[v].degrees as int);
}

/// Changing a predicate at one neighbor `v` changes the weight it selects by the weight
/// of the edge to `v`.
proof fn lemma_weight_where_flip(ns: Seq<(u32, u64)>, p: spec_fn(u32) -> bool, q: spec_fn(u32) -> bool, v: u32)
    requires
        forall|i: int| 0 <= i < ns.len() && ns[i].0 != v ==> #[trigger] p(ns[i].0) == q(ns[i].0),
    ensures
        weight_where(ns, q) - weight_where(ns, p) == (if q(v) { 1int } else { 0 }) * weight_of(ns, v) - (if p(v) { 1int } else { 0 }) * weight_of(ns, v),
    decreases ns.len(),
{
    if ns.len() > 0 {
        let init = ns.drop_last();
        assert forall|i: int| 0 <= i < init.len() && init[i].0 != v implies #[trigger] p(init[i].0) == q(init[i].0) by {
            assert(init[i] == ns[i]);
        }
        lemma_weight_where_flip(init, p, q, v);
        let l = ns.last();
        if l.0 != v {
            assert(p(ns[ns.len() - 1].0) == q(ns[ns.len() - 1].0));
        }
        assert(weight_of(ns, v) == weight_of(ns.drop_last(), v) + if l.0 == v { l.1 as int } else { 0 });
        let a = weight_of(ns.drop_last(), v);
        let bq: int = if q(v) { 1 } else { 0 };
        let bp: int = if p(v) { 1 } else { 0 };
        let e: int = if l.0 == v { l.1 as int } else { 0 };
        assert(bq * (a + e) - bp * (a + e) == (bq * a - bp * a) + (bq * e - bp * e)) by (nonlinear_arith);
    }
}

/// Summing, over the vertices of `ord`, the weight of `ns`'s edge to each vertex that
/// satisfies `p` counts each edge of `ns` into `p` once.
proof fn lemma_double_count(ns: Seq<(u32, u64)>, ord: Seq<u32>, p: spec_fn(u32) -> bool)
    requires
        distinct_keys(ns),
        ord.no_duplicates(),
        forall|i: int| 0 <= i < ns.len() ==> ord.contains(#[trigger] ns[i].0),
    ensures
        sum_of(ord, |x: u32| if p(x) { weight_of(ns, x) } else { 0 }) == weight_where(ns, p),
    decreases ns.len(),
{
    if ns.len() == 0 {
        assert forall|k: int| 0 <= k < ord.len() implies (|x: u32| if p(x) { weight_of(ns, x) } else { 0 })(#[trigger] ord[k]) == (|y: u32| 0int)(ord[k]) by {}
        lemma_sum_ext(ord, |x: u32| if p(x) { weight_of(ns, x) } else { 0 }, |y: u32| 0int);
        crate::sums::lemma_sum_zero(ord);
    } else {
        let init = ns.drop_last();
        let l = ns.last();
        assert forall|i: int, j: int| 0 <= i < j < init.len() implies init[i].0 != init[j].0 by {
            assert(ns[i].0 != ns[j].0);
        }
        assert forall|i: int| 0 <= i < init.len() implies ord.contains(#[trigger] init[i].0) by {
            assert(init[i] == ns[i]);
        }
        lemma_double_count(init, ord, p);
        assert(ord.contains(ns[ns.len() - 1].0));
        let f = |x: u32| if p(x) { weight_of(init, x) } else { 0 };
        let g = |x: u32| if p(x) { weight_of(ns, x) } else { 0 };
        assert forall|k: int| 0 <= k < ord.len() && ord[k] != l.0 implies f(#[trigger] ord[k]) == g(ord[k]) by {}
        lemma_sum_point(ord, f, g, l.0);
        assert forall|i: int| 0 <= i < init.len() implies init[i].0 != l.0 by {
            assert(ns[i].0 != ns[ns.len() - 1].0);
        }
        lemma_absent_weight(init, l.0);
    }
}

/// Every edge has the same weight in both directions.
pub open spec fn symmetric(g: &Graph) -> bool {
    forall|a: u32, b: u32|
        g.vertices@.contains_key(a) && g.vertices@.contains_key(b) ==> #[trigger] weight_of(g.vertices@[a].neighbors@, b) == #[trigger] weight_of(g.vertices@[b].neighbors@, a)
}

/// `g2` is `g1` with vertex `v` moved into community `d`.
pub open spec fn moved(g1: &Graph, g2: &Graph, v: u32, d: u32) -> bool {
    &&& g2.order@ == g1.order@
    &&& g2.total_degrees == g1.total_degrees
    &&& g2.vertices@.dom() == g1.vertices@.dom()
    &&& g2.vertices@[v].community == d
    &&& g2.vertices@[v].id == g1.vertices@[v].id
    &&& g2.vertices@[v].degrees == g1.vertices@[v].degrees
    &&& g2.vertices@[v].neighbors@ == g1.vertices@[v].neighbors@
    &&& forall|u: u32| u != v && #[trigger] g1.vertices@.contains_key(u) ==> g2.vertices@[u] == g1.vertices@[u]
}

/// Moving vertex `v` of a graph with symmetric weights into community `d` changes the
/// modularity numerator by twice the difference between the gain of `d` and the gain of
/// staying.
#[verifier::spinoff_prover]
pub proof fn lemma_move_gain(g1: &Graph, g2: &Graph, v: u32, d: u32)
    requires
        g1.wf(),
        g2.wf(),
        symmetric(g1),
        g1.vertices@.contains_key(v),
        d != g1.vertices@[v].community,
        g1.vertices@.contains_key(d),
        moved(g1, g2, v, d),
    ensures
        modularity_numerator(g2) == modularity_numerator(g1) + 2 * (gain_score(g1, v, d) - gain_score(g1, v, g1.vertices@[v].community)),
{
    reveal(gain_score);
    let c = g1.vertices@[v].community;
    let k = g1.vertices@[v].degrees as int;
    let m = g1.total_degrees as int;
    let ns = g1.vertices@[v].neighbors@;
    assert(g1.vertex_ok(v));
    assert(g1.order@.contains(v));
    assert forall|i: int| 0 <= i < g1.order@.len() implies g1.vertices@.contains_key(#[trigger] g1.order@[i]) by {}
    lemma_move_sums(g1.vertices@, g2.vertices@, g1.order@, v, c, d);
    // Community degrees.
    assert forall|x: u32| #[trigger] g1.communities@.contains_key(x) implies g2.communities@.contains_key(x)
        && g2.communities@[x].degrees as int == g1.communities@[x].degrees as int + if x == c { -k } else if x == d { k } else { 0 } by {
        assert(g1.order@.contains(x));
        assert(g2.order@.contains(x));
        assert(g2.communities@.contains_key(x));
        assert(g1.community_ok(x));
        assert(g2.community_ok(x));
    }
    assert(g1.communities@.contains_key(c) && g1.communities@.contains_key(d)) by {
        assert(g1.order@.contains(c));
        assert(g1.order@.contains(d));
    }
    let ac = g1.communities@[c].degrees as int;
    let ad = g1.communities@[d].degrees as int;
    let fm = |x: u32| if x == c { (ac - k) * (ac - k) } else { g1.communities@[x].degrees as int * g1.communities@[x].degrees as int };
    assert forall|i: int| 0 <= i < g1.order@.len() && g1.order@[i] != c implies (|c: u32| g1.communities@[c].degrees as int * g1.communities@[c].degrees as int)(#[trigger] g1.order@[i]) == fm(g1.order@[i]) by {}
    lemma_sum_point(g1.order@, |c: u32| g1.communities@[c].degrees as int * g1.communities@[c].degrees as int, fm, c);
    assert forall|i: int| 0 <= i < g1.order@.len() && g1.order@[i] != d implies fm(#[trigger] g1.order@[i]) == (|c: u32| g2.communities@[c].degrees as int * g2.communities@[c].degrees as int)(g1.order@[i]) by {
        assert(g1.communities@.contains_key(g1.order@[i]));
    }
    lemma_sum_point(g1.order@, fm, |c: u32| g2.communities@[c].degrees as int * g2.communities@[c].degrees as int, d);
    // Internal weights.
    let w_self = weight_of(ns, v);
    let pd = |u: u32| g1.vertices@[u].community == d;
    let pc = |u: u32| g1.vertices@[u].community == c;
    let fa = |x: u32| if pd(x) { weight_of(g1.vertices@[x].neighbors@, v) } else { 0 };
    let fb = |x: u32| if pc(x) { weight_of(g1.vertices@[x].neighbors@, v) } else { 0 };
    let fdelta = |x: u32| fa(x) - fb(x);
    let fh = |x: u32| internal_weight(g2.vertices@, x) - internal_weight(g1.vertices@, x);
    lemma_sum_sub(g1.order@, |v: u32| internal_weight(g1.vertices@, v), |v: u32| internal_weight(g2.vertices@, v), fh);
    assert forall|i: int| 0 <= i < g1.order@.len() && g1.order@[i] != v implies fdelta(#[trigger] g1.order@[i]) == fh(g1.order@[i]) by {
        let x = g1.order@[i];
        let cx = g1.vertices@[x].community;
        assert(g2.vertices@[x] == g1.vertices@[x]);
        assert(g1.vertex_ok(x));
        let nx = g1.vertices@[x].neighbors@;
        assert forall|j: int| 0 <= j < nx.len() && nx[j].0 != v implies (|u: u32| g1.vertices@[u].community == cx)(#[trigger] nx[j].0) == (|u: u32| g2.vertices@[u].community == cx)(nx[j].0) by {
            assert(g1.vertices@.contains_key(nx[j].0));
        }
        lemma_weight_where_flip(g1.vertices@[x].neighbors@, |u: u32| g1.vertices@[u].community == cx, |u: u32| g2.vertices@[u].community == cx, v);
    }
    // The moved vertex itself.
    assert forall|j: int| 0 <= j < ns.len() && ns[j].0 != v implies pd(#[trigger] ns[j].0) == (|u: u32| g2.vertices@[u].community == d)(ns[j].0) by {
        assert(g1.vertices@.contains_key(ns[j].0));
    }
    lemma_weight_where_flip(ns, pd, |u: u32| g2.vertices@[u].community == d, v);
    assert((|u: u32| g2.vertices@[u].community == g2.vertices@[v].community) =~= (|u: u32| g2.vertices@[u].community == d));
    assert(fh(v) == weight_to(g1.vertices@, v, d) + w_self - weight_to(g1.vertices@, v, c));
    assert(fdelta(v) == -w_self);
    lemma_sum_point(g1.order@, fdelta, fh, v);
    lemma_sum_sub(g1.order@, fb, fa, fdelta);
    // Double counting through symmetry.
    let fa2 = |x: u32| if pd(x) { weight_of(ns, x) } else { 0 };
    let fb2 = |x: u32| if pc(x) { weight_of(ns, x) } else { 0 };
    assert forall|i: int| 0 <= i < g1.order@.len() implies fa(#[trigger] g1.order@[i]) == fa2(g1.order@[i]) && fb(g1.order@[i]) == fb2(g1.order@[i]) by {
        let x = g1.order@[i];
        assert(weight_of(g1.vertices@[x].neighbors@, v) == weight_of(g1.vertices@[v].neighbors@, x));
    }
    lemma_sum_ext(g1.order@, fa, fa2);
    lemma_sum_ext(g1.order@, fb, fb2);
    assert forall|i: int| 0 <= i < ns.len() implies g1.order@.contains(#[trigger] ns[i].0) by {
        assert(g1.vertices@.contains_key(ns[i].0));
    }
    lemma_double_count(ns, g1.order@, pd);
    lemma_double_count(ns, g1.order@, pc);
    let i1 = sum_of(g1.order@, |v: u32| internal_weight(g1.vertices@, v));
    let i2 = sum_of(g2.order@, |v: u32| internal_weight(g2.vertices@, v));
    let s1 = sum_of(g1.order@, |c: u32| g1.communities@[c].degrees as int * g1.communities@[c].degrees as int);
    let s2 = sum_of(g2.order@, |c: u32| g2.communities@[c].degrees as int * g2.communities@[c].degrees as int);
    let wd = weight_to(g1.vertices@, v, d);
    let wc = weight_to(g1.vertices@, v, c);
    assert(i2 - i1 == 2 * (wd - wc + w_self));
    assert(s2 - s1 == (ac - k) * (ac - k) - ac * ac + (ad + k) * (ad + k) - ad * ad);
    assert(m * i2 - s2 - (m * i1 - s1) == 2 * ((wd * m - ad * k) - ((wc - w_self) * m - (ac - k) * k))) by (nonlinear_arith)
        requires i2 - i1 == 2 * (wd - wc + w_self), s2 - s1 == (ac - k) * (ac - k) - ac * ac + (ad + k) * (ad + k) - ad * ad;
}

proof fn lemma_weight_of_nonneg(ns: Seq<(u32, u64)>, u: u32)
    ensures
        weight_of(ns, u) >= 0,
    decreases ns.len(),
{
    if ns.len() > 0 {
        lemma_weight_of_nonneg(ns.drop_last(), u);
    }
}

proof fn lemma_weight_to_none(ns: Seq<(u32, u64)>, vs: Map<u32, Vertex>, c: u32)
    requires
        forall|i: int| 0 <= i < ns.len() ==> vs[#[trigger] ns[i].0].community != c,
    ensures
        weight_where(ns, |u: u32| vs[u].community == c) == 0,
    decreases ns.len(),
{
    if ns.len() > 0 {
        let init = ns.drop_last();
        assert forall|i: int| 0 <= i < init.len() implies vs[#[trigger] init[i].0].community != c by {
            assert(init[i] == ns[i]);
        }
        lemma_weight_to_none(init, vs, c);
        assert(vs[ns[ns.len() - 1].0].community != c);
    }
}

/// On a graph with symmetric weights, the move that local moving makes never lowers the
/// modularity, and the weights stay symmetric.
pub proof fn lemma_local_move_monotone(g1: &Graph, g2: &Graph, v: u32, r: Option<u32>)
    requires
        g1.wf(),
        g2.wf(),
        symmetric(g1),
        g1.vertices@.contains_key(v),
        best_move(g1, v, r),
        match r {
            Some(d) if d != g1.vertices@[v].community => moved(g1, g2, v, d),
            _ => g2.vertices@ == g1.vertices@ && g2.communities@ == g1.communities@ && g2.order@ == g1.order@ && g2.total_degrees == g1.total_degrees,
        },
    ensures
        symmetric(g2),
        modularity_numerator(g2) >= modularity_numerator(g1),
{
    match r {
        Some(d) => {
            if d != g1.vertices@[v].community {
                let own = g1.vertices@[v].community;
                let ns = g1.vertices@[v].neighbors@;
                let vs = g1.vertices@;
                let i = choose|i: int| {
                    &&& 0 <= i < ns.len()
                    &&& vs[#[trigger] ns[i].0].community == d
                    &&& gain_score(g1, v, d) > 0
                    &&& forall|j: int| 0 <= j < ns.len() ==> gain_score(g1, v, #[trigger] vs[ns[j].0].community) <= gain_score(g1, v, d)
                    &&& forall|j: int| 0 <= j < i ==> gain_score(g1, v, #[trigger] vs[ns[j].0].community) < gain_score(g1, v, d)
                };
                assert(g1.vertex_ok(v));
                assert(vs.contains_key(ns[i].0));
                assert(g1.vertex_ok(ns[i].0));
                assert(g1.order@.contains(d));
                assert(g1.communities@.contains_key(d));
                lemma_move_gain(g1, g2, v, d);
                if !(exists|j: int| 0 <= j < ns.len() && vs[#[trigger] ns[j].0].community == own) {
                    lemma_weight_to_none(ns, vs, own);
                    g1.lemma_degree_bounds(v);
                    reveal(gain_score);
                    lemma_weight_of_nonneg(ns, v);
                    let a = g1.communities@[own].degrees as int;
                    let k = vs[v].degrees as int;
                    let w = weight_of(ns, v);
                    let m = g1.total_degrees as int;
                    assert((0 - w) * m - (a - k) * k <= 0) by (nonlinear_arith)
                        requires w >= 0, m >= 0, a >= k, k >= 0;
                }
                assert forall|a: u32, b: u32| g2.vertices@.contains_key(a) && g2.vertices@.contains_key(b) implies #[trigger] weight_of(g2.vertices@[a].neighbors@, b) == #[trigger] weight_of(g2.vertices@[b].neighbors@, a) by {
                    assert(g2.vertices@[a].neighbors@ == g1.vertices@[a].neighbors@);
                    assert(g2.vertices@[b].neighbors@ == g1.vertices@[b].neighbors@);
                }
            }
        },
        None => {},
    }
}

/// The weight between two communities, written as a double sum over the vertices.
proof fn lemma_between_double(g: &Graph, c: u32, d: u32)
    requires
        g.wf(),
    ensures
        weight_between(g.vertices@, g.order@, c, d) == sum_of(
            g.order@,
            |v: u32| sum_of(g.order@, |x: u32| pair_weight(g.vertices@, c, d, v, x)),
        ),
{
    let vs = g.vertices@;
    let ord = g.order@;
    assert forall|k: int| 0 <= k < ord.len() implies (|v: u32| contribution(g.vertices@, c, d, v))(#[trigger] ord[k]) == (|v: u32| sum_of(g.order@, |x: u32| pair_weight(g.vertices@, c, d, v, x)))(ord[k]) by {
        let v = ord[k];
        assert(vs.contains_key(v));
        assert(g.vertex_ok(v));
        let ns = vs[v].neighbors@;
        assert forall|i: int| 0 <= i < ns.len() implies ord.contains(#[trigger] ns[i].0) by {
            assert(vs.contains_key(ns[i].0));
        }
        let pd = |u: u32| g.vertices@[u].community == d;
        lemma_double_count(ns, ord, pd);
        if vs[v].community == c {
            assert forall|t: int| 0 <= t < ord.len() implies (|x: u32| if pd(x) { weight_of(ns, x) } else { 0 })(#[trigger] ord[t]) == (|x: u32| pair_weight(g.vertices@, c, d, v, x))(ord[t]) by {}
            lemma_sum_ext(ord, |x: u32| if pd(x) { weight_of(ns, x) } else { 0 }, |x: u32| pair_weight(g.vertices@, c, d, v, x));
        } else {
            assert forall|t: int| 0 <= t < ord.len() implies (|x: u32| pair_weight(g.vertices@, c, d, v, x))(#[trigger] ord[t]) == (|y: u32| 0int)(ord[t]) by {}
            lemma_sum_ext(ord, |x: u32| pair_weight(g.vertices@, c, d, v, x), |y: u32| 0int);
            crate::sums::lemma_sum_zero(ord);
        }
    }
    lemma_sum_ext(ord, |v: u32| contribution(g.vertices@, c, d, v), |v: u32| sum_of(g.order@, |x: u32| pair_weight(g.vertices@, c, d, v, x)));
}

/// With symmetric weights, the weight from community `c` to `d` equals that from `d` to `c`.
pub proof fn lemma_between_symmetric(g: &Graph, c: u32, d: u32)
    requires
        g.wf(),
        symmetric(g),
    ensures
        weight_between(g.vertices@, g.order@, c, d) == weight_between(g.vertices@, g.order@, d, c),
{
    let vs = g.vertices@;
    let ord = g.order@;
    lemma_between_double(g, c, d);
    lemma_between_double(g, d, c);
    let f = |v: u32, x: u32| pair_weight(g.vertices@, d, c, v, x);
    lemma_sum_swap(ord, ord, f);
    assert forall|k: int| 0 <= k < ord.len() implies (|v: u32| sum_of(g.order@, |x: u32| pair_weight(g.vertices@, d, c, v, x)))(#[trigger] ord[k]) == (|v: u32| sum_of(ord, |x: u32| f(v, x)))(ord[k]) by {
        let v = ord[k];
        assert forall|t: int| 0 <= t < ord.len() implies (|x: u32| pair_weight(g.vertices@, d, c, v, x))(#[trigger] ord[t]) == (|x: u32| f(v, x))(ord[t]) by {}
        lemma_sum_ext(ord, |x: u32| pair_weight(g.vertices@, d, c, v, x), |x: u32| f(v, x));
    }
    lemma_sum_ext(ord, |v: u32| sum_of(g.order@, |x: u32| pair_weight(g.vertices@, d, c, v, x)), |v: u32| sum_of(ord, |x: u32| f(v, x)));
    assert forall|k: int| 0 <= k < ord.len() implies (|x: u32| sum_of(ord, |v: u32| f(v, x)))(#[trigger] ord[k]) == (|v: u32| sum_of(g.order@, |x: u32| pair_weight(g.vertices@, c, d, v, x)))(ord[k]) by {
        let x0 = ord[k];
        assert forall|t: int| 0 <= t < ord.len() implies (|v: u32| f(v, x0))(#[trigger] ord[t]) == (|x: u32| pair_weight(g.vertices@, c, d, x0, x))(ord[t]) by {
            let v = ord[t];
            assert(vs.contains_key(v) && vs.contains_key(x0));
            assert(weight_of(vs[v].neighbors@, x0) == weight_of(vs[x0].neighbors@, v));
        }
        lemma_sum_ext(ord, |v: u32| f(v, x0), |x: u32| pair_weight(g.vertices@, c, d, x0, x));
    }
    lemma_sum_ext(ord, |x: u32| sum_of(ord, |v: u32| f(v, x)), |v: u32| sum_of(g.order@, |x: u32| pair_weight(g.vertices@, c, d, v, x)));
}

/// The weight of the edge from `v` to `x` where `v` is in community `c` and `x` in `d`.
pub open spec fn pair_weight(vs: Map<u32, Vertex>, c: u32, d: u32, v: u32, x: u32) -> int {
    if vs[v].community == c && vs[x].community == d {
        weight_of(vs[v].neighbors@, x)
    } else {
        0
    }
}

/// `a` and `b` are the same graph state.
pub open spec fn same_state(a: &Graph, b: &Graph) -> bool {
    &&& a.vertices@ == b.vertices@
    &&& a.communities@ == b.communities@
    &&& a.order@ == b.order@
    &&& a.total_degrees == b.total_degrees
    &&& a.epoch == b.epoch
}

/// Every vertex of `a` keeps, in `b`, its id, its neighbors and its degree: only community
/// fields differ.
pub open spec fn keeps_vertices(a: &Graph, b: &Graph) -> bool {
    &&& b.vertices@.dom() == a.vertices@.dom()
    &&& forall|v: u32| #[trigger] a.vertices@.contains_key(v) ==> {
        &&& b.vertices@[v].id == a.vertices@[v].id
        &&& b.vertices@[v].neighbors@ == a.vertices@[v].neighbors@
        &&& b.vertices@[v].degrees == a.vertices@[v].degrees
    }
}

/// `g2` is `g` after local moving of vertex `v`: `v` moves into the community that
/// `best_move` picks where that is not its own, and nothing changes otherwise.
pub open spec fn local_step(g: &Graph, g2: &Graph, v: u32) -> bool {
    exists|r: Option<u32>|
        #[trigger] best_move(g, v, r) && match r {
            Some(d) if d != g.vertices@[v].community => moved(g, g2, v, d) && g2.wf() && g2.epoch == g.epoch,
            _ => same_state(g, g2),
        }
}

proof fn lemma_step_from_same(a: &Graph, b: &Graph, c: &Graph, v: u32)
    requires
        same_state(a, b),
        local_step(b, c, v),
    ensures
        local_step(a, c, v),
{
    let r = choose|r: Option<u32>| #[trigger] best_move(b, v, r) && match r {
        Some(d) if d != b.vertices@[v].community => moved(b, c, v, d) && c.wf() && c.epoch == b.epoch,
        _ => same_state(b, c),
    };
    reveal(gain_score);
    assert(best_move(a, v, r));
}

proof fn lemma_epoch_step(states: Seq<Graph>, p: int, before: &Graph, after: &Graph, done: bool)
    requires
        p >= 0,
        states.len() == p + 1,
        same_state(&states[p], before),
        pass_of(before, after),
        forall|j: int| 0 <= j < p ==> #[trigger] pass_of(&states[j], &states[j + 1]),
        forall|j: int| 0 <= j < p - 1 ==> !#[trigger] pass_converged(&states[j], &states[j + 1]),
        p > 0 ==> !pass_converged(&states[p - 1], &states[p]),
        done == pass_converged(before, after),
    ensures
        ({
            let s2 = states.push(*after);
            &&& forall|j: int| 0 <= j < p + 1 ==> #[trigger] pass_of(&s2[j], &s2[j + 1])
            &&& forall|j: int| 0 <= j < p ==> !#[trigger] pass_converged(&s2[j], &s2[j + 1])
            &&& done == pass_converged(&s2[p], &s2[p + 1])
            &&& same_state(&s2[p + 1], after)
        }),
{
    let s2 = states.push(*after);
    lemma_pass_from_same(&states[p], before, after);
    assert forall|j: int| 0 <= j < p + 1 implies #[trigger] pass_of(&s2[j], &s2[j + 1]) by {
        assert(s2[j] == states[j]);
        if j < p {
            assert(s2[j + 1] == states[j + 1]);
        }
    }
    assert forall|j: int| 0 <= j < p implies !#[trigger] pass_converged(&s2[j], &s2[j + 1]) by {
        assert(s2[j] == states[j] && s2[j + 1] == states[j + 1]);
    }
    assert(s2[p] == states[p]);
}

proof fn lemma_pass_from_same(a: &Graph, b: &Graph, c: &Graph)
    requires
        same_state(a, b),
        pass_of(b, c),
    ensures
        pass_of(a, c),
{
    let t = choose|t: Seq<Graph>| #[trigger] pass_trace(b, c, t);
    assert(pass_trace(a, c, t));
}

/// Whether the pass from `a` to `b` converged: the modularity moved by less than
/// `1 / CONVERGENCE_DIVISOR`.
pub open spec fn pass_converged(a: &Graph, b: &Graph) -> bool {
    CONVERGENCE_DIVISOR * abs_int(modularity_numerator(b) - modularity_numerator(a)) < a.total_degrees as int * a.total_degrees as int
}

/// `t` traces a pass of local moving from `g0` to `g1`: it starts at `g0`, ends at `g1`,
/// and its `k`-th step is local moving of the `k`-th vertex of the order.
pub open spec fn pass_trace(g0: &Graph, g1: &Graph, t: Seq<Graph>) -> bool {
    &&& t.len() == g0.order@.len() + 1
    &&& same_state(&t[0], g0)
    &&& same_state(&t[t.len() - 1], g1)
    &&& forall|k: int| 0 <= k < g0.order@.len() ==> #[trigger] local_step(&t[k], &t[k + 1], g0.order@[k])
}

/// `g1` is `g0` after one pass of local moving over all vertices in order.
pub open spec fn pass_of(g0: &Graph, g1: &Graph) -> bool {
    exists|t: Seq<Graph>| #[trigger] pass_trace(g0, g1, t)
}

/// `states` are the graphs between the local-moving passes of an epoch from `g0` to `g1`:
/// each pass but the last changed the modularity by at least the threshold, and `conv`
/// tells whether the last one did not.
pub open spec fn epoch_trace(g0: &Graph, g1: &Graph, states: Seq<Graph>, conv: bool) -> bool {
    &&& states.len() >= 2
    &&& same_state(&states[0], g0)
    &&& same_state(&states[states.len() - 1], g1)
    &&& forall|j: int| 0 <= j < states.len() - 1 ==> #[trigger] pass_of(&states[j], &states[j + 1])
    &&& forall|j: int| 0 <= j < states.len() - 2 ==> !#[trigger] pass_converged(&states[j], &states[j + 1])
    &&& conv == pass_converged(&states[states.len() - 2], &states[states.len() - 1])
}

/// The communities that some vertex of `vs` belongs to.
pub open spec fn occupied(vs: Map<u32, Vertex>) -> Set<u32> {
    Set::new(|c: u32| exists|v: u32| #[trigger] vs.contains_key(v) && vs[v].community == c)
}

/// `x` is a consistent vertex of a contracted graph, named `c`, in its own community, with
/// neighbors among the occupied communities of `vs`.
pub open spec fn contracted_ok(vs: Map<u32, Vertex>, x: Vertex, c: u32) -> bool {
    &&& x.id == c
    &&& x.community == c
    &&& x.wf()
    &&& forall|t: int| 0 <= t < x.neighbors@.len() ==> occupied(vs).contains(#[trigger] x.neighbors@[t].0)
    &&& positive_weights(x.neighbors@)
}

/// Every edge weight is at least 1.
pub open spec fn positive_weights(ns: Seq<(u32, u64)>) -> bool {
    forall|i: int| 0 <= i < ns.len() ==> #[trigger] ns[i].1 >= 1
}

/// With distinct neighbors of positive weight, a neighbor has an entry exactly where its
/// weight is positive.
proof fn lemma_key_iff_positive(ns: Seq<(u32, u64)>)
    requires
        distinct_keys(ns),
        positive_weights(ns),
    ensures
        forall|u: u32| #[trigger] has_key(ns, u) <==> weight_of(ns, u) > 0,
{
    assert forall|u: u32| #[trigger] has_key(ns, u) <==> weight_of(ns, u) > 0 by {
        if has_key(ns, u) {
            let i = choose|i: int| 0 <= i < ns.len() && ns[i].0 == u;
            lemma_entry_weights(ns, i);
        } else {
            lemma_absent_weight(ns, u);
        }
    }
}

} // verus!

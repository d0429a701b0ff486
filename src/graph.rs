use fixedbitset::FixedBitSet;
use petgraph::graph::{Graph, NodeIndex};
use petgraph::visit::{VisitMap, Visitable};
use petgraph::Undirected;
use vstd::prelude::*;

verus! {

#[verifier::external_type_specification]
#[verifier::external_body]
#[verifier::reject_recursive_types(N)]
#[verifier::reject_recursive_types(E)]
#[verifier::reject_recursive_types(Ty)]
#[verifier::reject_recursive_types(Ix)]
pub struct ExGraph<N, E, Ty, Ix>(Graph<N, E, Ty, Ix>);

#[verifier::external_type_specification]
#[verifier::external_body]
pub struct ExUndirected(Undirected);

/// The petgraph graph that holds the store: labels on nodes, weights on edges,
/// 32-bit indices.
pub type LabelledGraph = Graph<String, u64, Undirected, u32>;

/// The labels of a graph's nodes, by node index.
pub uninterp spec fn graph_labels(g: LabelledGraph) -> Seq<Seq<char>>;

/// The edges of a graph as `(a, b, weight)`, in the order they were added.
pub uninterp spec fn graph_edges(g: LabelledGraph) -> Seq<(usize, usize, u64)>;

/// The `(far endpoint, weight)` of each edge of `edges` that touches `a`, in
/// the order the edges were added. A self-loop appears once.
pub open spec fn neighbor_seq(edges: Seq<(usize, usize, u64)>, a: usize) -> Seq<(usize, u64)>
    decreases edges.len(),
{
    if edges.len() == 0 {
        Seq::empty()
    } else {
        let e = edges.last();
        let rest = neighbor_seq(edges.drop_last(), a);
        if e.0 == a {
            rest.push((e.1, e.2))
        } else if e.1 == a {
            rest.push((e.0, e.2))
        } else {
            rest
        }
    }
}

/// An edge is seen from both ends: after `(u, v, w)` is added, `v` with
/// weight `w` is among the neighbours of `u`, and `u` with weight `w` among
/// those of `v`.
pub proof fn lemma_add_edge_symmetric(edges: Seq<(usize, usize, u64)>, u: usize, v: usize, w: u64)
    ensures
        neighbor_seq(edges.push((u, v, w)), u).contains((v, w)),
        neighbor_seq(edges.push((u, v, w)), v).contains((u, w)),
{
    let e = edges.push((u, v, w));
    assert(e.drop_last() =~= edges);
    assert(e.last() == (u, v, w));
    let nu = neighbor_seq(e, u);
    assert(nu[nu.len() - 1] == (v, w));
    let nv = neighbor_seq(e, v);
    assert(nv[nv.len() - 1] == (u, w));
}

/// Some edge joins `x` and `y`.
pub open spec fn adjacent(g: GraphModel, x: usize, y: usize) -> bool {
    exists|k: int|
        0 <= k < g.edges.len() && (((#[trigger] g.edges[k]).0 == x && g.edges[k].1 == y) || (
        g.edges[k].0 == y && g.edges[k].1 == x))
}

/// Each node of `p` is joined by an edge to the next.
pub open spec fn is_path(g: GraphModel, p: Seq<usize>) -> bool {
    forall|i: int| 0 <= i < p.len() - 1 ==> #[trigger] adjacent(g, p[i], p[i + 1])
}

/// A path leads from `a` to `b`.
pub open spec fn reachable(g: GraphModel, a: usize, b: usize) -> bool {
    exists|p: Seq<usize>| p.len() > 0 && p[0] == a && p.last() == b && #[trigger] is_path(g, p)
}

/// No edge leaves `c`: each edge has both ends in it or neither.
pub open spec fn closed_under_edges(edges: Seq<(usize, usize, u64)>, c: Set<usize>) -> bool {
    forall|k: int|
        0 <= k < edges.len() ==> (c.contains((#[trigger] edges[k]).0) <==> c.contains(edges[k].1))
}

proof fn lemma_neighbor_seq_within(edges: Seq<(usize, usize, u64)>, a: usize, c: Set<usize>)
    requires
        closed_under_edges(edges, c),
        c.contains(a),
    ensures
        forall|i: int|
            0 <= i < neighbor_seq(edges, a).len() ==> c.contains(
                (#[trigger] neighbor_seq(edges, a)[i]).0,
            ),
    decreases edges.len(),
{
    if edges.len() > 0 {
        let rest = edges.drop_last();
        assert forall|k: int| 0 <= k < rest.len() implies (c.contains((#[trigger] rest[k]).0)
            <==> c.contains(rest[k].1)) by {
            assert(rest[k] == edges[k]);
        }
        lemma_neighbor_seq_within(rest, a, c);
        assert(edges.last() == edges[edges.len() - 1]);
        let r = neighbor_seq(rest, a);
        let s = neighbor_seq(edges, a);
        assert forall|i: int| 0 <= i < s.len() implies c.contains((#[trigger] s[i]).0) by {
            if i < r.len() {
                assert(s[i] == r[i]);
            }
        }
    }
}

/// The neighbours of a node of an edge-closed set lie in the set.
pub proof fn lemma_neighbors_within(g: GraphModel, a: usize, c: Set<usize>)
    requires
        closed_under_edges(g.edges, c),
        c.contains(a),
    ensures
        forall|i: int| 0 <= i < g.neighbors(a).len() ==> c.contains((#[trigger] g.neighbors(a)[i]).0),
{
    lemma_neighbor_seq_within(g.edges, a, c);
}

/// The nodes reachable from `a` form an edge-closed set that holds `a`.
pub proof fn lemma_reachable_closed(g: GraphModel, a: usize)
    ensures
        closed_under_edges(g.edges, Set::new(|x: usize| reachable(g, a, x))),
        reachable(g, a, a),
{
    let c = Set::new(|x: usize| reachable(g, a, x));
    let p0 = seq![a];
    assert(is_path(g, p0));
    assert forall|k: int| 0 <= k < g.edges.len() implies (c.contains((#[trigger] g.edges[k]).0)
        <==> c.contains(g.edges[k].1)) by {
        let (x, y, w) = g.edges[k];
        assert(adjacent(g, x, y));
        assert(adjacent(g, y, x));
        if reachable(g, a, x) {
            let p = choose|p: Seq<usize>| p.len() > 0 && p[0] == a && p.last() == x && #[trigger] is_path(g, p);
            let q = p.push(y);
            assert forall|i: int| 0 <= i < q.len() - 1 implies #[trigger] adjacent(g, q[i], q[i + 1]) by {
                if i < p.len() - 1 {
                    assert(adjacent(g, p[i], p[i + 1]));
                }
            }
            assert(is_path(g, q));
            assert(reachable(g, a, y));
        }
        if reachable(g, a, y) {
            let p = choose|p: Seq<usize>| p.len() > 0 && p[0] == a && p.last() == y && #[trigger] is_path(g, p);
            let q = p.push(x);
            assert forall|i: int| 0 <= i < q.len() - 1 implies #[trigger] adjacent(g, q[i], q[i + 1]) by {
                if i < p.len() - 1 {
                    assert(adjacent(g, p[i], p[i + 1]));
                }
            }
            assert(is_path(g, q));
            assert(reachable(g, a, x));
        }
    }
}

proof fn lemma_neighbor_seq_in_range(edges: Seq<(usize, usize, u64)>, a: usize, n: nat)
    requires
        forall|k: int| 0 <= k < edges.len() ==> (#[trigger] edges[k]).0 < n && edges[k].1 < n,
    ensures
        forall|i: int|
            0 <= i < neighbor_seq(edges, a).len() ==> (#[trigger] neighbor_seq(edges, a)[i]).0 < n,
    decreases edges.len(),
{
    if edges.len() > 0 {
        let rest = edges.drop_last();
        assert forall|k: int| 0 <= k < rest.len() implies (#[trigger] rest[k]).0 < n && rest[k].1
            < n by {
            assert(rest[k] == edges[k]);
        }
        lemma_neighbor_seq_in_range(rest, a, n);
        assert(edges.last() == edges[edges.len() - 1]);
        let r = neighbor_seq(rest, a);
        let s = neighbor_seq(edges, a);
        assert forall|i: int| 0 <= i < s.len() implies (#[trigger] s[i]).0 < n by {
            if i < r.len() {
                assert(s[i] == r[i]);
            }
        }
    }
}

/// Every neighbour of a node of a well-formed graph is a node of it.
pub proof fn lemma_neighbors_in_range(g: GraphModel, a: usize)
    requires
        g.wf(),
    ensures
        forall|i: int| 0 <= i < g.neighbors(a).len() ==> (#[trigger] g.neighbors(a)[i]).0 < g.node_count(),
{
    lemma_neighbor_seq_in_range(g.edges, a, g.node_count());
}

/// Relies on petgraph's `Graph::new_undirected`: a graph with no nodes and no
/// edges.
#[verifier::external_body]
fn pg_new() -> (g: LabelledGraph)
    ensures
        graph_labels(g) == Seq::<Seq<char>>::empty(),
        graph_edges(g) == Seq::<(usize, usize, u64)>::empty(),
{
    Graph::new_undirected()
}

/// Relies on petgraph's `Graph::add_node`: the new node takes the next index
/// and keeps its label; it panics only when that index would be `u32::MAX`.
#[verifier::external_body]
fn pg_add_node(g: &mut LabelledGraph, label: String) -> (i: usize)
    requires
        graph_labels(*old(g)).len() < u32::MAX,
    ensures
        i == graph_labels(*old(g)).len(),
        graph_labels(*final(g)) == graph_labels(*old(g)).push(label@),
        graph_edges(*final(g)) == graph_edges(*old(g)),
{
    g.add_node(label).index()
}

/// Relies on petgraph's `Graph::add_edge`: the edge is appended to the edge
/// list, the next edge index; it panics on an index out of
/// range, or when the edge's index would be `u32::MAX`.
#[verifier::external_body]
fn pg_add_edge(g: &mut LabelledGraph, a: usize, b: usize, w: u64)
    requires
        a < graph_labels(*old(g)).len(),
        b < graph_labels(*old(g)).len(),
        graph_edges(*old(g)).len() < u32::MAX,
    ensures
        graph_labels(*final(g)) == graph_labels(*old(g)),
        graph_edges(*final(g)) == graph_edges(*old(g)).push((a, b, w)),
{
    g.add_edge(NodeIndex::new(a), NodeIndex::new(b), w);
}

/// Relies on petgraph's `Graph::edge_count`: the number of edges.
#[verifier::external_body]
fn pg_edge_count(g: &LabelledGraph) -> (r: usize)
    ensures
        r == graph_edges(*g).len(),
{
    g.edge_count()
}

/// Relies on petgraph's `Graph::raw_edges`, with `Edge::source`,
/// `Edge::target` and the `weight` field: the edge of index `k`, that is the
/// `k`-th one added, as its two endpoints and its weight.
#[verifier::external_body]
fn pg_edge(g: &LabelledGraph, k: usize) -> (r: (usize, usize, u64))
    requires
        k < graph_edges(*g).len(),
    ensures
        r == graph_edges(*g)[k as int],
{
    let e = &g.raw_edges()[k];
    (e.source().index(), e.target().index(), e.weight)
}

/// Relies on petgraph's `Graph::node_weight`: the label of an existing node.
#[verifier::external_body]
fn pg_label(g: &LabelledGraph, a: usize) -> (r: Option<String>)
    requires
        a < graph_labels(*g).len(),
    ensures
        r is Some && r->0@ == graph_labels(*g)[a as int],
{
    g.node_weight(NodeIndex::new(a)).cloned()
}

/// Relies on petgraph's `Graph::node_count`: the number of nodes.
#[verifier::external_body]
fn pg_node_count(g: &LabelledGraph) -> (r: usize)
    ensures
        r == graph_labels(*g).len(),
{
    g.node_count()
}

#[verifier::external_type_specification]
#[verifier::external_body]
pub struct ExFixedBitSet(FixedBitSet);

/// The bits of a bit set, one flag per index.
pub uninterp spec fn bitset_flags(m: FixedBitSet) -> Seq<bool>;

/// Relies on petgraph's `Visitable::visit_map` for `Graph`: a bit set of
/// `node_count()` bits, all clear.
#[verifier::external_body]
fn pg_visit_map(g: &LabelledGraph) -> (m: FixedBitSet)
    ensures
        bitset_flags(m) == Seq::new(graph_labels(*g).len(), |i: int| false),
{
    g.visit_map()
}

/// Relies on petgraph's `VisitMap::visit` for `FixedBitSet`, that is
/// `FixedBitSet::put`: sets bit `a`, and panics past the last bit. The index
/// passes through a 32-bit node index, hence the second bound.
#[verifier::external_body]
pub(crate) fn pg_visit(m: &mut FixedBitSet, a: usize)
    requires
        a < bitset_flags(*old(m)).len(),
        a < u32::MAX,
    ensures
        bitset_flags(*final(m)) == bitset_flags(*old(m)).update(a as int, true),
{
    m.visit(NodeIndex::<u32>::new(a));
}

/// Relies on petgraph's `VisitMap::is_visited` for `FixedBitSet`, that is
/// `FixedBitSet::contains`: whether bit `a` is set. The index passes through
/// a 32-bit node index, hence the second bound.
#[verifier::external_body]
pub(crate) fn pg_is_visited(m: &FixedBitSet, a: usize) -> (r: bool)
    requires
        a < bitset_flags(*m).len(),
        a < u32::MAX,
    ensures
        r == bitset_flags(*m)[a as int],
{
    m.is_visited(&NodeIndex::<u32>::new(a))
}

/// Why a graph operation was refused.
#[derive(Clone, Copy, Debug, PartialEq, Eq, Structural)]
pub enum GraphError {
    /// A node index that no node of the graph has.
    InvalidNode,
    /// An edge weight below zero.
    NegativeWeight,
    /// The store already holds `MAX_ITEMS` edges.
    TooManyEdges,
}

/// The largest number of nodes, and of edges, that a store holds: indices are
/// 32-bit and the all-ones index is reserved.
pub const MAX_ITEMS: usize = 0xffff_ffff;

/// What a store holds: node labels by index, and edges in insertion order.
pub struct GraphModel {
    pub labels: Seq<Seq<char>>,
    pub edges: Seq<(usize, usize, u64)>,
}

impl GraphModel {
    pub open spec fn node_count(self) -> nat {
        self.labels.len()
    }

    /// Every edge joins two existing nodes, and the counts fit the indices.
    pub open spec fn wf(self) -> bool {
        &&& self.labels.len() <= MAX_ITEMS
        &&& self.edges.len() <= MAX_ITEMS
        &&& forall|k: int|
            0 <= k < self.edges.len() ==> (#[trigger] self.edges[k]).0 < self.labels.len()
                && self.edges[k].1 < self.labels.len()
    }

    /// The `(far endpoint, weight)` pairs incident to `a`, in walk order.
    pub open spec fn neighbors(self, a: usize) -> Seq<(usize, u64)> {
        neighbor_seq(self.edges, a)
    }
}

/// An undirected graph whose nodes carry labels and whose edges carry
/// non-negative integer weights. Nodes are numbered densely from zero in the
/// order they were added.
pub struct GraphStore {
    graph: LabelledGraph,
}

impl View for GraphStore {
    type V = GraphModel;

    closed spec fn view(&self) -> GraphModel {
        GraphModel { labels: graph_labels(self.graph), edges: graph_edges(self.graph) }
    }
}

impl GraphStore {
    /// An empty graph.
    pub fn new() -> (r: GraphStore)
        ensures
            r@.labels == Seq::<Seq<char>>::empty(),
            r@.edges == Seq::<(usize, usize, u64)>::empty(),
            r@.wf(),
    {
        GraphStore { graph: pg_new() }
    }

    /// A bit set with one clear bit per node.
    pub(crate) fn visit_map(&self) -> (m: FixedBitSet)
        ensures
            bitset_flags(m) == Seq::new(self@.node_count(), |i: int| false),
    {
        pg_visit_map(&self.graph)
    }

    /// The number of nodes.
    pub fn node_count(&self) -> (r: usize)
        ensures
            r == self@.node_count(),
    {
        pg_node_count(&self.graph)
    }

    /// Adds a node with `label` and returns its index, the next free one.
    pub fn add_node(&mut self, label: String) -> (r: usize)
        requires
            old(self)@.wf(),
            old(self)@.node_count() < MAX_ITEMS,
        ensures
            r == old(self)@.node_count(),
            final(self)@.labels == old(self)@.labels.push(label@),
            final(self)@.edges == old(self)@.edges,
            final(self)@.wf(),
    {
        let r = pg_add_node(&mut self.graph, label);
        proof {
            let m = self@;
            assert forall|k: int| 0 <= k < m.edges.len() implies (#[trigger] m.edges[k]).0
                < m.labels.len() && m.edges[k].1 < m.labels.len() by {
                assert(old(self)@.edges[k] == m.edges[k]);
            }
        }
        r
    }

    /// Joins `u` and `v` by an edge of weight `weight`. Refused, with the store
    /// unchanged, when either index names no node, else when the weight is
    /// negative, else when the store holds `MAX_ITEMS` edges already.
    pub fn add_edge(&mut self, u: usize, v: usize, weight: i64) -> (r: Result<(), GraphError>)
        requires
            old(self)@.wf(),
        ensures
            final(self)@.wf(),
            final(self)@.labels == old(self)@.labels,
            u >= old(self)@.node_count() || v >= old(self)@.node_count() ==> r == Err::<
                (),
                GraphError,
            >(GraphError::InvalidNode) && final(self)@ == old(self)@,
            u < old(self)@.node_count() && v < old(self)@.node_count() && weight < 0 ==> r
                == Err::<(), GraphError>(GraphError::NegativeWeight) && final(self)@ == old(
                self,
            )@,
            u < old(self)@.node_count() && v < old(self)@.node_count() && weight >= 0
                && old(self)@.edges.len() >= MAX_ITEMS ==> r == Err::<(), GraphError>(
                GraphError::TooManyEdges,
            ) && final(self)@ == old(self)@,
            u < old(self)@.node_count() && v < old(self)@.node_count() && weight >= 0
                && old(self)@.edges.len() < MAX_ITEMS ==> r == Ok::<(), GraphError>(()) && final(self)@.edges == old(self)@.edges.push(
                (u, v, weight as u64),
            ) && final(self)@.neighbors(u).contains((v, weight as u64))
                && final(self)@.neighbors(v).contains((u, weight as u64)),
    {
        let n = pg_node_count(&self.graph);
        if u >= n || v >= n {
            return Err(GraphError::InvalidNode);
        }
        if weight < 0 {
            return Err(GraphError::NegativeWeight);
        }
        if pg_edge_count(&self.graph) >= MAX_ITEMS {
            return Err(GraphError::TooManyEdges);
        }
        pg_add_edge(&mut self.graph, u, v, weight as u64);
        proof {
            lemma_add_edge_symmetric(old(self)@.edges, u, v, weight as u64);
            let m = self@;
            assert forall|k: int| 0 <= k < m.edges.len() implies (#[trigger] m.edges[k]).0
                < m.labels.len() && m.edges[k].1 < m.labels.len() by {
                if k < old(self)@.edges.len() {
                    assert(old(self)@.edges[k] == m.edges[k]);
                }
            }
        }
        Ok(())
    }

    /// The `(far endpoint, weight)` pairs of the edges incident to `node`, in
    /// walk order; refused when `node` names no node.
    pub fn neighbors(&self, node: usize) -> (r: Result<Vec<(usize, u64)>, GraphError>)
        ensures
            node < self@.node_count() ==> r is Ok && r->Ok_0@ == self@.neighbors(node),
            node >= self@.node_count() ==> r == Err::<Vec<(usize, u64)>, GraphError>(
                GraphError::InvalidNode,
            ),
    {
        if node >= pg_node_count(&self.graph) {
            return Err(GraphError::InvalidNode);
        }
        let ghost edges = self@.edges;
        let m = pg_edge_count(&self.graph);
        let mut r: Vec<(usize, u64)> = Vec::new();
        let mut k: usize = 0;
        while k < m
            invariant
                m == edges.len(),
                edges == self@.edges,
                k <= m,
                r@ == neighbor_seq(edges.subrange(0, k as int), node),
            decreases m - k,
        {
            let e = pg_edge(&self.graph, k);
            assert(edges.subrange(0, k + 1).drop_last() =~= edges.subrange(0, k as int));
            assert(edges.subrange(0, k + 1).last() == edges[k as int]);
            if e.0 == node {
                r.push((e.1, e.2));
            } else if e.1 == node {
                r.push((e.0, e.2));
            }
            k = k + 1;
        }
        assert(edges.subrange(0, m as int) =~= edges);
        Ok(r)
    }

    /// The label of `node`; refused when `node` names no node.
    pub fn node_label(&self, node: usize) -> (r: Result<String, GraphError>)
        ensures
            node < self@.node_count() ==> r is Ok && r->Ok_0@ == self@.labels[node as int],
            node >= self@.node_count() ==> r == Err::<String, GraphError>(
                GraphError::InvalidNode,
            ),
    {
        if node >= pg_node_count(&self.graph) {
            return Err(GraphError::InvalidNode);
        }
        match pg_label(&self.graph, node) {
            Some(l) => Ok(l),
            None => Err(GraphError::InvalidNode),
        }
    }
}

} // verus!

//! The arena store: node and edge payloads, the adjacency list of each node
//! and the incidence table, with the operations that grow them.

use crate::handle::EdgeRef;
use crate::handle::NodeRef;
use vstd::prelude::*;

verus! {

/// What a graph is, as plain sequences. Nodes and edges are named by their
/// positions.
pub struct GraphView<N, E> {
    /// The node payloads, in the order in which the nodes were added.
    pub nodes: Seq<N>,
    /// The edge payloads, in the order in which the edges were added.
    pub edges: Seq<E>,
    /// The incidence table: for each edge its source and its destination.
    pub ends: Seq<(int, int)>,
    /// For each node the pairs of a neighbour and the edge that leads to it.
    pub adjacency: Seq<Seq<(int, int)>>,
}

/// The edges of `ends` that leave `u`, oldest first, each as the pair of its
/// destination and its own position.
pub open spec fn out_list(ends: Seq<(int, int)>, u: int) -> Seq<(int, int)>
    decreases ends.len(),
{
    if ends.len() == 0 {
        Seq::empty()
    } else if ends.last().0 == u {
        out_list(ends.drop_last(), u).push((ends.last().1, ends.len() - 1))
    } else {
        out_list(ends.drop_last(), u)
    }
}

impl<N, E> GraphView<N, E> {
    /// Whether `u` is the position of a node.
    pub open spec fn has_node(self, u: int) -> bool {
        0 <= u < self.nodes.len()
    }

    /// Whether `e` is the position of an edge.
    pub open spec fn has_edge(self, e: int) -> bool {
        0 <= e < self.edges.len()
    }

    /// The source of edge `e`.
    pub open spec fn source(self, e: int) -> int {
        self.ends[e].0
    }

    /// The destination of edge `e`.
    pub open spec fn target(self, e: int) -> int {
        self.ends[e].1
    }

    /// The arenas agree: every edge joins two nodes, and the adjacency list of
    /// a node is the list of the edges that leave it, oldest first.
    pub open spec fn wf(self) -> bool {
        &&& self.adjacency.len() == self.nodes.len()
        &&& self.ends.len() == self.edges.len()
        &&& forall|e: int|
            0 <= e < self.ends.len() ==> self.has_node(#[trigger] self.ends[e].0) && self.has_node(
                self.ends[e].1,
            )
        &&& forall|u: int|
            0 <= u < self.nodes.len() ==> #[trigger] self.adjacency[u] == out_list(self.ends, u)
    }

    /// The graph without nodes or edges.
    pub open spec fn empty() -> Self {
        GraphView {
            nodes: Seq::empty(),
            edges: Seq::empty(),
            ends: Seq::empty(),
            adjacency: Seq::empty(),
        }
    }

    /// The graph with one more node, which no edge touches yet.
    pub open spec fn with_node(self, n: N) -> Self {
        GraphView {
            nodes: self.nodes.push(n),
            edges: self.edges,
            ends: self.ends,
            adjacency: self.adjacency.push(Seq::empty()),
        }
    }

    /// The graph with `n` in place of the payload of node `u`.
    pub open spec fn set_node(self, u: int, n: N) -> Self {
        GraphView { nodes: self.nodes.update(u, n), ..self }
    }

    /// The graph with `e` in place of the payload of edge `i`.
    pub open spec fn set_edge(self, i: int, e: E) -> Self {
        GraphView { edges: self.edges.update(i, e), ..self }
    }

    /// The graph with one more edge, from `from` to `to`.
    pub open spec fn with_edge(self, from: int, to: int, e: E) -> Self {
        GraphView {
            nodes: self.nodes,
            edges: self.edges.push(e),
            ends: self.ends.push((from, to)),
            adjacency: self.adjacency.update(
                from,
                self.adjacency[from].push((to, self.edges.len() as int)),
            ),
        }
    }

    /// How often the pair of neighbour `v` and edge `e` stands in the
    /// adjacency list of `u`.
    pub open spec fn times_listed(self, u: int, v: int, e: int) -> nat {
        self.adjacency[u].filter(|p: (int, int)| p == (v, e)).len()
    }
}

struct AdjEntry {
    node: NodeRef,
    edge: EdgeRef,
}

struct IncEntry {
    from: NodeRef,
    to: NodeRef,
}

/// A directed graph with payloads of type `N` on its nodes and of type `E`
/// on its edges. Nodes and edges are only ever added.
pub struct Graph<N, E> {
    nodes: Vec<N>,
    edges: Vec<E>,
    adjacency: Vec<Vec<AdjEntry>>,
    incidence: Vec<IncEntry>,
}

impl<N, E> View for Graph<N, E> {
    type V = GraphView<N, E>;

    closed spec fn view(&self) -> GraphView<N, E> {
        GraphView {
            nodes: self.nodes@,
            edges: self.edges@,
            ends: Seq::new(
                self.incidence@.len(),
                |i: int| (self.incidence@[i].from@, self.incidence@[i].to@),
            ),
            adjacency: Seq::new(
                self.adjacency@.len(),
                |u: int|
                    Seq::new(
                        self.adjacency@[u]@.len(),
                        |j: int| (self.adjacency@[u]@[j].node@, self.adjacency@[u]@[j].edge@),
                    ),
            ),
        }
    }
}

impl<N, E> Default for Graph<N, E> {
    /// The graph without nodes or edges.
    fn default() -> (g: Self)
        ensures
            g.wf(),
            g@ == GraphView::<N, E>::empty(),
    {
        let g = Graph {
            nodes: Vec::new(),
            edges: Vec::new(),
            adjacency: Vec::new(),
            incidence: Vec::new(),
        };
        assert(g@.ends =~= Seq::empty());
        assert(g@.adjacency =~= Seq::empty());
        g
    }
}

impl<N, E> Graph<N, E> {
    /// The invariant of every graph that this module hands out.
    pub open spec fn wf(&self) -> bool {
        self@.wf()
    }

    /// Whether `r` names a node of this graph.
    pub open spec fn has_node(&self, r: NodeRef) -> bool {
        self@.has_node(r@)
    }

    /// Whether `r` names an edge of this graph.
    pub open spec fn has_edge(&self, r: EdgeRef) -> bool {
        self@.has_edge(r@)
    }

    /// Constructs an empty graph
    pub fn empty() -> (g: Self)
        ensures
            g.wf(),
            g@ == GraphView::<N, E>::empty(),
    {
        Self::default()
    }

    /// The number of nodes.
    pub(crate) fn node_count(&self) -> (n: usize)
        ensures
            n == self@.nodes.len(),
    {
        self.nodes.len()
    }

    /// The number of edges.
    pub(crate) fn edge_count(&self) -> (n: usize)
        ensures
            n == self@.edges.len(),
    {
        self.edges.len()
    }

    /// The length of the adjacency list of node `u`.
    pub(crate) fn out_degree(&self, u: usize) -> (d: usize)
        requires
            self.wf(),
            u < self@.nodes.len(),
        ensures
            d == self@.adjacency[u as int].len(),
    {
        self.adjacency[u].len()
    }

    /// Entry `j` of the adjacency list of node `u`.
    pub(crate) fn out_entry(&self, u: usize, j: usize) -> (p: (NodeRef, EdgeRef))
        requires
            self.wf(),
            u < self@.nodes.len(),
            j < self@.adjacency[u as int].len(),
        ensures
            (p.0@, p.1@) == self@.adjacency[u as int][j as int],
    {
        let entry = &self.adjacency[u][j];
        (entry.node, entry.edge)
    }

    /// The source and the destination of edge `e`.
    pub(crate) fn edge_ends(&self, e: usize) -> (p: (NodeRef, NodeRef))
        requires
            self.wf(),
            e < self@.edges.len(),
        ensures
            (p.0@, p.1@) == self@.ends[e as int],
    {
        let entry = &self.incidence[e];
        (entry.from, entry.to)
    }

    /// Adds a node that holds `n` and returns its handle: the number of nodes
    /// that the graph had before.
    pub fn node(&mut self, n: N) -> (r: NodeRef)
        requires
            old(self).wf(),
        ensures
            final(self).wf(),
            final(self)@ == old(self)@.with_node(n),
            r@ == old(self)@.nodes.len(),
    {
        let r = NodeRef::at(self.nodes.len());
        self.nodes.push(n);
        self.adjacency.push(Vec::new());
        proof {
            assert(self@.ends =~= old(self)@.ends);
            let ghost grown = old(self)@.adjacency.push(Seq::empty());
            assert forall|u: int| 0 <= u < grown.len() implies self@.adjacency[u] =~= grown[u] by {
                if u < old(self)@.adjacency.len() {
                    assert(self.adjacency@[u] == old(self).adjacency@[u]);
                }
            }
            assert(self@.adjacency =~= grown);
            assert(out_list(self@.ends, old(self)@.nodes.len() as int) =~= Seq::empty()) by {
                lemma_out_list_foreign(self@.ends, old(self)@.nodes.len() as int);
            }
        }
        r
    }

    /// Adds an edge from `from` to `to` that holds `e` and returns its handle:
    /// the number of edges that the graph had before.
    pub fn directed_edge(&mut self, from: NodeRef, to: NodeRef, e: E) -> (r: EdgeRef)
        requires
            old(self).wf(),
            old(self).has_node(from),
            old(self).has_node(to),
        ensures
            final(self).wf(),
            final(self)@ == old(self)@.with_edge(from@, to@, e),
            r@ == old(self)@.edges.len(),
    {
        let r = EdgeRef::at(self.edges.len());
        self.edges.push(e);
        self.adjacency[from.position()].push(AdjEntry { node: to, edge: r });
        self.incidence.push(IncEntry { from, to });
        proof {
            let ghost before = old(self)@;
            let ghost after = before.with_edge(from@, to@, e);
            assert(self@.ends =~= after.ends);
            assert(self@.adjacency.len() == after.adjacency.len());
            assert forall|u: int| 0 <= u < after.adjacency.len() implies self@.adjacency[u]
                =~= after.adjacency[u] by {
                if u != from@ {
                    assert(self.adjacency@[u] == old(self).adjacency@[u]);
                }
            }
            assert(self@.adjacency =~= after.adjacency);
            lemma_with_edge_wf(before, from@, to@, e);
        }
        r
    }
}

impl<N, E: Clone> Graph<N, E> {
    /// Adds two edges, from `a` to `b` and then from `b` to `a`, and returns
    /// their handles in that order. The first holds a clone of `e`, the second
    /// `e` itself; they are two slots of the arena with nothing else in common.
    pub fn undirected_edge(&mut self, a: NodeRef, b: NodeRef, e: E) -> (r: [EdgeRef; 2])
        requires
            old(self).wf(),
            old(self).has_node(a),
            old(self).has_node(b),
        ensures
            final(self).wf(),
            r[0]@ == old(self)@.edges.len(),
            r[1]@ == old(self)@.edges.len() + 1,
            cloned(e, final(self)@.edges[r[0]@]),
            final(self)@ == old(self)@.with_edge(a@, b@, final(self)@.edges[r[0]@]).with_edge(
                b@,
                a@,
                e,
            ),
    {
        let r1 = self.directed_edge(a, b, e.clone());
        let r2 = self.directed_edge(b, a, e);
        [r1, r2]
    }
}

impl<N, E> core::ops::Index<NodeRef> for Graph<N, E> {
    type Output = N;

    fn index(&self, index: NodeRef) -> (out: &N)
        ensures
            *out == self@.nodes[index@],
    {
        &self.nodes[index.position()]
    }
}

impl<N, E> vstd::std_specs::core::IndexSpecImpl<NodeRef> for Graph<N, E> {
    open spec fn index_req(&self, index: &NodeRef) -> bool {
        self.has_node(*index)
    }
}

impl<N, E> core::ops::IndexMut<NodeRef> for Graph<N, E> {
    fn index_mut(&mut self, index: NodeRef) -> (out: &mut N)
        requires
            old(self).has_node(index),
        ensures
            *out == old(self)@.nodes[index@],
            final(self)@ == old(self)@.set_node(index@, *final(out)),
            old(self).wf() ==> final(self).wf(),
    {
        &mut self.nodes[index.position()]
    }
}

impl<N, E> core::ops::Index<EdgeRef> for Graph<N, E> {
    type Output = E;

    fn index(&self, index: EdgeRef) -> (out: &E)
        ensures
            *out == self@.edges[index@],
    {
        &self.edges[index.position()]
    }
}

impl<N, E> vstd::std_specs::core::IndexSpecImpl<EdgeRef> for Graph<N, E> {
    open spec fn index_req(&self, index: &EdgeRef) -> bool {
        self.has_edge(*index)
    }
}

impl<N, E> core::ops::IndexMut<EdgeRef> for Graph<N, E> {
    fn index_mut(&mut self, index: EdgeRef) -> (out: &mut E)
        requires
            old(self).has_edge(index),
        ensures
            *out == old(self)@.edges[index@],
            final(self)@ == old(self)@.set_edge(index@, *final(out)),
            old(self).wf() ==> final(self).wf(),
    {
        &mut self.edges[index.position()]
    }
}

/// Where no edge leaves `u`, the list of `u` is empty.
pub proof fn lemma_out_list_foreign(ends: Seq<(int, int)>, u: int)
    requires
        forall|e: int| 0 <= e < ends.len() ==> (#[trigger] ends[e]).0 != u,
    ensures
        out_list(ends, u) == Seq::<(int, int)>::empty(),
    decreases ends.len(),
{
    if ends.len() > 0 {
        lemma_out_list_foreign(ends.drop_last(), u);
    }
}

/// Adding an edge between two nodes keeps the arenas in agreement.
pub proof fn lemma_with_edge_wf<N, E>(g: GraphView<N, E>, from: int, to: int, e: E)
    requires
        g.wf(),
        g.has_node(from),
        g.has_node(to),
    ensures
        g.with_edge(from, to, e).wf(),
{
    let h = g.with_edge(from, to, e);
    assert(h.ends.drop_last() =~= g.ends);
    assert forall|u: int| 0 <= u < h.nodes.len() implies #[trigger] h.adjacency[u] == out_list(
        h.ends,
        u,
    ) by {
        assert(g.adjacency[u] == out_list(g.ends, u));
    }
}

/// The adjacency lists and the incidence table never diverge: the edge `e`,
/// which the table gives the ends `(u, v)`, stands in the adjacency list of
/// `u` as the pair `(v, e)`, exactly once.
pub proof fn lemma_edge_listed_once<N, E>(g: GraphView<N, E>, e: int)
    requires
        g.wf(),
        g.has_edge(e),
    ensures
        g.times_listed(g.source(e), g.target(e), e) == 1,
{
    lemma_out_list_count(g.ends, g.source(e), g.target(e), e);
    assert(g.adjacency[g.source(e)] == out_list(g.ends, g.source(e)));
}

/// Every entry of an adjacency list is an edge of the incidence table: the
/// pair `(v, e)` in the list of `u` says that `e` leads from `u` to `v`.
pub proof fn lemma_listed_is_edge<N, E>(g: GraphView<N, E>, u: int, j: int)
    requires
        g.wf(),
        g.has_node(u),
        0 <= j < g.adjacency[u].len(),
    ensures
        g.has_edge(g.adjacency[u][j].1),
        g.ends[g.adjacency[u][j].1] == (u, g.adjacency[u][j].0),
        g.has_node(g.adjacency[u][j].0),
{
    lemma_out_list_entries(g.ends, u);
    assert(g.adjacency[u] == out_list(g.ends, u));
    let e = g.adjacency[u][j].1;
    assert(g.has_node(g.ends[e].0) && g.has_node(g.ends[e].1));
}

/// The two halves of an undirected edge are separate slots: a new payload on
/// one edge leaves the payload of every other edge as it was.
pub proof fn lemma_payloads_independent<N, E>(g: GraphView<N, E>, e1: int, e2: int, p: E)
    requires
        g.has_edge(e1),
        g.has_edge(e2),
        e1 != e2,
    ensures
        g.set_edge(e1, p).edges[e2] == g.edges[e2],
        g.set_edge(e1, p).edges[e1] == p,
        g.wf() ==> g.set_edge(e1, p).wf(),
{
}

/// Each entry of `out_list(ends, u)` is an edge of `ends` that leaves `u`,
/// with its destination.
pub proof fn lemma_out_list_entries(ends: Seq<(int, int)>, u: int)
    ensures
        forall|j: int|
            0 <= j < out_list(ends, u).len() ==> {
                let p = #[trigger] out_list(ends, u)[j];
                0 <= p.1 < ends.len() && ends[p.1] == (u, p.0)
            },
    decreases ends.len(),
{
    if ends.len() > 0 {
        lemma_out_list_entries(ends.drop_last(), u);
    }
}

/// How often `(v, e)` stands in `out_list(ends, u)`: once if `e` is an edge of
/// `ends` from `u` to `v`, and not at all otherwise.
pub proof fn lemma_out_list_count(ends: Seq<(int, int)>, u: int, v: int, e: int)
    ensures
        out_list(ends, u).filter(|p: (int, int)| p == (v, e)).len() == (if 0 <= e < ends.len()
            && ends[e] == (u, v) {
            1nat
        } else {
            0nat
        }),
    decreases ends.len(),
{
    let hit = |p: (int, int)| p == (v, e);
    if ends.len() == 0 {
        assert(out_list(ends, u).filter(hit) =~= Seq::empty()) by {
            broadcast use vstd::seq_lib::group_filter_ensures;
        }
    } else {
        let rest = ends.drop_last();
        lemma_out_list_count(rest, u, v, e);
        if ends.last().0 == u {
            let last = (ends.last().1, ends.len() - 1);
            assert(out_list(ends, u) == out_list(rest, u).push(last));
            out_list(rest, u).lemma_filter_push(last, hit);
        }
    }
}

/// Every edge that leaves `u` is an entry of `out_list(ends, u)`.
pub proof fn lemma_out_list_has(ends: Seq<(int, int)>, e: int)
    requires
        0 <= e < ends.len(),
    ensures
        out_list(ends, ends[e].0).contains((ends[e].1, e)),
    decreases ends.len(),
{
    let u = ends[e].0;
    let rest = ends.drop_last();
    let now = out_list(ends, u);
    let before = out_list(rest, u);
    if e < rest.len() {
        assert(rest[e] == ends[e]);
        lemma_out_list_has(rest, e);
        let j = choose|j: int| 0 <= j < before.len() && before[j] == (ends[e].1, e);
        assert(now[j] == (ends[e].1, e));
    } else {
        assert(now[now.len() - 1] == (ends[e].1, e));
    }
}

/// The entries of `out_list(ends, u)` stand in the order of their edges.
pub proof fn lemma_out_list_rises(ends: Seq<(int, int)>, u: int)
    ensures
        forall|i: int, j: int|
            0 <= i < j < out_list(ends, u).len() ==> (#[trigger] out_list(ends, u)[i]).1 < (
            #[trigger] out_list(ends, u)[j]).1,
    decreases ends.len(),
{
    if ends.len() > 0 {
        lemma_out_list_rises(ends.drop_last(), u);
        lemma_out_list_entries(ends.drop_last(), u);
    }
}

/// The edges that an adjacency list names, in its order.
pub open spec fn list_edges(list: Seq<(int, int)>) -> Seq<int> {
    Seq::new(list.len(), |i: int| list[i].1)
}

/// The adjacency list of `u` names each edge that leaves `u` once, and no
/// other edge.
pub proof fn lemma_list_edges<N, E>(g: GraphView<N, E>, u: int)
    requires
        g.wf(),
        g.has_node(u),
    ensures
        list_edges(g.adjacency[u]).no_duplicates(),
        forall|e: int| #[trigger]
            list_edges(g.adjacency[u]).contains(e) <==> g.has_edge(e) && g.source(e) == u,
{
    let list = g.adjacency[u];
    let edges = list_edges(list);
    assert(list == out_list(g.ends, u));
    lemma_out_list_rises(g.ends, u);
    lemma_out_list_entries(g.ends, u);
    assert forall|e: int| #[trigger] edges.contains(e) <==> g.has_edge(e) && g.source(e) == u by {
        if edges.contains(e) {
            let i = choose|i: int| 0 <= i < edges.len() && edges[i] == e;
            assert(list[i].1 == e);
        }
        if g.has_edge(e) && g.source(e) == u {
            lemma_out_list_has(g.ends, e);
            let i = choose|i: int| 0 <= i < list.len() && list[i] == (g.ends[e].1, e);
            assert(edges[i] == e);
        }
    }
}

/// Every edge joins two nodes of the graph.
pub proof fn lemma_edge_ends<N, E>(g: GraphView<N, E>, e: int)
    requires
        g.wf(),
        g.has_edge(e),
    ensures
        g.has_node(g.source(e)),
        g.has_node(g.target(e)),
{
    assert(g.has_node(g.ends[e].0) && g.has_node(g.ends[e].1));
}

} // verus!

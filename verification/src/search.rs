//! The search for a way to push more: breadth-first from the source,
//! through what the flow so far leaves free.

use crate::graph::lemma_listed_is_edge;
use crate::graph::lemma_out_list_has;
use crate::graph::out_list;
use crate::graph::Graph;
use crate::graph::GraphView;
use crate::residual::room;
use crate::residual::step_from;
use crate::residual::step_to;
use crate::residual::Step;
use crate::traverse::lemma_mark_one;
use crate::traverse::unmarked;
use vstd::prelude::*;

verus! {

/// The edges of `ends` that enter `v`, oldest first.
pub open spec fn in_list(ends: Seq<(int, int)>, v: int) -> Seq<int>
    decreases ends.len(),
{
    if ends.len() == 0 {
        Seq::empty()
    } else if ends.last().1 == v {
        in_list(ends.drop_last(), v).push(ends.len() - 1)
    } else {
        in_list(ends.drop_last(), v)
    }
}

/// Every entry of `in_list(ends, v)` is an edge that enters `v`, and every
/// such edge is an entry.
pub proof fn lemma_in_list(ends: Seq<(int, int)>, v: int)
    ensures
        forall|j: int|
            0 <= j < in_list(ends, v).len() ==> 0 <= #[trigger] in_list(ends, v)[j] < ends.len()
                && ends[in_list(ends, v)[j]].1 == v,
        forall|e: int|
            0 <= e < ends.len() && (#[trigger] ends[e]).1 == v ==> in_list(ends, v).contains(e),
    decreases ends.len(),
{
    if ends.len() > 0 {
        let rest = ends.drop_last();
        lemma_in_list(rest, v);
        let now = in_list(ends, v);
        let before = in_list(rest, v);
        assert forall|e: int| 0 <= e < ends.len() && (#[trigger] ends[e]).1 == v implies now.contains(
            e,
        ) by {
            if e < rest.len() {
                assert(rest[e] == ends[e]);
                let j = choose|j: int| 0 <= j < before.len() && before[j] == e;
                assert(now[j] == e);
            } else {
                assert(now[now.len() - 1] == e);
            }
        }
    }
}

/// The edge positions of a list, as integers.
pub open spec fn positions(list: Seq<usize>) -> Seq<int> {
    Seq::new(list.len(), |i: int| list[i] as int)
}

/// The amounts of a table, as integers.
pub open spec fn amounts(table: Seq<i32>) -> Seq<int> {
    Seq::new(table.len(), |i: int| table[i] as int)
}

/// Whether every step that the flow `f` leaves room for, starting at `u`,
/// ends at a node that `reached` marks.
pub open spec fn node_closed<N>(g: GraphView<N, i32>, f: Seq<int>, reached: Seq<bool>, u: int) -> bool {
    forall|e: int|
        0 <= e < g.ends.len() ==> ((#[trigger] g.ends[e]).0 == u && f[e] < g.edges[e]
            ==> reached[g.ends[e].1]) && (g.ends[e].1 == u && f[e] > 0 ==> reached[g.ends[e].0])
}

/// Whether `later` marks every node that `earlier` marks.
pub open spec fn grown(earlier: Seq<bool>, later: Seq<bool>) -> bool {
    &&& earlier.len() == later.len()
    &&& forall|v: int| 0 <= v < earlier.len() && earlier[v] ==> later[v]
}

/// Whether every edge out of `u` that `f` has not filled leads to a node
/// that `reached` marks.
pub open spec fn out_scanned<N>(g: GraphView<N, i32>, f: Seq<int>, reached: Seq<bool>, u: int) -> bool {
    forall|i: int|
        0 <= i < g.adjacency[u].len() ==> {
            let entry = #[trigger] g.adjacency[u][i];
            f[entry.1] < g.edges[entry.1] ==> reached[entry.0]
        }
}

/// Whether every edge into `u` on which `f` carries something comes from a
/// node that `reached` marks.
pub open spec fn in_scanned<N>(g: GraphView<N, i32>, f: Seq<int>, reached: Seq<bool>, u: int) -> bool {
    forall|i: int|
        0 <= i < in_list(g.ends, u).len() ==> {
            let e = #[trigger] in_list(g.ends, u)[i];
            f[e] > 0 ==> reached[g.ends[e].0]
        }
}

/// What was scanned stays scanned when more nodes are marked.
proof fn lemma_out_scanned_grows<N>(
    g: GraphView<N, i32>,
    f: Seq<int>,
    earlier: Seq<bool>,
    later: Seq<bool>,
    u: int,
)
    requires
        g.wf(),
        g.has_node(u),
        earlier.len() == g.nodes.len(),
        grown(earlier, later),
        out_scanned(g, f, earlier, u),
    ensures
        out_scanned(g, f, later, u),
{
    assert forall|i: int| 0 <= i < g.adjacency[u].len() implies {
        let entry = #[trigger] g.adjacency[u][i];
        f[entry.1] < g.edges[entry.1] ==> later[entry.0]
    } by {
        lemma_listed_is_edge(g, u, i);
    }
}

/// A node whose two lists were scanned is closed.
proof fn lemma_node_closed<N>(g: GraphView<N, i32>, f: Seq<int>, reached: Seq<bool>, u: int)
    requires
        g.wf(),
        g.has_node(u),
        out_scanned(g, f, reached, u),
        in_scanned(g, f, reached, u),
    ensures
        node_closed(g, f, reached, u),
{
    assert forall|e: int| 0 <= e < g.ends.len() implies ((#[trigger] g.ends[e]).0 == u && f[e]
        < g.edges[e] ==> reached[g.ends[e].1]) && (g.ends[e].1 == u && f[e] > 0
        ==> reached[g.ends[e].0]) by {
        if g.ends[e].0 == u {
            lemma_out_list_has(g.ends, e);
            assert(g.adjacency[u] == out_list(g.ends, u));
            let i = choose|i: int|
                0 <= i < g.adjacency[u].len() && g.adjacency[u][i] == (g.ends[e].1, e);
            assert(g.adjacency[u][i].1 == e);
        }
        if g.ends[e].1 == u {
            lemma_in_list(g.ends, u);
            let i = choose|i: int| 0 <= i < in_list(g.ends, u).len() && in_list(g.ends, u)[i] == e;
            assert(in_list(g.ends, u)[i] == e);
        }
    }
}

/// A closed node stays closed when more nodes are marked.
proof fn lemma_node_closed_grows<N>(
    g: GraphView<N, i32>,
    f: Seq<int>,
    earlier: Seq<bool>,
    later: Seq<bool>,
    u: int,
)
    requires
        g.wf(),
        earlier.len() == g.nodes.len(),
        grown(earlier, later),
        node_closed(g, f, earlier, u),
    ensures
        node_closed(g, f, later, u),
{
    assert forall|e: int| 0 <= e < g.ends.len() implies ((#[trigger] g.ends[e]).0 == u && f[e]
        < g.edges[e] ==> later[g.ends[e].1]) && (g.ends[e].1 == u && f[e] > 0
        ==> later[g.ends[e].0]) by {
        assert(g.has_node(g.ends[e].0) && g.has_node(g.ends[e].1));
    }
}

/// A breadth-first search through what a flow leaves free: the nodes it has
/// reached, in the order in which it reached them, and for each the step by
/// which it came.
pub(crate) struct Search {
    pub(crate) reached: Vec<bool>,
    pub(crate) via_edge: Vec<usize>,
    pub(crate) via_forward: Vec<bool>,
    pub(crate) order: Vec<usize>,
    pub(crate) place: Ghost<Seq<int>>,
}

impl Search {
    /// The step by which the search came to `v`.
    pub(crate) open spec fn step(&self, v: int) -> Step {
        Step { edge: self.via_edge@[v] as int, forward: self.via_forward@[v] }
    }

    /// Whether the step to `v` is one that `f` leaves room for, from a node
    /// that was reached before `v`.
    pub(crate) open spec fn good_step<N>(&self, g: GraphView<N, i32>, f: Seq<int>, v: int) -> bool {
        let st = self.step(v);
        let p = step_from(g.ends, st);
        &&& 0 <= st.edge < g.ends.len()
        &&& step_to(g.ends, st) == v
        &&& 0 <= p < g.nodes.len()
        &&& self.reached@[p]
        &&& self.place@[p] < self.place@[v]
        &&& room(g.capacities(), f, st) >= 1
    }

    /// The search is a tree rooted in `s`: every reached node stands once in
    /// the order, at its place, and every one but `s` has a good step.
    #[verifier::opaque]
    pub(crate) open spec fn inv<N>(&self, g: GraphView<N, i32>, f: Seq<int>, s: int) -> bool {
        let n = g.nodes.len();
        &&& self.reached@.len() == n
        &&& self.via_edge@.len() == n
        &&& self.via_forward@.len() == n
        &&& self.place@.len() == n
        &&& 0 <= s < n
        &&& self.reached@[s]
        &&& forall|i: int|
            0 <= i < self.order@.len() ==> (#[trigger] self.order@[i]) < n
                && self.reached@[self.order@[i] as int] && self.place@[self.order@[i] as int] == i
        &&& forall|v: int|
            0 <= v < n && #[trigger] self.reached@[v] ==> 0 <= self.place@[v] < self.order@.len()
                && self.order@[self.place@[v]] == v
        &&& forall|v: int|
            0 <= v < n && #[trigger] self.reached@[v] && v != s ==> self.good_step(g, f, v)
    }

    /// Marks `w` as reached by the step along `e`, or against it.
    fn reach<N>(
        &mut self,
        Ghost(g): Ghost<GraphView<N, i32>>,
        Ghost(f): Ghost<Seq<int>>,
        Ghost(s): Ghost<int>,
        w: usize,
        e: usize,
        forward: bool,
    )
        requires
            old(self).inv(g, f, s),
            w < g.nodes.len(),
            !old(self).reached@[w as int],
            e < g.ends.len(),
            step_to(g.ends, Step { edge: e as int, forward }) == w,
            0 <= step_from(g.ends, Step { edge: e as int, forward }) < g.nodes.len(),
            old(self).reached@[step_from(g.ends, Step { edge: e as int, forward })],
            room(g.capacities(), f, Step { edge: e as int, forward }) >= 1,
        ensures
            final(self).inv(g, f, s),
            final(self).reached@ == old(self).reached@.update(w as int, true),
            final(self).order@ == old(self).order@.push(w),
            unmarked(final(self).reached@) + 1 == unmarked(old(self).reached@),
    {
        proof {
            reveal(Search::inv);
            lemma_mark_one(self.reached@, w as int);
        }
        let ghost before = *self;
        self.reached[w] = true;
        self.via_edge[w] = e;
        self.via_forward[w] = forward;
        proof {
            self.place@ = self.place@.update(w as int, self.order@.len() as int);
        }
        self.order.push(w);
        proof {
            let n = g.nodes.len();
            assert forall|v: int| 0 <= v < n && #[trigger] self.reached@[v] && v != s implies self.good_step(
                g,
                f,
                v,
            ) by {
                if v != w {
                    assert(before.reached@[v]);
                    assert(before.good_step(g, f, v));
                    assert(self.step(v) == before.step(v));
                    let p = step_from(g.ends, self.step(v));
                    assert(before.reached@[p]);
                }
            }
            assert forall|v: int| 0 <= v < n && #[trigger] self.reached@[v] implies 0
                <= self.place@[v] < self.order@.len() && self.order@[self.place@[v]] == v by {
                if v != w {
                    assert(before.reached@[v]);
                }
            }
            assert forall|i: int| 0 <= i < self.order@.len() implies (#[trigger] self.order@[i])
                < n && self.reached@[self.order@[i] as int] && self.place@[self.order@[i] as int]
                == i by {
                if i < before.order@.len() {
                    assert(self.order@[i] == before.order@[i]);
                }
            }
        }
    }

    /// The tables of a search have an entry for each node.
    pub(crate) proof fn lemma_sized<N>(&self, g: GraphView<N, i32>, f: Seq<int>, s: int)
        requires
            self.inv(g, f, s),
        ensures
            self.reached@.len() == g.nodes.len(),
            self.via_edge@.len() == g.nodes.len(),
            self.via_forward@.len() == g.nodes.len(),
            0 <= s < g.nodes.len(),
            self.reached@[s],
    {
        reveal(Search::inv);
    }

    /// Every node in the order is a reached node of the graph.
    pub(crate) proof fn lemma_ordered<N>(&self, g: GraphView<N, i32>, f: Seq<int>, s: int, i: int)
        requires
            self.inv(g, f, s),
            0 <= i < self.order@.len(),
        ensures
            self.order@[i] < g.nodes.len(),
            self.reached@[self.order@[i] as int],
    {
        reveal(Search::inv);
    }

    /// Every reached node stands in the order.
    pub(crate) proof fn lemma_placed<N>(&self, g: GraphView<N, i32>, f: Seq<int>, s: int, v: int)
        requires
            self.inv(g, f, s),
            0 <= v < g.nodes.len(),
            self.reached@[v],
        ensures
            0 <= self.place@[v] < self.order@.len(),
            self.order@[self.place@[v]] == v,
    {
        reveal(Search::inv);
    }

    /// Every reached node but the root has a good step.
    pub(crate) proof fn lemma_stepped<N>(&self, g: GraphView<N, i32>, f: Seq<int>, s: int, v: int)
        requires
            self.inv(g, f, s),
            0 <= v < g.nodes.len(),
            self.reached@[v],
            v != s,
        ensures
            self.good_step(g, f, v),
    {
        reveal(Search::inv);
    }

    /// Follows every edge out of `u` that `flow` has not filled.
    fn scan_out<N>(&mut self, graph: &Graph<N, i32>, flow: &Vec<i32>, Ghost(s): Ghost<int>, u: usize)
        requires
            graph.wf(),
            flow@.len() == graph@.edges.len(),
            old(self).inv(graph@, amounts(flow@), s),
            u < graph@.nodes.len(),
            old(self).reached@[u as int],
        ensures
            final(self).inv(graph@, amounts(flow@), s),
            grown(old(self).reached@, final(self).reached@),
            old(self).order@.is_prefix_of(final(self).order@),
            unmarked(final(self).reached@) + final(self).order@.len() == unmarked(
                old(self).reached@,
            ) + old(self).order@.len(),
            out_scanned(graph@, amounts(flow@), final(self).reached@, u as int),
    {
        let ghost g = graph@;
        let ghost f = amounts(flow@);
        let degree = graph.out_degree(u);
        let mut j: usize = 0;
        while j < degree
            invariant
                graph.wf(),
                g == graph@,
                f == amounts(flow@),
                flow@.len() == g.edges.len(),
                self.inv(g, f, s),
                u < g.nodes.len(),
                self.reached@[u as int],
                degree == g.adjacency[u as int].len(),
                j <= degree,
                grown(old(self).reached@, self.reached@),
                old(self).order@.is_prefix_of(self.order@),
                unmarked(self.reached@) + self.order@.len() == unmarked(old(self).reached@) + old(
                    self,
                ).order@.len(),
                forall|i: int|
                    0 <= i < j ==> {
                        let entry = #[trigger] g.adjacency[u as int][i];
                        f[entry.1] < g.edges[entry.1] ==> self.reached@[entry.0]
                    },
            decreases degree - j,
        {
            let (w_ref, e_ref) = graph.out_entry(u, j);
            let w = w_ref.position();
            let e = e_ref.position();
            proof {
                lemma_listed_is_edge(g, u as int, j as int);
                self.lemma_sized(g, f, s);
            }
            let ghost so_far = self.reached@;
            if flow[e] < graph[e_ref] && !self.reached[w] {
                self.reach::<N>(Ghost(g), Ghost(f), Ghost(s), w, e, true);
            }
            proof {
                assert forall|i: int| 0 <= i < j + 1 implies {
                    let entry = #[trigger] g.adjacency[u as int][i];
                    f[entry.1] < g.edges[entry.1] ==> self.reached@[entry.0]
                } by {
                    let entry = g.adjacency[u as int][i];
                    if i < j {
                        assert(f[entry.1] < g.edges[entry.1] ==> so_far[entry.0]);
                        lemma_listed_is_edge(g, u as int, i);
                    }
                }
            }
            j += 1;
        }
    }

    /// Goes back along every edge into `u` on which `flow` carries something.
    fn scan_in<N>(
        &mut self,
        graph: &Graph<N, i32>,
        back: &Vec<usize>,
        flow: &Vec<i32>,
        Ghost(s): Ghost<int>,
        u: usize,
    )
        requires
            graph.wf(),
            flow@.len() == graph@.edges.len(),
            old(self).inv(graph@, amounts(flow@), s),
            u < graph@.nodes.len(),
            old(self).reached@[u as int],
            positions(back@) == in_list(graph@.ends, u as int),
        ensures
            final(self).inv(graph@, amounts(flow@), s),
            grown(old(self).reached@, final(self).reached@),
            old(self).order@.is_prefix_of(final(self).order@),
            unmarked(final(self).reached@) + final(self).order@.len() == unmarked(
                old(self).reached@,
            ) + old(self).order@.len(),
            in_scanned(graph@, amounts(flow@), final(self).reached@, u as int),
    {
        let ghost g = graph@;
        let ghost f = amounts(flow@);
        let mut k: usize = 0;
        while k < back.len()
            invariant
                graph.wf(),
                g == graph@,
                f == amounts(flow@),
                flow@.len() == g.edges.len(),
                self.inv(g, f, s),
                u < g.nodes.len(),
                self.reached@[u as int],
                positions(back@) == in_list(g.ends, u as int),
                k <= back@.len(),
                grown(old(self).reached@, self.reached@),
                old(self).order@.is_prefix_of(self.order@),
                unmarked(self.reached@) + self.order@.len() == unmarked(old(self).reached@) + old(
                    self,
                ).order@.len(),
                forall|i: int|
                    0 <= i < k ==> {
                        let e = #[trigger] in_list(g.ends, u as int)[i];
                        f[e] > 0 ==> self.reached@[g.ends[e].0]
                    },
            decreases back@.len() - k,
        {
            let e = back[k];
            proof {
                lemma_in_list(g.ends, u as int);
                assert(positions(back@)[k as int] == e);
                assert(g.has_node(g.ends[e as int].0) && g.has_node(g.ends[e as int].1));
                self.lemma_sized(g, f, s);
            }
            let (x_ref, _) = graph.edge_ends(e);
            let x = x_ref.position();
            let ghost so_far = self.reached@;
            if flow[e] > 0 && !self.reached[x] {
                self.reach::<N>(Ghost(g), Ghost(f), Ghost(s), x, e, false);
            }
            proof {
                assert forall|i: int| 0 <= i < k + 1 implies {
                    let e = #[trigger] in_list(g.ends, u as int)[i];
                    f[e] > 0 ==> self.reached@[g.ends[e].0]
                } by {
                    let e2 = in_list(g.ends, u as int)[i];
                    assert(g.has_node(g.ends[e2].0) && g.has_node(g.ends[e2].1));
                    if i < k {
                        assert(f[e2] > 0 ==> so_far[g.ends[e2].0]);
                    }
                }
            }
            k += 1;
        }
    }
}

impl<N> Graph<N, i32> {
    /// For each node the edges that enter it, oldest first.
    pub(crate) fn incoming(&self) -> (lists: Vec<Vec<usize>>)
        requires
            self.wf(),
        ensures
            lists@.len() == self@.nodes.len(),
            forall|v: int|
                0 <= v < lists@.len() ==> positions((#[trigger] lists@[v])@) == in_list(
                    self@.ends,
                    v,
                ),
    {
        let n = self.node_count();
        let m = self.edge_count();
        let mut lists: Vec<Vec<usize>> = Vec::new();
        while lists.len() < n
            invariant
                lists@.len() <= n,
                forall|v: int| 0 <= v < lists@.len() ==> (#[trigger] lists@[v])@.len() == 0,
            decreases n - lists.len(),
        {
            lists.push(Vec::new());
        }
        let mut e: usize = 0;
        proof {
            assert forall|v: int| 0 <= v < lists@.len() implies positions((#[trigger] lists@[v])@)
                == in_list(self@.ends.take(0), v) by {
                assert(positions(lists@[v]@) =~= Seq::empty());
            }
        }
        while e < m
            invariant
                self.wf(),
                n == self@.nodes.len(),
                m == self@.edges.len(),
                lists@.len() == n,
                e <= m,
                forall|v: int|
                    0 <= v < n ==> positions((#[trigger] lists@[v])@) == in_list(
                        self@.ends.take(e as int),
                        v,
                    ),
            decreases m - e,
        {
            let (_, to) = self.edge_ends(e);
            let w = to.position();
            let ghost before = lists@;
            proof {
                assert(self@.has_node(self@.ends[e as int].0) && self@.has_node(
                    self@.ends[e as int].1,
                ));
            }
            lists[w].push(e);
            proof {
                let longer = self@.ends.take(e + 1);
                assert(longer.drop_last() =~= self@.ends.take(e as int));
                assert(longer.last() == self@.ends[e as int]);
                assert forall|v: int| 0 <= v < n implies positions((#[trigger] lists@[v])@)
                    == in_list(longer, v) by {
                    if v == w {
                        assert(positions(lists@[v]@) =~= positions(before[v]@).push(e as int));
                    } else {
                        assert(lists@[v] == before[v]);
                    }
                }
            }
            e += 1;
        }
        proof {
            assert(self@.ends.take(m as int) =~= self@.ends);
        }
        lists
    }

    /// Searches breadth-first from `s` through what `flow` leaves free, until
    /// `t` is reached or nothing more can be.
    pub(crate) fn search(&self, incoming: &Vec<Vec<usize>>, flow: &Vec<i32>, s: usize, t: usize) -> (found:
        Search)
        requires
            self.wf(),
            s < self@.nodes.len(),
            t < self@.nodes.len(),
            incoming@.len() == self@.nodes.len(),
            forall|v: int|
                0 <= v < incoming@.len() ==> positions((#[trigger] incoming@[v])@) == in_list(
                    self@.ends,
                    v,
                ),
            flow@.len() == self@.edges.len(),
        ensures
            found.inv(self@, amounts(flow@), s as int),
            found.reached@[t as int] || forall|u: int|
                0 <= u < self@.nodes.len() && #[trigger] found.reached@[u] ==> node_closed(
                    self@,
                    amounts(flow@),
                    found.reached@,
                    u,
                ),
    {
        let n = self.node_count();
        let ghost g = self@;
        let ghost f = amounts(flow@);
        let mut found = Search {
            reached: vec![false; n],
            via_edge: vec![0usize; n],
            via_forward: vec![false; n],
            order: Vec::new(),
            place: Ghost(Seq::new(n as nat, |v: int| 0int)),
        };
        found.reached[s] = true;
        found.order.push(s);
        let mut head: usize = 0;
        proof {
            reveal(Search::inv);
            assert(found.inv(g, f, s as int));
        }
        while head < found.order.len() && !found.reached[t]
            invariant
                found.reached@.len() == n,
                self.wf(),
                g == self@,
                f == amounts(flow@),
                n == g.nodes.len(),
                s < n,
                t < n,
                incoming@.len() == n,
                forall|v: int|
                    0 <= v < incoming@.len() ==> positions((#[trigger] incoming@[v])@) == in_list(
                        g.ends,
                        v,
                    ),
                flow@.len() == g.edges.len(),
                found.inv(g, f, s as int),
                head <= found.order@.len(),
                forall|i: int|
                    0 <= i < head ==> node_closed(
                        g,
                        f,
                        found.reached@,
                        #[trigger] found.order@[i] as int,
                    ),
            decreases unmarked(found.reached@) + found.order@.len() - head,
        {
            proof {
                found.lemma_ordered(g, f, s as int, head as int);
            }
            let u = found.order[head];
            let ghost before = found;
            found.scan_out(self, flow, Ghost(s as int), u);
            let ghost between = found;
            found.scan_in(self, &incoming[u], flow, Ghost(s as int), u);
            proof {
                before.lemma_sized(g, f, s as int);
                between.lemma_sized(g, f, s as int);
                lemma_out_scanned_grows(g, f, between.reached@, found.reached@, u as int);
                lemma_node_closed(g, f, found.reached@, u as int);
                assert forall|i: int| 0 <= i < head + 1 implies node_closed(
                    g,
                    f,
                    found.reached@,
                    #[trigger] found.order@[i] as int,
                ) by {
                    assert(found.order@[i] == before.order@[i]);
                    if i < head {
                        lemma_node_closed_grows(
                            g,
                            f,
                            before.reached@,
                            found.reached@,
                            before.order@[i] as int,
                        );
                    }
                }
            }
            head += 1;
        }
        proof {
            if !found.reached@[t as int] {
                assert forall|u: int| 0 <= u < n && #[trigger] found.reached@[u] implies node_closed(
                    g,
                    f,
                    found.reached@,
                    u,
                ) by {
                    found.lemma_placed(g, f, s as int, u);
                }
            }
        }
        found
    }
}

} // verus!

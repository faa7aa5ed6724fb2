//! The depth-first walk.

use crate::graph::Graph;
use crate::graph::GraphView;
use crate::handle::EdgeRef;
use crate::handle::NodeRef;
use crate::traverse::edge_visits;
use crate::traverse::edges_served;
use crate::traverse::lemma_edge_served;
use crate::traverse::lemma_mark_one;
use crate::traverse::lemma_node_served;
use crate::traverse::lemma_visits_push;
use crate::traverse::no_marks;
use crate::traverse::node_visits;
use crate::traverse::nodes_served;
use crate::traverse::unmarked;
use crate::traverse::Run;
use crate::traverse::Visit;
use vstd::prelude::*;

verus! {

impl<N, E> GraphView<N, E> {
    /// The depth-first walk that enters `u` with `marks` already set. A
    /// marked node is left at once. An unmarked one is marked and visited,
    /// and then its adjacency list is followed from the start.
    pub open spec fn dfs_from(self, marks: Seq<bool>, u: int) -> Run
        decreases unmarked(marks), 0int,
    {
        if 0 <= u < marks.len() && !marks[u] {
            proof {
                lemma_mark_one(marks, u);
            }
            let below = self.dfs_along(marks.update(u, true), u, 0);
            Run { trace: seq![Visit::Node(u)] + below.trace, marks: below.marks }
        } else {
            Run { trace: Seq::empty(), marks }
        }
    }

    /// The depth-first walk along the adjacency list of `u`, from entry `j`
    /// on: the edge of the entry is visited, its neighbour is entered, and
    /// the walk goes on with the next entry. (The test on the number of
    /// unmarked nodes never fails, as `lemma_dfs_along` states: it is there
    /// to show that the walk ends.)
    pub open spec fn dfs_along(self, marks: Seq<bool>, u: int, j: int) -> Run
        decreases unmarked(marks), 1 + self.adjacency[u].len() - j,
    {
        if 0 <= u < self.adjacency.len() && 0 <= j < self.adjacency[u].len() {
            let entry = self.adjacency[u][j];
            let inner = self.dfs_from(marks, entry.0);
            if unmarked(inner.marks) <= unmarked(marks) {
                let rest = self.dfs_along(inner.marks, u, j + 1);
                Run {
                    trace: seq![Visit::Edge(entry.1)] + inner.trace + rest.trace,
                    marks: rest.marks,
                }
            } else {
                Run { trace: Seq::empty(), marks }
            }
        } else {
            Run { trace: Seq::empty(), marks }
        }
    }

    /// The visitor calls of the depth-first walk from `begin`, in order.
    pub open spec fn dfs_trace(self, begin: int) -> Seq<Visit> {
        self.dfs_from(no_marks(self.nodes.len()), begin).trace
    }
}

/// A depth-first walk unmarks nothing.
pub proof fn lemma_dfs_marks<N, E>(g: GraphView<N, E>, marks: Seq<bool>, u: int, j: int, along: bool)
    ensures
        ({
            let run = if along {
                g.dfs_along(marks, u, j)
            } else {
                g.dfs_from(marks, u)
            };
            &&& run.marks.len() == marks.len()
            &&& unmarked(run.marks) <= unmarked(marks)
            &&& forall|v: int| 0 <= v < marks.len() && marks[v] ==> run.marks[v]
        }),
    decreases unmarked(marks), (if along { 1 + g.adjacency[u].len() - j } else { 0 }),
{
    if along {
        if 0 <= u < g.adjacency.len() && 0 <= j < g.adjacency[u].len() {
            let entry = g.adjacency[u][j];
            lemma_dfs_marks(g, marks, entry.0, 0, false);
            let inner = g.dfs_from(marks, entry.0);
            lemma_dfs_marks(g, inner.marks, u, j + 1, true);
            let rest = g.dfs_along(inner.marks, u, j + 1);
            assert(g.dfs_along(marks, u, j).marks == rest.marks);
            assert forall|v: int| 0 <= v < marks.len() && marks[v] implies rest.marks[v] by {
                assert(inner.marks[v]);
            }
        }
    } else {
        if 0 <= u < marks.len() && !marks[u] {
            lemma_mark_one(marks, u);
            let first = marks.update(u, true);
            lemma_dfs_marks(g, first, u, 0, true);
            let below = g.dfs_along(first, u, 0);
            assert(g.dfs_from(marks, u).marks == below.marks);
            assert forall|v: int| 0 <= v < marks.len() && marks[v] implies below.marks[v] by {
                assert(first[v]);
            }
        }
    }
}

/// The walk along an adjacency list, entry by entry.
pub proof fn lemma_dfs_along<N, E>(g: GraphView<N, E>, marks: Seq<bool>, u: int, j: int)
    requires
        0 <= u < g.adjacency.len(),
        0 <= j < g.adjacency[u].len(),
    ensures
        ({
            let entry = g.adjacency[u][j];
            let inner = g.dfs_from(marks, entry.0);
            let rest = g.dfs_along(inner.marks, u, j + 1);
            g.dfs_along(marks, u, j) == (Run {
                trace: seq![Visit::Edge(entry.1)] + inner.trace + rest.trace,
                marks: rest.marks,
            })
        }),
{
    lemma_dfs_marks(g, marks, g.adjacency[u][j].0, 0, false);
}

/// The frames of a stack as pairs of a node and a place in its adjacency
/// list.
spec fn frames(stack: Seq<(usize, usize)>) -> Seq<(int, int)> {
    Seq::new(stack.len(), |i: int| (stack[i].0 as int, stack[i].1 as int))
}

/// What is left of a walk whose pending adjacency lists are `stack`, the
/// innermost last.
spec fn resume<N, E>(g: GraphView<N, E>, marks: Seq<bool>, stack: Seq<(int, int)>) -> Run
    decreases stack.len(),
{
    if stack.len() == 0 {
        Run { trace: Seq::empty(), marks }
    } else {
        let first = g.dfs_along(marks, stack.last().0, stack.last().1);
        let rest = resume(g, first.marks, stack.drop_last());
        Run { trace: first.trace + rest.trace, marks: rest.marks }
    }
}

impl<N, E> Graph<N, E> {
    /// Most general DFS implementation: walks depth-first from `begin` and
    /// calls `node_visitor` for each node when it is first entered and
    /// `edge_visitor` for each edge that leaves an entered node. The result
    /// is the record of those calls, in order.
    pub fn visit_dfs(
        &self,
        begin: NodeRef,
        mut node_visitor: impl FnMut(NodeRef, &N),
        mut edge_visitor: impl FnMut(EdgeRef, &E),
    ) -> (log: Ghost<Seq<Visit>>)
        requires
            self.wf(),
            self.has_node(begin),
            forall|r: NodeRef| #[trigger]
                self.has_node(r) && self@.reachable(begin@, r@) ==> call_requires(
                    node_visitor,
                    (r, &self@.nodes[r@]),
                ),
            forall|r: EdgeRef| #[trigger]
                self.has_edge(r) && self@.reachable(begin@, self@.source(r@)) ==> call_requires(
                    edge_visitor,
                    (r, &self@.edges[r@]),
                ),
        ensures
            log@ == self@.dfs_trace(begin@),
            nodes_served(self@, node_visitor, node_visits(log@)),
            edges_served(self@, edge_visitor, edge_visits(log@)),
    {
        let ghost on_node = node_visitor;
        let ghost on_edge = edge_visitor;
        let n = self.node_count();
        let mut visited: Vec<bool> = vec![false; n];
        assert(visited@ =~= no_marks(n as nat));
        let first = begin.position();
        proof {
            assert(self@.walk_of(begin@, begin@, 0));
        }
        node_visitor(begin, &self[begin]);
        visited[first] = true;
        let mut stack: Vec<(usize, usize)> = Vec::new();
        stack.push((first, 0));
        let ghost mut log = seq![Visit::Node(begin@)];
        proof {
            lemma_visits_push(Seq::empty(), Visit::Node(begin@));
            assert(Seq::<Visit>::empty().push(Visit::Node(begin@)) =~= log);
            lemma_node_served(self@, on_node, Seq::empty(), begin);
            let marks = no_marks(n as nat).update(begin@, true);
            assert(visited@ =~= marks);
            assert(frames(stack@) =~= seq![(begin@, 0int)]);
            assert(frames(stack@).drop_last() =~= Seq::empty());
            let below = self@.dfs_along(marks, begin@, 0);
            assert(resume(self@, below.marks, Seq::empty()).trace =~= Seq::empty());
            assert(resume(self@, marks, frames(stack@)).trace =~= below.trace);
        }
        while stack.len() > 0
            invariant
                self.wf(),
                n == self@.nodes.len(),
                visited@.len() == n,
                forall|i: int|
                    0 <= i < stack@.len() ==> (#[trigger] stack@[i]).0 < n && stack@[i].1
                        <= self@.adjacency[stack@[i].0 as int].len() && self@.reachable(
                        begin@,
                        stack@[i].0 as int,
                    ),
                log + resume(self@, visited@, frames(stack@)).trace == self@.dfs_trace(begin@),
                node_visitor == on_node,
                edge_visitor == on_edge,
                nodes_served(self@, on_node, node_visits(log)),
                edges_served(self@, on_edge, edge_visits(log)),
                forall|r: NodeRef| #[trigger]
                    self.has_node(r) && self@.reachable(begin@, r@) ==> call_requires(
                        node_visitor,
                        (r, &self@.nodes[r@]),
                    ),
                forall|r: EdgeRef| #[trigger]
                    self.has_edge(r) && self@.reachable(begin@, self@.source(r@)) ==> call_requires(
                        edge_visitor,
                        (r, &self@.edges[r@]),
                    ),
            decreases resume(self@, visited@, frames(stack@)).trace.len() + stack@.len(),
        {
            let top = stack.len() - 1;
            let (u, j) = stack[top];
            let ghost marks = visited@;
            let ghost pending = frames(stack@);
            let ghost outer = pending.drop_last();
            let ghost done = log;
            proof {
                assert(pending.last() == (u as int, j as int));
            }
            if j < self.out_degree(u) {
                let (v, e) = self.out_entry(u, j);
                proof {
                    crate::graph::lemma_listed_is_edge(self@, u as int, j as int);
                    lemma_dfs_along(self@, marks, u as int, j as int);
                    self@.lemma_reach_on(begin@, e@);
                    assert(self.has_edge(e));
                    assert(self.has_node(v));
                }
                edge_visitor(e, &self[e]);
                stack[top] = (u, j + 1);
                let w = v.position();
                proof {
                    lemma_visits_push(log, Visit::Edge(e@));
                    lemma_edge_served(self@, on_edge, edge_visits(log), e);
                    log = log.push(Visit::Edge(e@));
                    assert(frames(stack@) =~= outer.push((u as int, j + 1)));
                    assert(frames(stack@).drop_last() =~= outer);
                }
                if !visited[w] {
                    node_visitor(v, &self[v]);
                    visited[w] = true;
                    stack.push((w, 0));
                    proof {
                        lemma_visits_push(log, Visit::Node(v@));
                        lemma_node_served(self@, on_node, node_visits(log), v);
                        log = log.push(Visit::Node(v@));
                        let inner = self@.dfs_from(marks, v@);
                        let below = self@.dfs_along(visited@, v@, 0);
                        let rest = self@.dfs_along(inner.marks, u as int, j + 1);
                        let tail = resume(self@, rest.marks, outer);
                        assert(visited@ == marks.update(v@, true));
                        assert(inner.marks == below.marks);
                        assert(frames(stack@) =~= outer.push((u as int, j + 1)).push((v@, 0int)));
                        assert(frames(stack@).drop_last() =~= outer.push((u as int, j + 1)));
                        assert(frames(stack@).drop_last().drop_last() =~= outer);
                        let upper = outer.push((u as int, j + 1));
                        assert(upper.drop_last() =~= outer);
                        assert(resume(self@, below.marks, upper).trace =~= rest.trace
                            + tail.trace);
                        assert(resume(self@, visited@, frames(stack@)).trace =~= below.trace + (
                        rest.trace + tail.trace));
                        assert(resume(self@, marks, pending).trace =~= seq![Visit::Edge(e@)] + (
                        seq![Visit::Node(v@)] + below.trace) + rest.trace + tail.trace);
                        assert(log + resume(self@, visited@, frames(stack@)).trace =~= done
                            + resume(self@, marks, pending).trace);
                    }
                } else {
                    proof {
                        let rest = self@.dfs_along(marks, u as int, j + 1);
                        let tail = resume(self@, rest.marks, outer);
                        assert(self@.dfs_from(marks, v@).trace =~= Seq::empty());
                        assert(resume(self@, marks, pending).trace =~= seq![Visit::Edge(e@)]
                            + rest.trace + tail.trace);
                        assert(resume(self@, visited@, frames(stack@)).trace =~= rest.trace
                            + tail.trace);
                    }
                }
            } else {
                stack.pop();
                proof {
                    assert(frames(stack@) =~= outer);
                    assert(self@.dfs_along(marks, u as int, j as int).trace =~= Seq::empty());
                    assert(resume(self@, marks, pending).trace =~= resume(
                        self@,
                        marks,
                        outer,
                    ).trace);
                }
            }
        }
        proof {
            assert(resume(self@, visited@, frames(stack@)).trace =~= Seq::empty());
            assert(log =~= log + Seq::<Visit>::empty());
        }
        Ghost(log)
    }

    /// DFS to visit nodes: calls `node_visitor` for each node that the
    /// depth-first walk from `begin` enters. The result is the record of
    /// those calls, in order.
    pub fn visit_dfs_nodes(&self, begin: NodeRef, node_visitor: impl FnMut(NodeRef, &N)) -> (log:
        Ghost<Seq<int>>)
        requires
            self.wf(),
            self.has_node(begin),
            forall|r: NodeRef| #[trigger]
                self.has_node(r) && self@.reachable(begin@, r@) ==> call_requires(
                    node_visitor,
                    (r, &self@.nodes[r@]),
                ),
        ensures
            log@ == node_visits(self@.dfs_trace(begin@)),
            log@.no_duplicates(),
            forall|v: int| #[trigger] log@.contains(v) <==> self@.reachable(begin@, v),
            nodes_served(self@, node_visitor, log@),
    {
        let trace = self.visit_dfs(begin, node_visitor, |_r: EdgeRef, _e: &E| {});
        proof {
            self@.lemma_dfs_visits(begin@);
        }
        Ghost(node_visits(trace@))
    }

    /// DFS to visit edges: calls `edge_visitor` for each edge that leaves a
    /// node which the depth-first walk from `begin` enters. The result is
    /// the record of those calls, in order.
    pub fn visit_dfs_edges(&self, begin: NodeRef, edge_visitor: impl FnMut(EdgeRef, &E)) -> (log:
        Ghost<Seq<int>>)
        requires
            self.wf(),
            self.has_node(begin),
            forall|r: EdgeRef| #[trigger]
                self.has_edge(r) && self@.reachable(begin@, self@.source(r@)) ==> call_requires(
                    edge_visitor,
                    (r, &self@.edges[r@]),
                ),
        ensures
            log@ == edge_visits(self@.dfs_trace(begin@)),
            log@.no_duplicates(),
            forall|e: int| #[trigger]
                log@.contains(e) <==> self@.has_edge(e) && self@.reachable(
                    begin@,
                    self@.source(e),
                ),
            edges_served(self@, edge_visitor, log@),
    {
        let trace = self.visit_dfs(begin, |_r: NodeRef, _n: &N| {}, edge_visitor);
        proof {
            self@.lemma_dfs_visits_edges(begin@);
        }
        Ghost(edge_visits(trace@))
    }
}

} // verus!

//! The breadth-first walk.

use crate::graph::Graph;
use crate::graph::GraphView;
use crate::handle::EdgeRef;
use crate::handle::NodeRef;
use crate::traverse::edge_visits;
use crate::traverse::edges_served;
use crate::traverse::lemma_edge_served;
use crate::traverse::lemma_mark_one;
use crate::traverse::lemma_node_served;
use crate::traverse::lemma_visits_push;
use crate::traverse::no_marks;
use crate::traverse::node_visits;
use crate::traverse::nodes_served;
use crate::traverse::unmarked;
use crate::traverse::Run;
use crate::traverse::Visit;
use std::collections::VecDeque;
use vstd::prelude::*;

verus! {

/// The neighbours that an adjacency list names, in its order.
pub open spec fn neighbours(list: Seq<(int, int)>) -> Seq<int> {
    Seq::new(list.len(), |i: int| list[i].0)
}

/// One visit for each edge that an adjacency list names, in its order.
pub open spec fn edge_calls(list: Seq<(int, int)>) -> Seq<Visit> {
    Seq::new(list.len(), |i: int| Visit::Edge(list[i].1))
}

impl<N, E> GraphView<N, E> {
    /// The breadth-first walk that goes on with `marks` set and `queue`
    /// waiting. The node at the front is taken off. If it is marked it is
    /// dropped. Otherwise it is marked and visited, each edge of its
    /// adjacency list is visited in order, and all its neighbours join the
    /// back of the queue, marked or not.
    pub open spec fn bfs_run(self, marks: Seq<bool>, queue: Seq<int>) -> Run
        decreases unmarked(marks), queue.len(),
    {
        if queue.len() == 0 {
            Run { trace: Seq::empty(), marks }
        } else {
            let u = queue.first();
            if 0 <= u < marks.len() && !marks[u] {
                proof {
                    lemma_mark_one(marks, u);
                }
                let rest = self.bfs_run(
                    marks.update(u, true),
                    queue.drop_first() + neighbours(self.adjacency[u]),
                );
                Run {
                    trace: seq![Visit::Node(u)] + edge_calls(self.adjacency[u]) + rest.trace,
                    marks: rest.marks,
                }
            } else {
                self.bfs_run(marks, queue.drop_first())
            }
        }
    }

    /// The visitor calls of the breadth-first walk from `begin`, in order.
    pub open spec fn bfs_trace(self, begin: int) -> Seq<Visit> {
        self.bfs_run(no_marks(self.nodes.len()), seq![begin]).trace
    }
}

/// The nodes that wait in a queue, as positions.
spec fn waiting(queue: Seq<usize>) -> Seq<int> {
    Seq::new(queue.len(), |i: int| queue[i] as int)
}

impl<N, E> Graph<N, E> {
    /// Most general BFS implementation: walks breadth-first from `begin` and
    /// calls `node_visitor` for each node when it first comes off the queue
    /// and `edge_visitor` for each edge that leaves it. The result is the
    /// record of those calls, in order.
    pub fn visit_bfs(
        &self,
        begin: NodeRef,
        mut node_visitor: impl FnMut(NodeRef, &N),
        mut edge_visitor: impl FnMut(EdgeRef, &E),
    ) -> (log: Ghost<Seq<Visit>>)
        requires
            self.wf(),
            self.has_node(begin),
            forall|r: NodeRef| #[trigger]
                self.has_node(r) && self@.reachable(begin@, r@) ==> call_requires(
                    node_visitor,
                    (r, &self@.nodes[r@]),
                ),
            forall|r: EdgeRef| #[trigger]
                self.has_edge(r) && self@.reachable(begin@, self@.source(r@)) ==> call_requires(
                    edge_visitor,
                    (r, &self@.edges[r@]),
                ),
        ensures
            log@ == self@.bfs_trace(begin@),
            nodes_served(self@, node_visitor, node_visits(log@)),
            edges_served(self@, edge_visitor, edge_visits(log@)),
    {
        let ghost on_node = node_visitor;
        let ghost on_edge = edge_visitor;
        let n = self.node_count();
        let mut visited: Vec<bool> = vec![false; n];
        let mut queue: VecDeque<usize> = VecDeque::new();
        queue.push_back(begin.position());
        let ghost mut log = Seq::<Visit>::empty();
        proof {
            assert(visited@ =~= no_marks(n as nat));
            assert(waiting(queue@) =~= seq![begin@]);
            assert(self@.walk_of(begin@, begin@, 0));
            assert(log + self@.bfs_trace(begin@) =~= self@.bfs_trace(begin@));
            assert(node_visits(log) =~= Seq::empty());
            assert(edge_visits(log) =~= Seq::empty());
        }
        while queue.len() > 0
            invariant
                self.wf(),
                n == self@.nodes.len(),
                visited@.len() == n,
                forall|i: int|
                    0 <= i < queue@.len() ==> #[trigger] queue@[i] < n && self@.reachable(
                        begin@,
                        queue@[i] as int,
                    ),
                log + self@.bfs_run(visited@, waiting(queue@)).trace == self@.bfs_trace(begin@),
                node_visitor == on_node,
                edge_visitor == on_edge,
                nodes_served(self@, on_node, node_visits(log)),
                edges_served(self@, on_edge, edge_visits(log)),
                forall|r: NodeRef| #[trigger]
                    self.has_node(r) && self@.reachable(begin@, r@) ==> call_requires(
                        node_visitor,
                        (r, &self@.nodes[r@]),
                    ),
                forall|r: EdgeRef| #[trigger]
                    self.has_edge(r) && self@.reachable(begin@, self@.source(r@)) ==> call_requires(
                        edge_visitor,
                        (r, &self@.edges[r@]),
                    ),
            decreases unmarked(visited@), queue@.len(),
        {
            let ghost marks = visited@;
            let ghost before = waiting(queue@);
            let ghost done = log;
            let u = queue.pop_front().unwrap();
            proof {
                assert(waiting(queue@) =~= before.drop_first());
                assert(before.first() == u);
            }
            if !visited[u] {
                let r = NodeRef::at(u);
                assert(self.has_node(r));
                node_visitor(r, &self[r]);
                visited[u] = true;
                let ghost list = self@.adjacency[u as int];
                let ghost behind = before.drop_first();
                proof {
                    lemma_mark_one(marks, u as int);
                    lemma_visits_push(log, Visit::Node(r@));
                    lemma_node_served(self@, on_node, node_visits(log), r);
                    log = log.push(Visit::Node(u as int));
                    assert(log + edge_calls(list.take(0)) =~= done + seq![Visit::Node(u as int)]);
                    assert(behind + neighbours(list.take(0)) =~= behind);
                }
                let degree = self.out_degree(u);
                let mut j: usize = 0;
                while j < degree
                    invariant
                        self.wf(),
                        n == self@.nodes.len(),
                        u < n,
                        list == self@.adjacency[u as int],
                        degree == list.len(),
                        j <= degree,
                        forall|i: int|
                            0 <= i < queue@.len() ==> #[trigger] queue@[i] < n && self@.reachable(
                                begin@,
                                queue@[i] as int,
                            ),
                        waiting(queue@) == behind + neighbours(list.take(j as int)),
                        log == done + seq![Visit::Node(u as int)] + edge_calls(
                            list.take(j as int),
                        ),
                        edge_visitor == on_edge,
                        nodes_served(self@, on_node, node_visits(log)),
                        edges_served(self@, on_edge, edge_visits(log)),
                        self@.reachable(begin@, u as int),
                        forall|r: EdgeRef| #[trigger]
                            self.has_edge(r) && self@.reachable(begin@, self@.source(r@))
                                ==> call_requires(edge_visitor, (r, &self@.edges[r@])),
                    decreases degree - j,
                {
                    let (v, e) = self.out_entry(u, j);
                    proof {
                        crate::graph::lemma_listed_is_edge(self@, u as int, j as int);
                        self@.lemma_reach_on(begin@, e@);
                        assert(self.has_edge(e));
                    }
                    edge_visitor(e, &self[e]);
                    let ghost shorter = queue@;
                    queue.push_back(v.position());
                    proof {
                        assert(waiting(queue@) =~= waiting(shorter).push(v@));
                        lemma_visits_push(log, Visit::Edge(e@));
                        lemma_edge_served(self@, on_edge, edge_visits(log), e);
                        log = log.push(Visit::Edge(e@));
                        assert(list.take(j + 1) =~= list.take(j as int).push(list[j as int]));
                        assert(neighbours(list.take(j + 1)) =~= neighbours(
                            list.take(j as int),
                        ).push(v@));
                        assert(edge_calls(list.take(j + 1)) =~= edge_calls(
                            list.take(j as int),
                        ).push(Visit::Edge(e@)));
                        assert(waiting(queue@) =~= behind + neighbours(list.take(j + 1)));
                        assert(log =~= done + seq![Visit::Node(u as int)] + edge_calls(
                            list.take(j + 1),
                        ));
                    }
                    j += 1;
                }
                proof {
                    assert(list.take(degree as int) =~= list);
                    let rest = self@.bfs_run(visited@, waiting(queue@));
                    assert(self@.bfs_run(marks, before).trace == seq![Visit::Node(u as int)]
                        + edge_calls(list) + rest.trace);
                    assert(log + rest.trace =~= done + self@.bfs_run(marks, before).trace);
                }
            }
        }
        proof {
            assert(log + Seq::<Visit>::empty() =~= log);
        }
        Ghost(log)
    }

    /// Visit all the nodes in BFS order: calls `node_visitor` for each node
    /// that the breadth-first walk from `begin` takes off its queue
    /// unmarked. The result is the record of those calls, in order.
    pub fn visit_bfs_nodes(&self, begin: NodeRef, node_visitor: impl FnMut(NodeRef, &N)) -> (log:
        Ghost<Seq<int>>)
        requires
            self.wf(),
            self.has_node(begin),
            forall|r: NodeRef| #[trigger]
                self.has_node(r) && self@.reachable(begin@, r@) ==> call_requires(
                    node_visitor,
                    (r, &self@.nodes[r@]),
                ),
        ensures
            log@ == node_visits(self@.bfs_trace(begin@)),
            log@.no_duplicates(),
            forall|v: int| #[trigger] log@.contains(v) <==> self@.reachable(begin@, v),
            forall|i: int, j: int|
                0 <= i < j < log@.len() ==> self@.distance(begin@, #[trigger] log@[i])
                    <= self@.distance(begin@, #[trigger] log@[j]),
            nodes_served(self@, node_visitor, log@),
    {
        let trace = self.visit_bfs(begin, node_visitor, |_r: EdgeRef, _e: &E| {});
        proof {
            self@.lemma_bfs_visits(begin@);
            self@.lemma_bfs_ascending(begin@);
        }
        Ghost(node_visits(trace@))
    }

    /// Visit all the edges in BFS order: calls `edge_visitor` for each edge
    /// that leaves a node which the breadth-first walk from `begin` visits.
    /// The result is the record of those calls, in order.
    pub fn visit_bfs_edges(&self, begin: NodeRef, edge_visitor: impl FnMut(EdgeRef, &E)) -> (log:
        Ghost<Seq<int>>)
        requires
            self.wf(),
            self.has_node(begin),
            forall|r: EdgeRef| #[trigger]
                self.has_edge(r) && self@.reachable(begin@, self@.source(r@)) ==> call_requires(
                    edge_visitor,
                    (r, &self@.edges[r@]),
                ),
        ensures
            log@ == edge_visits(self@.bfs_trace(begin@)),
            log@.no_duplicates(),
            forall|e: int| #[trigger]
                log@.contains(e) <==> self@.has_edge(e) && self@.reachable(
                    begin@,
                    self@.source(e),
                ),
            edges_served(self@, edge_visitor, log@),
    {
        let trace = self.visit_bfs(begin, |_r: NodeRef, _n: &N| {}, edge_visitor);
        proof {
            self@.lemma_bfs_visits_edges(begin@);
        }
        Ghost(edge_visits(trace@))
    }
}

} // verus!

//! What the breadth-first walk visits: each node that can be reached, once,
//! the nearer before the farther, and each edge that leaves such a node,
//! once.

use crate::bfs::edge_calls;
use crate::bfs::neighbours;
use crate::graph::lemma_list_edges;
use crate::graph::lemma_listed_is_edge;
use crate::graph::lemma_out_list_has;
use crate::graph::list_edges;
use crate::graph::out_list;
use crate::graph::GraphView;
use crate::traverse::edge_visits;
use crate::traverse::fresh;
use crate::traverse::lemma_concat_contains;
use crate::traverse::lemma_concat_distinct;
use crate::traverse::lemma_mark_one;
use crate::traverse::lemma_visits_concat;
use crate::traverse::lemma_visits_one;
use crate::traverse::no_marks;
use crate::traverse::node_visits;
use crate::traverse::unmarked;
use crate::traverse::Run;
use crate::traverse::Visit;
use vstd::prelude::*;

verus! {

/// The visits along an adjacency list are edge visits, one for each entry.
pub proof fn lemma_edge_calls(list: Seq<(int, int)>)
    ensures
        node_visits(edge_calls(list)) == Seq::<int>::empty(),
        edge_visits(edge_calls(list)) == Seq::new(list.len(), |i: int| list[i].1),
    decreases list.len(),
{
    let calls = edge_calls(list);
    if list.len() == 0 {
        assert(edge_visits(calls) =~= Seq::new(list.len(), |i: int| list[i].1));
    } else {
        lemma_edge_calls(list.drop_last());
        assert(calls.drop_last() =~= edge_calls(list.drop_last()));
        assert(calls.last() == Visit::Edge(list.last().1));
        assert(edge_visits(calls) =~= Seq::new(list.len(), |i: int| list[i].1));
    }
}

/// What every part of a breadth-first walk keeps to, where `root` reaches
/// every node that waits: it unmarks nothing; it visits just the nodes that
/// it marks, each once; it leaves no neighbour of such a node unmarked, nor
/// any node that waited; and `root` reaches each node that it marks.
pub open spec fn bfs_sound<N, E>(
    g: GraphView<N, E>,
    root: int,
    marks: Seq<bool>,
    queue: Seq<int>,
    run: Run,
) -> bool {
    &&& run.marks.len() == marks.len()
    &&& forall|v: int| 0 <= v < marks.len() && marks[v] ==> run.marks[v]
    &&& node_visits(run.trace).no_duplicates()
    &&& forall|v: int| node_visits(run.trace).contains(v) <==> #[trigger] fresh(marks, run.marks, v)
    &&& forall|w: int| #[trigger] fresh(marks, run.marks, w) ==> g.settled(run.marks, w)
    &&& forall|w: int| #[trigger] fresh(marks, run.marks, w) ==> g.reachable(root, w)
    &&& forall|i: int| 0 <= i < queue.len() ==> run.marks[#[trigger] queue[i]]
}

/// Every part of a breadth-first walk is sound.
pub proof fn lemma_bfs_run<N, E>(g: GraphView<N, E>, root: int, marks: Seq<bool>, queue: Seq<int>)
    requires
        g.wf(),
        marks.len() == g.nodes.len(),
        forall|i: int|
            0 <= i < queue.len() ==> g.has_node(#[trigger] queue[i]) && g.reachable(root, queue[i]),
    ensures
        bfs_sound(g, root, marks, queue, g.bfs_run(marks, queue)),
    decreases unmarked(marks), queue.len(),
{
    let run = g.bfs_run(marks, queue);
    if queue.len() == 0 {
        assert(node_visits(run.trace) =~= Seq::empty());
    } else {
        let u = queue.first();
        let behind = queue.drop_first();
        assert(g.has_node(queue[0]) && g.reachable(root, queue[0]));
        assert forall|i: int| 0 <= i < behind.len() implies g.has_node(#[trigger] behind[i])
            && g.reachable(root, behind[i]) by {
            assert(behind[i] == queue[i + 1]);
        }
        if !marks[u] {
            lemma_mark_one(marks, u);
            let first = marks.update(u, true);
            let list = g.adjacency[u];
            let next = behind + neighbours(list);
            assert forall|i: int| 0 <= i < next.len() implies g.has_node(#[trigger] next[i])
                && g.reachable(root, next[i]) by {
                if i >= behind.len() {
                    let j = i - behind.len();
                    assert(next[i] == list[j].0);
                    lemma_listed_is_edge(g, u, j);
                    g.lemma_reach_on(root, list[j].1);
                }
            }
            lemma_bfs_run(g, root, first, next);
            let rest = g.bfs_run(first, next);
            let node = seq![Visit::Node(u)];
            assert(run.trace == node + edge_calls(list) + rest.trace);
            assert(run.marks == rest.marks);
            assert forall|v: int| 0 <= v < marks.len() && marks[v] implies rest.marks[v] by {
                assert(first[v]);
            }
            lemma_visits_one(Visit::Node(u));
            lemma_edge_calls(list);
            lemma_visits_concat(node, edge_calls(list));
            lemma_visits_concat(node + edge_calls(list), rest.trace);
            let head = seq![u];
            let tail = node_visits(rest.trace);
            assert(node_visits(run.trace) =~= head + tail);
            assert forall|a: int, b: int| 0 <= a < head.len() && 0 <= b < tail.len() implies head[a]
                != tail[b] by {
                assert(tail.contains(tail[b]));
                assert(fresh(first, rest.marks, tail[b]));
            }
            vstd::seq_lib::lemma_no_dup_in_concat(head, tail);
            assert(first[u]);
            assert forall|v: int| (head + tail).contains(v) <==> #[trigger] fresh(
                marks,
                rest.marks,
                v,
            ) by {
                if (head + tail).contains(v) {
                    let k = choose|k: int| 0 <= k < (head + tail).len() && (head + tail)[k] == v;
                    if k >= 1 {
                        assert(tail[k - 1] == v);
                        assert(tail.contains(v));
                        assert(fresh(first, rest.marks, v));
                    }
                }
                if fresh(marks, rest.marks, v) {
                    if v == u {
                        assert((head + tail)[0] == v);
                    } else {
                        assert(fresh(first, rest.marks, v));
                        let k = choose|k: int| 0 <= k < tail.len() && tail[k] == v;
                        assert((head + tail)[1 + k] == v);
                    }
                }
            }
            assert forall|w: int| #[trigger] fresh(marks, rest.marks, w) implies g.settled(
                rest.marks,
                w,
            ) && g.reachable(root, w) by {
                if w != u {
                    assert(fresh(first, rest.marks, w));
                } else {
                    assert forall|i: int| 0 <= i < list.len() implies rest.marks[(
                    #[trigger] list[i]).0] by {
                        assert(next[behind.len() + i] == list[i].0);
                    }
                }
            }
            assert forall|i: int| 0 <= i < queue.len() implies rest.marks[#[trigger] queue[i]] by {
                if i > 0 {
                    assert(next[i - 1] == queue[i]);
                }
            }
        } else {
            lemma_bfs_run(g, root, marks, behind);
            let rest = g.bfs_run(marks, behind);
            assert forall|i: int| 0 <= i < queue.len() implies rest.marks[#[trigger] queue[i]] by {
                if i > 0 {
                    assert(behind[i - 1] == queue[i]);
                }
            }
        }
    }
}

impl<N, E> GraphView<N, E> {
    /// The breadth-first walk from `begin` visits each node that `begin`
    /// reaches once, and no other node.
    pub proof fn lemma_bfs_visits(self, begin: int)
        requires
            self.wf(),
            self.has_node(begin),
        ensures
            node_visits(self.bfs_trace(begin)).no_duplicates(),
            forall|v: int| #[trigger]
                node_visits(self.bfs_trace(begin)).contains(v) <==> self.reachable(begin, v),
    {
        let none = no_marks(self.nodes.len());
        let queue = seq![begin];
        let run = self.bfs_run(none, queue);
        assert(self.walk_of(begin, begin, 0));
        lemma_bfs_run(self, begin, none, queue);
        let seen = node_visits(run.trace);
        assert(run.marks[queue[0]]);
        assert forall|v: int| #[trigger] seen.contains(v) <==> self.reachable(begin, v) by {
            if seen.contains(v) {
                assert(fresh(none, run.marks, v));
            }
            if self.reachable(begin, v) {
                let k = choose|k: nat| self.walk_of(begin, v, k);
                assert forall|w: int| 0 <= w < run.marks.len() && #[trigger] run.marks[w] implies self.settled(
                    run.marks,
                    w,
                ) by {
                    assert(fresh(none, run.marks, w));
                }
                self.lemma_closed_marks(run.marks, begin, v, k);
                assert(fresh(none, run.marks, v));
            }
        }
    }
}

/// A breadth-first walk unmarks nothing.
pub proof fn lemma_bfs_marks<N, E>(g: GraphView<N, E>, marks: Seq<bool>, queue: Seq<int>)
    ensures
        g.bfs_run(marks, queue).marks.len() == marks.len(),
        forall|v: int| 0 <= v < marks.len() && marks[v] ==> g.bfs_run(marks, queue).marks[v],
    decreases unmarked(marks), queue.len(),
{
    if queue.len() > 0 {
        let u = queue.first();
        if 0 <= u < marks.len() && !marks[u] {
            lemma_mark_one(marks, u);
            let first = marks.update(u, true);
            let next = queue.drop_first() + neighbours(g.adjacency[u]);
            lemma_bfs_marks(g, first, next);
            let rest = g.bfs_run(first, next);
            assert forall|v: int| 0 <= v < marks.len() && marks[v] implies rest.marks[v] by {
                assert(first[v]);
            }
        } else {
            lemma_bfs_marks(g, marks, queue.drop_first());
        }
    }
}

/// Whether a walk visits just the edges that leave the nodes it marks, each
/// once.
pub open spec fn edges_sound<N, E>(g: GraphView<N, E>, marks: Seq<bool>, run: Run) -> bool {
    &&& edge_visits(run.trace).no_duplicates()
    &&& forall|e: int| #[trigger]
        edge_visits(run.trace).contains(e) <==> g.has_edge(e) && fresh(
            marks,
            run.marks,
            g.source(e),
        )
}

/// Every part of a breadth-first walk visits just the edges that leave the
/// nodes it marks, each once.
pub proof fn lemma_bfs_edges<N, E>(g: GraphView<N, E>, marks: Seq<bool>, queue: Seq<int>)
    requires
        g.wf(),
        marks.len() == g.nodes.len(),
    ensures
        edges_sound(g, marks, g.bfs_run(marks, queue)),
    decreases unmarked(marks), queue.len(),
{
    let run = g.bfs_run(marks, queue);
    if queue.len() == 0 {
        assert(edge_visits(run.trace) =~= Seq::empty());
    } else {
        let u = queue.first();
        if 0 <= u < marks.len() && !marks[u] {
            lemma_mark_one(marks, u);
            let first = marks.update(u, true);
            let list = g.adjacency[u];
            let next = queue.drop_first() + neighbours(list);
            lemma_bfs_edges(g, first, next);
            lemma_bfs_marks(g, first, next);
            let rest = g.bfs_run(first, next);
            let node = seq![Visit::Node(u)];
            assert(run.trace == node + edge_calls(list) + rest.trace);
            assert(run.marks == rest.marks);
            assert(first[u]);
            lemma_visits_one(Visit::Node(u));
            lemma_edge_calls(list);
            lemma_visits_concat(node, edge_calls(list));
            lemma_visits_concat(node + edge_calls(list), rest.trace);
            let here = list_edges(list);
            let later = edge_visits(rest.trace);
            assert(edge_visits(run.trace) =~= here + later);
            lemma_list_edges(g, u);
            assert forall|e: int| here.contains(e) implies !later.contains(e) by {
                if later.contains(e) {
                    assert(fresh(first, rest.marks, g.source(e)));
                }
            }
            lemma_concat_distinct(here, later);
            assert forall|e: int| #[trigger] (here + later).contains(e) <==> g.has_edge(e) && fresh(
                marks,
                rest.marks,
                g.source(e),
            ) by {
                lemma_concat_contains(here, later, e);
                if g.has_edge(e) {
                    assert(g.has_node(g.ends[e].0) && g.has_node(g.ends[e].1));
                }
                assert(later.contains(e) <==> g.has_edge(e) && fresh(
                    first,
                    rest.marks,
                    g.source(e),
                ));
                assert(here.contains(e) <==> g.has_edge(e) && g.source(e) == u);
            }
        } else {
            lemma_bfs_edges(g, marks, queue.drop_first());
        }
    }
}

impl<N, E> GraphView<N, E> {
    /// The breadth-first walk from `begin` visits each edge that leaves a
    /// node which `begin` reaches once, and no other edge.
    pub proof fn lemma_bfs_visits_edges(self, begin: int)
        requires
            self.wf(),
            self.has_node(begin),
        ensures
            edge_visits(self.bfs_trace(begin)).no_duplicates(),
            forall|e: int| #[trigger]
                edge_visits(self.bfs_trace(begin)).contains(e) <==> self.has_edge(e)
                    && self.reachable(begin, self.source(e)),
    {
        let none = no_marks(self.nodes.len());
        let run = self.bfs_run(none, seq![begin]);
        lemma_bfs_edges(self, none, seq![begin]);
        self.lemma_bfs_visits(begin);
        let seen = node_visits(run.trace);
        assert(self.walk_of(begin, begin, 0));
        lemma_bfs_run(self, begin, none, seq![begin]);
        assert forall|e: int| #[trigger] edge_visits(run.trace).contains(e) <==> self.has_edge(e)
            && self.reachable(begin, self.source(e)) by {
            let u = self.source(e);
            if self.has_edge(e) {
                assert(self.has_node(self.ends[e].0) && self.has_node(self.ends[e].1));
                assert(seen.contains(u) <==> self.reachable(begin, u));
                assert(seen.contains(u) <==> fresh(none, run.marks, u));
            }
        }
    }
}

/// Whether `v` waits in `queue` at a place from `lo` up to, but not at, `hi`.
pub open spec fn waits(queue: Seq<int>, lo: int, hi: int, v: int) -> bool {
    exists|i: int| lo <= i < hi && 0 <= i < queue.len() && #[trigger] queue[i] == v
}

/// The state of a breadth-first walk from `a` that is at work on the nodes
/// at distance `k`: the first `split` nodes of the queue are no further than
/// `k` and the others no further than `k + 1`; every nearer node is marked;
/// every unmarked node at distance `k` waits among the first `split`; every
/// unmarked neighbour of a marked node at distance `k` waits behind them; and
/// no marked node is further than `k`.
pub open spec fn layered<N, E>(
    g: GraphView<N, E>,
    a: int,
    marks: Seq<bool>,
    queue: Seq<int>,
    k: nat,
    split: int,
) -> bool {
    &&& 0 <= split <= queue.len()
    &&& forall|i: int|
        0 <= i < queue.len() ==> g.has_node(#[trigger] queue[i]) && g.reachable(a, queue[i])
            && g.distance(a, queue[i]) <= (if i < split {
            k
        } else {
            k + 1
        })
    &&& forall|v: int|
        g.has_node(v) && g.reachable(a, v) && #[trigger] g.distance(a, v) < k ==> marks[v]
    &&& forall|v: int|
        g.has_node(v) && g.reachable(a, v) && #[trigger] g.distance(a, v) == k && !marks[v]
            ==> waits(queue, 0, split, v)
    &&& forall|e: int|
        g.has_edge(e) && marks[#[trigger] g.source(e)] && g.reachable(a, g.source(e))
            && g.distance(a, g.source(e)) == k && !marks[g.target(e)] ==> waits(
            queue,
            split,
            queue.len() as int,
            g.target(e),
        )
    &&& forall|v: int|
        0 <= v < marks.len() && #[trigger] marks[v] ==> g.reachable(a, v) && g.distance(a, v)
            <= k
}

/// Whether `a` reaches every node of `visits`, none nearer than `k`, and no
/// node of `visits` is nearer than one before it.
pub open spec fn ascending<N, E>(g: GraphView<N, E>, a: int, visits: Seq<int>, k: nat) -> bool {
    &&& forall|i: int|
        0 <= i < visits.len() ==> g.reachable(a, #[trigger] visits[i]) && g.distance(
            a,
            visits[i],
        ) >= k
    &&& forall|i: int, j: int|
        0 <= i < j < visits.len() ==> g.distance(a, #[trigger] visits[i]) <= g.distance(
            a,
            #[trigger] visits[j],
        )
}

/// What is left of a layered breadth-first walk visits its nodes from near
/// to far.
pub proof fn lemma_bfs_layers<N, E>(
    g: GraphView<N, E>,
    a: int,
    marks: Seq<bool>,
    queue: Seq<int>,
    k: nat,
    split: int,
)
    requires
        g.wf(),
        marks.len() == g.nodes.len(),
        layered(g, a, marks, queue, k, split),
    ensures
        ascending(g, a, node_visits(g.bfs_run(marks, queue).trace), k),
    decreases unmarked(marks), queue.len(), (if split == 0 { 1int } else { 0int }),
{
    let run = g.bfs_run(marks, queue);
    let len = queue.len() as int;
    if queue.len() == 0 {
        assert(node_visits(run.trace) =~= Seq::empty());
    } else if split == 0 {
        assert forall|v: int|
            g.has_node(v) && g.reachable(a, v) && #[trigger] g.distance(a, v) < k + 1 implies marks[v] by {
            if g.distance(a, v) == k && !marks[v] {
                assert(waits(queue, 0, 0, v));
            }
        }
        assert forall|v: int|
            g.has_node(v) && g.reachable(a, v) && #[trigger] g.distance(a, v) == k + 1
                && !marks[v] implies waits(queue, 0, len, v) by {
            let e = g.lemma_distance_before(a, v, k);
            let u = g.source(e);
            assert(g.has_node(g.ends[e].0) && g.has_node(g.ends[e].1));
            if !marks[u] {
                assert(g.distance(a, u) == k);
                assert(waits(queue, 0, 0, u));
            }
            assert(marks[g.source(e)]);
            assert(waits(queue, 0, len, g.target(e)));
        }
        assert forall|e: int|
            g.has_edge(e) && marks[#[trigger] g.source(e)] && g.reachable(a, g.source(e))
                && g.distance(a, g.source(e)) == k + 1 && !marks[g.target(e)] implies waits(
            queue,
            len,
            len,
            g.target(e),
        ) by {
            assert(g.has_node(g.ends[e].0) && g.has_node(g.ends[e].1));
            assert(marks[g.source(e)]);
        }
        assert(layered(g, a, marks, queue, k + 1, len));
        lemma_bfs_layers(g, a, marks, queue, k + 1, len);
    } else {
        let u = queue.first();
        let behind = queue.drop_first();
        assert(g.has_node(queue[0]) && g.reachable(a, queue[0]) && g.distance(a, queue[0]) <= k);
        if marks[u] {
            assert(layered(g, a, marks, behind, k, split - 1)) by {
                assert forall|i: int| 0 <= i < behind.len() implies g.has_node(
                    #[trigger] behind[i],
                ) && g.reachable(a, behind[i]) && g.distance(a, behind[i]) <= (if i < split - 1 {
                    k
                } else {
                    k + 1
                }) by {
                    assert(behind[i] == queue[i + 1]);
                }
                assert forall|v: int|
                    g.has_node(v) && g.reachable(a, v) && #[trigger] g.distance(a, v) == k
                        && !marks[v] implies waits(behind, 0, split - 1, v) by {
                    assert(waits(queue, 0, split, v));
                    let i = choose|i: int|
                        0 <= i < split && 0 <= i < queue.len() && #[trigger] queue[i] == v;
                    assert(behind[i - 1] == v);
                }
                assert forall|e: int|
                    g.has_edge(e) && marks[#[trigger] g.source(e)] && g.reachable(a, g.source(e))
                        && g.distance(a, g.source(e)) == k && !marks[g.target(e)] implies waits(
                    behind,
                    split - 1,
                    behind.len() as int,
                    g.target(e),
                ) by {
                    assert(waits(queue, split, len, g.target(e)));
                    let i = choose|i: int|
                        split <= i < len && 0 <= i < queue.len() && #[trigger] queue[i]
                            == g.target(e);
                    assert(behind[i - 1] == g.target(e));
                }
            }
            lemma_bfs_layers(g, a, marks, behind, k, split - 1);
        } else {
            lemma_mark_one(marks, u);
            assert(g.distance(a, u) == k);
            let first = marks.update(u, true);
            let list = g.adjacency[u];
            let next = behind + neighbours(list);
            assert(layered(g, a, first, next, k, split - 1)) by {
                assert forall|i: int| 0 <= i < next.len() implies g.has_node(#[trigger] next[i])
                    && g.reachable(a, next[i]) && g.distance(a, next[i]) <= (if i < split - 1 {
                    k
                } else {
                    k + 1
                }) by {
                    if i < behind.len() {
                        assert(next[i] == queue[i + 1]);
                    } else {
                        let j = i - behind.len();
                        assert(next[i] == list[j].0);
                        lemma_listed_is_edge(g, u, j);
                        g.lemma_distance_on(a, list[j].1);
                    }
                }
                assert forall|v: int|
                    g.has_node(v) && g.reachable(a, v) && #[trigger] g.distance(a, v) == k
                        && !first[v] implies waits(next, 0, split - 1, v) by {
                    assert(waits(queue, 0, split, v));
                    let i = choose|i: int|
                        0 <= i < split && 0 <= i < queue.len() && #[trigger] queue[i] == v;
                    assert(next[i - 1] == v);
                }
                assert forall|e: int|
                    g.has_edge(e) && first[#[trigger] g.source(e)] && g.reachable(a, g.source(e))
                        && g.distance(a, g.source(e)) == k && !first[g.target(e)] implies waits(
                    next,
                    split - 1,
                    next.len() as int,
                    g.target(e),
                ) by {
                    assert(g.has_node(g.ends[e].0) && g.has_node(g.ends[e].1));
                    if g.source(e) == u {
                        lemma_out_list_has(g.ends, e);
                        assert(list == out_list(g.ends, u));
                        let j = choose|j: int| 0 <= j < list.len() && list[j] == (g.target(e), e);
                        assert(next[behind.len() + j] == g.target(e));
                    } else {
                        assert(marks[g.source(e)]);
                        assert(waits(queue, split, len, g.target(e)));
                        let i = choose|i: int|
                            split <= i < len && 0 <= i < queue.len() && #[trigger] queue[i]
                                == g.target(e);
                        assert(next[i - 1] == g.target(e));
                    }
                }
                assert forall|v: int| 0 <= v < first.len() && #[trigger] first[v] implies g.reachable(
                    a,
                    v,
                ) && g.distance(a, v) <= k by {
                    if v != u {
                        assert(marks[v]);
                    }
                }
            }
            lemma_bfs_layers(g, a, first, next, k, split - 1);
            let rest = g.bfs_run(first, next);
            let node = seq![Visit::Node(u)];
            assert(run.trace == node + edge_calls(list) + rest.trace);
            lemma_visits_one(Visit::Node(u));
            lemma_edge_calls(list);
            lemma_visits_concat(node, edge_calls(list));
            lemma_visits_concat(node + edge_calls(list), rest.trace);
            let tail = node_visits(rest.trace);
            let visits = node_visits(run.trace);
            assert(visits =~= seq![u] + tail);
            assert forall|i: int| 0 <= i < visits.len() implies g.reachable(a, #[trigger] visits[i])
                && g.distance(a, visits[i]) >= k by {
                if i > 0 {
                    assert(visits[i] == tail[i - 1]);
                }
            }
            assert forall|i: int, j: int| 0 <= i < j < visits.len() implies g.distance(
                a,
                #[trigger] visits[i],
            ) <= g.distance(a, #[trigger] visits[j]) by {
                assert(visits[j] == tail[j - 1]);
                if i > 0 {
                    assert(visits[i] == tail[i - 1]);
                }
            }
        }
    }
}

impl<N, E> GraphView<N, E> {
    /// The breadth-first walk from `begin` visits no node before one that is
    /// nearer to `begin`.
    pub proof fn lemma_bfs_ascending(self, begin: int)
        requires
            self.wf(),
            self.has_node(begin),
        ensures
            forall|i: int, j: int|
                0 <= i < j < node_visits(self.bfs_trace(begin)).len() ==> self.distance(
                    begin,
                    #[trigger] node_visits(self.bfs_trace(begin))[i],
                ) <= self.distance(begin, #[trigger] node_visits(self.bfs_trace(begin))[j]),
    {
        let none = no_marks(self.nodes.len());
        let queue = seq![begin];
        self.lemma_distance_none(begin, begin);
        assert(layered(self, begin, none, queue, 0, 1)) by {
            assert forall|v: int|
                self.has_node(v) && self.reachable(begin, v) && #[trigger] self.distance(begin, v)
                    == 0 && !none[v] implies waits(queue, 0, 1, v) by {
                self.lemma_distance_none(begin, v);
                assert(queue[0] == v);
            }
        }
        lemma_bfs_layers(self, begin, none, queue, 0, 1);
    }
}

} // verus!

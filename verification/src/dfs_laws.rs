//! What the depth-first walk visits: each node that can be reached, once,
//! and each edge that leaves such a node, once.

use crate::dfs::lemma_dfs_along;
use crate::dfs::lemma_dfs_marks;
use crate::graph::lemma_edge_ends;
use crate::graph::lemma_listed_is_edge;
use crate::graph::lemma_out_list_has;
use crate::graph::lemma_out_list_rises;
use crate::graph::out_list;
use crate::graph::GraphView;
use crate::traverse::edge_visits;
use crate::traverse::fresh;
use crate::traverse::lemma_concat_contains;
use crate::traverse::lemma_concat_distinct;
use crate::traverse::lemma_mark_one;
use crate::traverse::lemma_visits_concat;
use crate::traverse::lemma_visits_one;
use crate::traverse::no_marks;
use crate::traverse::node_visits;
use crate::traverse::unmarked;
use crate::traverse::Run;
use crate::traverse::Visit;
use vstd::prelude::*;

verus! {

/// What every part of a depth-first walk keeps to, where it sets out from a
/// node that `root` reaches: it unmarks nothing; it visits just the nodes that
/// it marks, each once; it leaves no neighbour of such a node unmarked; and
/// `root` reaches each of them.
pub open spec fn dfs_sound<N, E>(g: GraphView<N, E>, root: int, marks: Seq<bool>, run: Run) -> bool {
    &&& run.marks.len() == marks.len()
    &&& forall|v: int| 0 <= v < marks.len() && marks[v] ==> run.marks[v]
    &&& node_visits(run.trace).no_duplicates()
    &&& forall|v: int| node_visits(run.trace).contains(v) <==> #[trigger] fresh(marks, run.marks, v)
    &&& forall|w: int| #[trigger] fresh(marks, run.marks, w) ==> g.settled(run.marks, w)
    &&& forall|w: int| #[trigger] fresh(marks, run.marks, w) ==> g.reachable(root, w)
}

/// Every part of a depth-first walk is sound, and marks what it was sent to:
/// the node it enters, or the neighbours from entry `j` on.
pub proof fn lemma_dfs_run<N, E>(
    g: GraphView<N, E>,
    root: int,
    marks: Seq<bool>,
    u: int,
    j: int,
    along: bool,
)
    requires
        g.wf(),
        marks.len() == g.nodes.len(),
        g.has_node(u),
        0 <= j,
        g.reachable(root, u),
    ensures
        ({
            let run = if along {
                g.dfs_along(marks, u, j)
            } else {
                g.dfs_from(marks, u)
            };
            &&& dfs_sound(g, root, marks, run)
            &&& !along ==> run.marks[u]
            &&& along ==> forall|i: int|
                j <= i < g.adjacency[u].len() ==> run.marks[(#[trigger] g.adjacency[u][i]).0]
        }),
    decreases unmarked(marks), (if along { 1 + g.adjacency[u].len() - j } else { 0 }),
{
    lemma_dfs_marks(g, marks, u, j, along);
    if along {
        if j < g.adjacency[u].len() {
            let entry = g.adjacency[u][j];
            lemma_listed_is_edge(g, u, j);
            g.lemma_reach_on(root, entry.1);
            lemma_dfs_marks(g, marks, entry.0, 0, false);
            lemma_dfs_along(g, marks, u, j);
            lemma_dfs_run(g, root, marks, entry.0, 0, false);
            let inner = g.dfs_from(marks, entry.0);
            lemma_dfs_run(g, root, inner.marks, u, j + 1, true);
            let rest = g.dfs_along(inner.marks, u, j + 1);
            let run = g.dfs_along(marks, u, j);
            let edge = seq![Visit::Edge(entry.1)];
            assert(run.trace == edge + inner.trace + rest.trace);
            assert(run.marks == rest.marks);
            lemma_visits_one(Visit::Edge(entry.1));
            lemma_visits_concat(edge, inner.trace);
            lemma_visits_concat(edge + inner.trace, rest.trace);
            let first = node_visits(inner.trace);
            let second = node_visits(rest.trace);
            assert(node_visits(run.trace) =~= first + second);
            assert forall|a: int, b: int| 0 <= a < first.len() && 0 <= b < second.len() implies first[a]
                != second[b] by {
                assert(first.contains(first[a]));
                assert(second.contains(second[b]));
                assert(fresh(marks, inner.marks, first[a]));
                assert(fresh(inner.marks, rest.marks, second[b]));
            }
            vstd::seq_lib::lemma_no_dup_in_concat(first, second);
            assert forall|v: int| (first + second).contains(v) <==> #[trigger] fresh(
                marks,
                rest.marks,
                v,
            ) by {
                if (first + second).contains(v) {
                    let k = choose|k: int| 0 <= k < (first + second).len() && (first + second)[k] == v;
                    if k < first.len() {
                        assert(first[k] == v);
                        assert(first.contains(v));
                        assert(fresh(marks, inner.marks, v));
                    } else {
                        assert(second[k - first.len()] == v);
                        assert(second.contains(v));
                        assert(fresh(inner.marks, rest.marks, v));
                    }
                }
                if fresh(marks, rest.marks, v) {
                    if inner.marks[v] {
                        assert(fresh(marks, inner.marks, v));
                        let k = choose|k: int| 0 <= k < first.len() && first[k] == v;
                        assert((first + second)[k] == v);
                    } else {
                        assert(fresh(inner.marks, rest.marks, v));
                        let k = choose|k: int| 0 <= k < second.len() && second[k] == v;
                        assert((first + second)[first.len() + k] == v);
                    }
                }
            }
            assert forall|w: int| #[trigger] fresh(marks, rest.marks, w) implies g.settled(
                rest.marks,
                w,
            ) && g.reachable(root, w) by {
                if inner.marks[w] {
                    assert(fresh(marks, inner.marks, w));
                    assert(g.settled(inner.marks, w));
                    assert forall|i: int| 0 <= i < g.adjacency[w].len() implies rest.marks[(
                    #[trigger] g.adjacency[w][i]).0] by {
                        lemma_listed_is_edge(g, w, i);
                    }
                } else {
                    assert(fresh(inner.marks, rest.marks, w));
                }
            }
            assert forall|i: int| j <= i < g.adjacency[u].len() implies rest.marks[(
            #[trigger] g.adjacency[u][i]).0] by {
                if i == j {
                    assert(inner.marks[entry.0]);
                }
            }
        } else {
            assert(node_visits(Seq::<Visit>::empty()) =~= Seq::empty());
        }
    } else {
        if !marks[u] {
            lemma_mark_one(marks, u);
            let first = marks.update(u, true);
            lemma_dfs_run(g, root, first, u, 0, true);
            let below = g.dfs_along(first, u, 0);
            let run = g.dfs_from(marks, u);
            let node = seq![Visit::Node(u)];
            assert(run.trace == node + below.trace);
            lemma_visits_one(Visit::Node(u));
            lemma_visits_concat(node, below.trace);
            let head = seq![u];
            let tail = node_visits(below.trace);
            assert(node_visits(run.trace) =~= head + tail);
            assert forall|a: int, b: int| 0 <= a < head.len() && 0 <= b < tail.len() implies head[a]
                != tail[b] by {
                assert(tail.contains(tail[b]));
                assert(fresh(first, below.marks, tail[b]));
            }
            vstd::seq_lib::lemma_no_dup_in_concat(head, tail);
            assert(first[u]);
            assert forall|v: int| (head + tail).contains(v) <==> #[trigger] fresh(
                marks,
                below.marks,
                v,
            ) by {
                if (head + tail).contains(v) {
                    let k = choose|k: int| 0 <= k < (head + tail).len() && (head + tail)[k] == v;
                    if k >= 1 {
                        assert(tail[k - 1] == v);
                        assert(tail.contains(v));
                        assert(fresh(first, below.marks, v));
                    }
                }
                if fresh(marks, below.marks, v) {
                    if v == u {
                        assert((head + tail)[0] == v);
                    } else {
                        assert(fresh(first, below.marks, v));
                        let k = choose|k: int| 0 <= k < tail.len() && tail[k] == v;
                        assert((head + tail)[1 + k] == v);
                    }
                }
            }
            assert forall|w: int| #[trigger] fresh(marks, below.marks, w) implies g.settled(
                below.marks,
                w,
            ) && g.reachable(root, w) by {
                if w != u {
                    assert(fresh(first, below.marks, w));
                }
            }
        } else {
            assert(node_visits(Seq::<Visit>::empty()) =~= Seq::empty());
        }
    }
}

impl<N, E> GraphView<N, E> {
    /// The depth-first walk from `begin` visits each node that `begin`
    /// reaches once, and no other node.
    pub proof fn lemma_dfs_visits(self, begin: int)
        requires
            self.wf(),
            self.has_node(begin),
        ensures
            node_visits(self.dfs_trace(begin)).no_duplicates(),
            forall|v: int| #[trigger]
                node_visits(self.dfs_trace(begin)).contains(v) <==> self.reachable(begin, v),
    {
        let none = no_marks(self.nodes.len());
        let run = self.dfs_from(none, begin);
        assert(self.walk_of(begin, begin, 0));
        lemma_dfs_run(self, begin, none, begin, 0, false);
        let seen = node_visits(run.trace);
        assert forall|v: int| #[trigger] seen.contains(v) <==> self.reachable(begin, v) by {
            if seen.contains(v) {
                assert(fresh(none, run.marks, v));
            }
            if self.reachable(begin, v) {
                let k = choose|k: nat| self.walk_of(begin, v, k);
                assert forall|w: int| 0 <= w < run.marks.len() && #[trigger] run.marks[w] implies self.settled(
                    run.marks,
                    w,
                ) by {
                    assert(fresh(none, run.marks, w));
                }
                self.lemma_closed_marks(run.marks, begin, v, k);
                assert(fresh(none, run.marks, v));
            }
        }
    }
}

/// Whether `list` names the edge `e` at entry `j` or later.
pub open spec fn listed_from(list: Seq<(int, int)>, j: int, e: int) -> bool {
    exists|i: int| j <= i < list.len() && 0 <= i && (#[trigger] list[i]).1 == e
}

/// Whether a part of a depth-first walk visits just the edges that leave the
/// nodes it marks, each once, and, where it goes along the adjacency list of
/// `u`, the edges of that list as well, from entry `j` on.
pub open spec fn dfs_edges_sound<N, E>(
    g: GraphView<N, E>,
    marks: Seq<bool>,
    u: int,
    j: int,
    along: bool,
    run: Run,
) -> bool {
    &&& edge_visits(run.trace).no_duplicates()
    &&& forall|e: int| #[trigger]
        edge_visits(run.trace).contains(e) <==> g.has_edge(e) && (fresh(
            marks,
            run.marks,
            g.source(e),
        ) || (along && g.source(e) == u && listed_from(g.adjacency[u], j, e)))
}

/// Every part of a depth-first walk visits the edges that it is meant to,
/// each once.
pub proof fn lemma_dfs_edges<N, E>(g: GraphView<N, E>, marks: Seq<bool>, u: int, j: int, along: bool)
    requires
        g.wf(),
        marks.len() == g.nodes.len(),
        g.has_node(u),
        0 <= j,
        along ==> marks[u],
    ensures
        dfs_edges_sound(
            g,
            marks,
            u,
            j,
            along,
            if along {
                g.dfs_along(marks, u, j)
            } else {
                g.dfs_from(marks, u)
            },
        ),
    decreases unmarked(marks), (if along { 1 + g.adjacency[u].len() - j } else { 0 }),
{
    lemma_dfs_marks(g, marks, u, j, along);
    let list = g.adjacency[u];
    if along {
        if j < list.len() {
            let entry = list[j];
            lemma_listed_is_edge(g, u, j);
            lemma_dfs_marks(g, marks, entry.0, 0, false);
            lemma_dfs_along(g, marks, u, j);
            lemma_dfs_edges(g, marks, entry.0, 0, false);
            let inner = g.dfs_from(marks, entry.0);
            lemma_dfs_marks(g, inner.marks, u, j + 1, true);
            lemma_dfs_edges(g, inner.marks, u, j + 1, true);
            let rest = g.dfs_along(inner.marks, u, j + 1);
            let run = g.dfs_along(marks, u, j);
            let edge = seq![Visit::Edge(entry.1)];
            assert(run.trace == edge + inner.trace + rest.trace);
            assert(run.marks == rest.marks);
            lemma_visits_one(Visit::Edge(entry.1));
            lemma_visits_concat(edge, inner.trace);
            lemma_visits_concat(edge + inner.trace, rest.trace);
            let one = seq![entry.1];
            let first = edge_visits(inner.trace);
            let second = edge_visits(rest.trace);
            assert(edge_visits(run.trace) =~= one + first + second);
            lemma_out_list_rises(g.ends, u);
            assert(list == out_list(g.ends, u));
            assert(!listed_from(list, j + 1, entry.1));
            assert forall|e: int| one.contains(e) <==> e == entry.1 by {
                if one.contains(e) {
                    let k = choose|k: int| 0 <= k < one.len() && one[k] == e;
                }
                assert(one[0] == entry.1);
            }
            assert(g.source(entry.1) == u);
            assert(!fresh(marks, inner.marks, u));
            assert(!fresh(inner.marks, rest.marks, u));
            assert forall|e: int| one.contains(e) implies !first.contains(e) by {
                assert(e == entry.1);
            }
            lemma_concat_distinct(one, first);
            assert forall|e: int| (one + first).contains(e) implies !second.contains(e) by {
                lemma_concat_contains(one, first, e);
            }
            lemma_concat_distinct(one + first, second);
            assert forall|e: int| #[trigger] (one + first + second).contains(e) <==> g.has_edge(e) && (
            fresh(marks, rest.marks, g.source(e)) || (g.source(e) == u && listed_from(
                list,
                j,
                e,
            ))) by {
                lemma_concat_contains(one, first, e);
                lemma_concat_contains(one + first, second, e);
                if g.has_edge(e) {
                    assert(g.has_node(g.ends[e].0) && g.has_node(g.ends[e].1));
                }
                assert(first.contains(e) <==> g.has_edge(e) && fresh(
                    marks,
                    inner.marks,
                    g.source(e),
                ));
                assert(second.contains(e) <==> g.has_edge(e) && (fresh(
                    inner.marks,
                    rest.marks,
                    g.source(e),
                ) || (g.source(e) == u && listed_from(list, j + 1, e))));
                if listed_from(list, j + 1, e) {
                    let i = choose|i: int| j + 1 <= i < list.len() && 0 <= i && (#[trigger] list[i]).1 == e;
                    assert(list[i].1 == e);
                }
                if e == entry.1 {
                    assert(list[j].1 == e);
                }
                if listed_from(list, j, e) && e != entry.1 {
                    let i = choose|i: int| j <= i < list.len() && 0 <= i && (#[trigger] list[i]).1 == e;
                    assert(list[i].1 == e && j + 1 <= i);
                }
            }
        } else {
            assert(edge_visits(Seq::<Visit>::empty()) =~= Seq::empty());
            assert forall|e: int| !listed_from(list, j, e) by {}
        }
    } else {
        if !marks[u] {
            lemma_mark_one(marks, u);
            let first = marks.update(u, true);
            lemma_dfs_marks(g, first, u, 0, true);
            lemma_dfs_edges(g, first, u, 0, true);
            let below = g.dfs_along(first, u, 0);
            let run = g.dfs_from(marks, u);
            let node = seq![Visit::Node(u)];
            assert(run.trace == node + below.trace);
            lemma_visits_one(Visit::Node(u));
            lemma_visits_concat(node, below.trace);
            let visits = edge_visits(below.trace);
            assert(edge_visits(run.trace) =~= visits);
            assert(first[u]);
            assert forall|e: int| #[trigger] visits.contains(e) <==> g.has_edge(e) && fresh(
                marks,
                below.marks,
                g.source(e),
            ) by {
                if g.has_edge(e) {
                    lemma_edge_ends(g, e);
                    if g.source(e) == u {
                        lemma_out_list_has(g.ends, e);
                        assert(list == out_list(g.ends, u));
                        let i = choose|i: int| 0 <= i < list.len() && list[i] == (g.ends[e].1, e);
                        assert(list[i].1 == e);
                        assert(listed_from(list, 0, e));
                    }
                }
            }
        } else {
            assert(edge_visits(Seq::<Visit>::empty()) =~= Seq::empty());
        }
    }
}

impl<N, E> GraphView<N, E> {
    /// The depth-first walk from `begin` visits each edge that leaves a node
    /// which `begin` reaches once, and no other edge.
    pub proof fn lemma_dfs_visits_edges(self, begin: int)
        requires
            self.wf(),
            self.has_node(begin),
        ensures
            edge_visits(self.dfs_trace(begin)).no_duplicates(),
            forall|e: int| #[trigger]
                edge_visits(self.dfs_trace(begin)).contains(e) <==> self.has_edge(e)
                    && self.reachable(begin, self.source(e)),
    {
        let none = no_marks(self.nodes.len());
        let run = self.dfs_from(none, begin);
        lemma_dfs_edges(self, none, begin, 0, false);
        self.lemma_dfs_visits(begin);
        let seen = node_visits(run.trace);
        assert(self.walk_of(begin, begin, 0));
        lemma_dfs_run(self, begin, none, begin, 0, false);
        assert forall|e: int| #[trigger] edge_visits(run.trace).contains(e) <==> self.has_edge(e)
            && self.reachable(begin, self.source(e)) by {
            let u = self.source(e);
            if self.has_edge(e) {
                assert(self.has_node(self.ends[e].0) && self.has_node(self.ends[e].1));
                assert(seen.contains(u) <==> self.reachable(begin, u));
                assert(seen.contains(u) <==> fresh(none, run.marks, u));
            }
        }
    }
}

} // verus!

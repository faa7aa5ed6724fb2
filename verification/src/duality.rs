//! The greatest flow and the least cut are one number.

use crate::graph::GraphView;
use crate::residual::climbs;
use crate::residual::has_room;
use crate::residual::is_walk;
use crate::residual::lemma_climb_distinct;
use crate::residual::pushed;
use crate::residual::room;
use crate::residual::step_from;
use crate::residual::step_to;
use crate::residual::Step;
use vstd::prelude::*;

verus! {

/// The step that stands at place `r` among the steps of a graph: each edge
/// gives two, the one along it and then the one against it.
pub open spec fn step_at(r: int) -> Step {
    Step { edge: r / 2, forward: r % 2 == 0 }
}

/// What the flow `f` leaves free in `g`, as a graph of its own: it has the
/// nodes of `g` and, for each step, an edge. Where `f` leaves room for the
/// step the edge joins the ends of the step, and where it leaves none the
/// edge is a loop, which leads nowhere.
pub open spec fn leftover<N>(g: GraphView<N, i32>, f: Seq<int>) -> GraphView<(), ()> {
    GraphView {
        nodes: Seq::new(g.nodes.len(), |v: int| ()),
        edges: Seq::new(2 * g.ends.len(), |r: int| ()),
        ends: Seq::new(
            2 * g.ends.len(),
            |r: int|
                if room(g.capacities(), f, step_at(r)) >= 1 {
                    (step_from(g.ends, step_at(r)), step_to(g.ends, step_at(r)))
                } else {
                    (step_from(g.ends, step_at(r)), step_from(g.ends, step_at(r)))
                },
        ),
        adjacency: Seq::empty(),
    }
}

/// The nodes that `s` reaches through what `f` leaves free.
pub open spec fn free_side<N>(g: GraphView<N, i32>, f: Seq<int>, s: int) -> Set<int> {
    Set::new(|v: int| leftover(g, f).reachable(s, v))
}

/// The distance of each node from `s` through what `f` leaves free.
pub open spec fn free_places<N>(g: GraphView<N, i32>, f: Seq<int>, s: int) -> Seq<int> {
    Seq::new(g.nodes.len(), |v: int| leftover(g, f).distance(s, v) as int)
}

/// To a node that `s` reaches through what `f` leaves free, a shortest walk
/// leads that `f` has room for on every step and that uses no edge twice.
pub proof fn lemma_free_path<N>(g: GraphView<N, i32>, f: Seq<int>, s: int, v: int, k: nat) -> (path:
    Seq<Step>)
    requires
        g.wf(),
        f.len() == g.edges.len(),
        g.has_node(s),
        leftover(g, f).reachable(s, v),
        leftover(g, f).distance(s, v) == k,
    ensures
        g.has_node(v),
        path.len() == k,
        is_walk(g.ends, s, path, v),
        has_room(g.capacities(), f, path, 1),
        climbs(g.ends, free_places(g, f, s), path),
    decreases k,
{
    let left = leftover(g, f);
    let place = free_places(g, f, s);
    if k == 0 {
        left.lemma_distance_none(s, v);
        Seq::empty()
    } else {
        let r = left.lemma_distance_before(s, v, (k - 1) as nat);
        let st = step_at(r);
        let u = left.source(r);
        assert(0 <= st.edge < g.ends.len());
        assert(g.has_node(g.ends[st.edge].0) && g.has_node(g.ends[st.edge].1));
        assert(left.ends[r].0 != left.ends[r].1);
        assert(room(g.capacities(), f, st) >= 1);
        assert(step_from(g.ends, st) == u && step_to(g.ends, st) == v);
        let before = lemma_free_path(g, f, s, u, (k - 1) as nat);
        let path = before.push(st);
        assert(is_walk(g.ends, s, path, v)) by {
            assert forall|i: int| 0 <= i < path.len() - 1 implies step_to(
                g.ends,
                #[trigger] path[i],
            ) == step_from(g.ends, path[i + 1]) by {
                if i < before.len() - 1 {
                    assert(path[i] == before[i]);
                    assert(path[i + 1] == before[i + 1]);
                } else {
                    assert(path[i] == before.last());
                }
            }
            if before.len() > 0 {
                assert(path[0] == before[0]);
            }
        }
        assert(has_room(g.capacities(), f, path, 1)) by {
            assert forall|i: int| 0 <= i < path.len() implies room(
                g.capacities(),
                f,
                #[trigger] path[i],
            ) >= 1 by {
                if i < before.len() {
                    assert(path[i] == before[i]);
                }
            }
        }
        assert(climbs(g.ends, place, path)) by {
            assert forall|i: int| 0 <= i < path.len() implies place[step_from(
                g.ends,
                #[trigger] path[i],
            )] < place[step_to(g.ends, path[i])] by {
                if i < before.len() {
                    assert(path[i] == before[i]);
                }
            }
            assert forall|i: int, j: int| 0 <= i < j < path.len() implies place[step_to(
                g.ends,
                #[trigger] path[i],
            )] < place[step_to(g.ends, #[trigger] path[j])] by {
                assert(path[i] == before[i]);
                if j < before.len() {
                    assert(path[j] == before[j]);
                } else {
                    if i < before.len() - 1 {
                        assert(place[step_to(g.ends, before[i])] < place[step_to(
                            g.ends,
                            before.last(),
                        )]);
                    }
                    assert(step_to(g.ends, before.last()) == u);
                }
            }
        }
        path
    }
}

impl<N> GraphView<N, i32> {
    /// A greatest flow leaves no walk free from `s` to `t`, and the nodes
    /// that `s` still reaches make a cut which lets through just what the
    /// flow carries. So the value of a greatest flow is the capacity of a
    /// least cut.
    pub proof fn lemma_max_flow_fills_cut(self, s: int, t: int, f: Seq<int>)
        requires
            self.wf(),
            self.has_node(s),
            self.has_node(t),
            s != t,
            self.is_max_flow(s, t, f),
        ensures
            self.is_cut(s, t, free_side(self, f, s)),
            self.cut_capacity(free_side(self, f, s)) == self.flow_value(s, f),
            self.min_cut_is(s, t, self.flow_value(s, f)),
    {
        let left = leftover(self, f);
        let side = free_side(self, f, s);
        left.lemma_distance_none(s, s);
        if left.reachable(s, t) {
            left.lemma_reachable_distance(s, t);
            let path = lemma_free_path(self, f, s, t, left.distance(s, t));
            lemma_climb_distinct(self.ends, free_places(self, f, s), path);
            self.lemma_augment(s, t, f, path, 1);
            let more = pushed(f, path, 1);
            assert(self.is_flow(s, t, more));
            assert(self.flow_value(s, more) <= self.flow_value(s, f));
        }
        assert forall|e: int|
            0 <= e < self.ends.len() && side.contains((#[trigger] self.ends[e]).0)
                && !side.contains(self.ends[e].1) implies f[e] == self.edges[e] by {
            assert(0 <= f[e] <= self.edges[e]);
            if f[e] < self.edges[e] {
                let r = 2 * e;
                assert(step_at(r) == Step { edge: e, forward: true });
                assert(left.has_edge(r));
                assert(left.ends[r] == (self.ends[e].0, self.ends[e].1));
                left.lemma_reach_on(s, r);
            }
        }
        assert forall|e: int|
            0 <= e < self.ends.len() && !side.contains((#[trigger] self.ends[e]).0)
                && side.contains(self.ends[e].1) implies f[e] == 0 by {
            assert(0 <= f[e] <= self.edges[e]);
            if f[e] > 0 {
                let r = 2 * e + 1;
                assert(step_at(r) == Step { edge: e, forward: false });
                assert(left.has_edge(r));
                assert(left.ends[r] == (self.ends[e].1, self.ends[e].0));
                left.lemma_reach_on(s, r);
            }
        }
        self.lemma_cut_certifies(s, t, f, side);
    }

    /// The least capacity of a cut is one number.
    pub proof fn lemma_min_cut_unique(self, s: int, t: int, a: int, b: int)
        requires
            self.min_cut_is(s, t, a),
            self.min_cut_is(s, t, b),
        ensures
            a == b,
    {
        let x = choose|side: Set<int>|
            {
                &&& #[trigger] self.is_cut(s, t, side)
                &&& self.cut_capacity(side) == a
                &&& forall|other: Set<int>| #[trigger]
                    self.is_cut(s, t, other) ==> a <= self.cut_capacity(other)
            };
        let y = choose|side: Set<int>|
            {
                &&& #[trigger] self.is_cut(s, t, side)
                &&& self.cut_capacity(side) == b
                &&& forall|other: Set<int>| #[trigger]
                    self.is_cut(s, t, other) ==> b <= self.cut_capacity(other)
            };
        assert(self.is_cut(s, t, x));
        assert(self.is_cut(s, t, y));
    }

    /// Between two different nodes, the greatest value of a flow is the least
    /// capacity of a cut.
    pub proof fn lemma_max_flow_min_cut(self, s: int, t: int, v: int, c: int)
        requires
            self.wf(),
            self.has_node(s),
            self.has_node(t),
            s != t,
            self.max_flow_is(s, t, v),
            self.min_cut_is(s, t, c),
        ensures
            v == c,
    {
        let f = choose|f: Seq<int>| #[trigger] self.is_max_flow(s, t, f) && self.flow_value(s, f) == v;
        self.lemma_max_flow_fills_cut(s, t, f);
        self.lemma_min_cut_unique(s, t, v, c);
    }
}

} // verus!

//! Walks through what a flow leaves free, and what pushing more along one
//! does to the flow.

use crate::flow::in_sum;
use crate::flow::net_out;
use crate::flow::out_sum;
use crate::graph::GraphView;
use vstd::prelude::*;

verus! {

/// One step of a walk: along an edge, or against it.
pub struct Step {
    /// The position of the edge.
    pub edge: int,
    /// Whether the step goes from the source of the edge to its destination.
    pub forward: bool,
}

/// The node that a step leaves.
pub open spec fn step_from(ends: Seq<(int, int)>, st: Step) -> int {
    if st.forward {
        ends[st.edge].0
    } else {
        ends[st.edge].1
    }
}

/// The node that a step reaches.
pub open spec fn step_to(ends: Seq<(int, int)>, st: Step) -> int {
    if st.forward {
        ends[st.edge].1
    } else {
        ends[st.edge].0
    }
}

/// How much more the flow `f` could carry along a step: along an edge, what
/// is left of its capacity; against it, what the edge carries now.
pub open spec fn room(cap: Seq<int>, f: Seq<int>, st: Step) -> int {
    if st.forward {
        cap[st.edge] - f[st.edge]
    } else {
        f[st.edge]
    }
}

/// Whether `path` leads from `a` to `b`, each step starting where the one
/// before it ended.
pub open spec fn is_walk(ends: Seq<(int, int)>, a: int, path: Seq<Step>, b: int) -> bool {
    &&& forall|k: int| 0 <= k < path.len() ==> 0 <= (#[trigger] path[k]).edge < ends.len()
    &&& path.len() == 0 ==> a == b
    &&& path.len() > 0 ==> step_from(ends, path[0]) == a && step_to(ends, path.last()) == b
    &&& forall|k: int|
        0 <= k < path.len() - 1 ==> step_to(ends, #[trigger] path[k]) == step_from(
            ends,
            path[k + 1],
        )
}

/// Whether the flow `f` could carry `d` more along every step of `path`.
pub open spec fn has_room(cap: Seq<int>, f: Seq<int>, path: Seq<Step>, d: int) -> bool {
    forall|k: int| 0 <= k < path.len() ==> room(cap, f, #[trigger] path[k]) >= d
}

/// Whether no edge is used twice by `path`, in whichever direction.
pub open spec fn distinct_edges(path: Seq<Step>) -> bool {
    forall|i: int, j: int|
        0 <= i < j < path.len() ==> (#[trigger] path[i]).edge != (#[trigger] path[j]).edge
}

/// The flow `f` with `d` more along every step of `path`: added on the edges
/// it follows and taken off the edges it goes against.
pub open spec fn pushed(f: Seq<int>, path: Seq<Step>, d: int) -> Seq<int>
    decreases path.len(),
{
    if path.len() == 0 {
        f
    } else {
        let rest = pushed(f, path.drop_first(), d);
        let st = path[0];
        rest.update(
            st.edge,
            if st.forward {
                rest[st.edge] + d
            } else {
                rest[st.edge] - d
            },
        )
    }
}

/// Pushing along a path changes the edges of the path, each by `d`, and no
/// other edge.
pub proof fn lemma_pushed_values(f: Seq<int>, path: Seq<Step>, d: int)
    requires
        distinct_edges(path),
        forall|k: int| 0 <= k < path.len() ==> 0 <= (#[trigger] path[k]).edge < f.len(),
    ensures
        pushed(f, path, d).len() == f.len(),
        forall|e: int|
            0 <= e < f.len() && (forall|k: int| 0 <= k < path.len() ==> (#[trigger] path[k]).edge
                != e) ==> #[trigger] pushed(f, path, d)[e] == f[e],
        forall|k: int|
            0 <= k < path.len() ==> pushed(f, path, d)[(#[trigger] path[k]).edge] == (if path[k].forward {
                f[path[k].edge] + d
            } else {
                f[path[k].edge] - d
            }),
    decreases path.len(),
{
    if path.len() > 0 {
        let tail = path.drop_first();
        assert forall|k: int| 0 <= k < tail.len() implies 0 <= (#[trigger] tail[k]).edge
            < f.len() by {
            assert(tail[k] == path[k + 1]);
        }
        assert(distinct_edges(tail)) by {
            assert forall|i: int, j: int| 0 <= i < j < tail.len() implies (#[trigger] tail[i]).edge
                != (#[trigger] tail[j]).edge by {
                assert(tail[i] == path[i + 1]);
                assert(tail[j] == path[j + 1]);
            }
        }
        lemma_pushed_values(f, tail, d);
        let rest = pushed(f, tail, d);
        let now = pushed(f, path, d);
        let first = path[0];
        assert(rest[first.edge] == f[first.edge]) by {
            assert forall|k: int| 0 <= k < tail.len() implies (#[trigger] tail[k]).edge
                != first.edge by {
                assert(tail[k] == path[k + 1]);
            }
        }
        assert forall|e: int|
            0 <= e < f.len() && (forall|k: int| 0 <= k < path.len() ==> (#[trigger] path[k]).edge
                != e) implies #[trigger] now[e] == f[e] by {
            assert(path[0].edge != e);
            assert forall|k: int| 0 <= k < tail.len() implies (#[trigger] tail[k]).edge != e by {
                assert(tail[k] == path[k + 1]);
            }
        }
        assert forall|k: int| 0 <= k < path.len() implies now[(#[trigger] path[k]).edge] == (if path[k].forward {
            f[path[k].edge] + d
        } else {
            f[path[k].edge] - d
        }) by {
            if k > 0 {
                assert(tail[k - 1] == path[k]);
                assert(path[0].edge != path[k].edge);
            }
        }
    }
}

/// What a change of the weight of one edge does to the totals at a node.
pub proof fn lemma_weight_change(
    ends: Seq<(int, int)>,
    weight: Seq<int>,
    e: int,
    x: int,
    v: int,
)
    requires
        0 <= e < weight.len(),
        ends.len() <= weight.len(),
    ensures
        out_sum(ends, weight.update(e, weight[e] + x), v) == out_sum(ends, weight, v) + (if e
            < ends.len() && ends[e].0 == v {
            x
        } else {
            0
        }),
        in_sum(ends, weight.update(e, weight[e] + x), v) == in_sum(ends, weight, v) + (if e
            < ends.len() && ends[e].1 == v {
            x
        } else {
            0
        }),
    decreases ends.len(),
{
    if ends.len() > 0 {
        let rest = ends.drop_last();
        let last = ends.len() - 1;
        let changed = weight.update(e, weight[e] + x);
        lemma_weight_change(rest, weight, e, x, v);
        if e < rest.len() {
            assert(rest[e] == ends[e]);
        }
        if last < weight.len() {
            assert(changed[last] == if e == last {
                weight[last] + x
            } else {
                weight[last]
            });
        }
        assert(ends.last() == ends[last]);
    }
}

/// Pushing `d` along a walk from `a` to `b` lets `d` more leave `a` and `d`
/// more enter `b`, and keeps the balance of every other node.
pub proof fn lemma_pushed_net(
    ends: Seq<(int, int)>,
    f: Seq<int>,
    a: int,
    path: Seq<Step>,
    b: int,
    d: int,
    v: int,
)
    requires
        is_walk(ends, a, path, b),
        f.len() == ends.len(),
    ensures
        pushed(f, path, d).len() == f.len(),
        net_out(ends, pushed(f, path, d), v) == net_out(ends, f, v) + (if v == a {
            d
        } else {
            0
        }) - (if v == b {
            d
        } else {
            0
        }),
    decreases path.len(),
{
    if path.len() > 0 {
        let tail = path.drop_first();
        let first = path[0];
        let mid = step_to(ends, first);
        assert(is_walk(ends, mid, tail, b)) by {
            assert forall|k: int| 0 <= k < tail.len() implies 0 <= (#[trigger] tail[k]).edge
                < ends.len() by {
                assert(tail[k] == path[k + 1]);
            }
            assert forall|k: int| 0 <= k < tail.len() - 1 implies step_to(
                ends,
                #[trigger] tail[k],
            ) == step_from(ends, tail[k + 1]) by {
                assert(tail[k] == path[k + 1]);
                assert(tail[k + 1] == path[k + 2]);
            }
            if tail.len() > 0 {
                assert(tail[0] == path[1]);
                assert(tail.last() == path.last());
            }
        }
        lemma_pushed_net(ends, f, mid, tail, b, d, v);
        let rest = pushed(f, tail, d);
        let x = if first.forward {
            d
        } else {
            -d
        };
        lemma_weight_change(ends, rest, first.edge, x, v);
        assert(pushed(f, path, d) == rest.update(first.edge, rest[first.edge] + x));
    }
}

/// Whether each step of `path` ends at a later place than it starts from,
/// and later than every step before it ends.
pub open spec fn climbs(ends: Seq<(int, int)>, place: Seq<int>, path: Seq<Step>) -> bool {
    &&& forall|k: int|
        0 <= k < path.len() ==> place[step_from(ends, #[trigger] path[k])] < place[step_to(
            ends,
            path[k],
        )]
    &&& forall|i: int, j: int|
        0 <= i < j < path.len() ==> place[step_to(ends, #[trigger] path[i])] < place[step_to(
            ends,
            #[trigger] path[j],
        )]
}

/// A walk that always climbs uses no edge twice.
pub proof fn lemma_climb_distinct(ends: Seq<(int, int)>, place: Seq<int>, path: Seq<Step>)
    requires
        climbs(ends, place, path),
    ensures
        distinct_edges(path),
{
    assert forall|i: int, j: int| 0 <= i < j < path.len() implies (#[trigger] path[i]).edge != (
    #[trigger] path[j]).edge by {
        if path[i].edge == path[j].edge {
            assert(place[step_to(ends, path[i])] < place[step_to(ends, path[j])]);
            assert(place[step_from(ends, path[i])] < place[step_to(ends, path[i])]);
            assert(place[step_from(ends, path[j])] < place[step_to(ends, path[j])]);
        }
    }
}

impl<N> GraphView<N, i32> {
    /// Pushing along a walk from `s` to `t` that uses no edge twice, by no
    /// more than every step has room for, gives a flow again, and its value
    /// is greater by what was pushed.
    pub proof fn lemma_augment(self, s: int, t: int, f: Seq<int>, path: Seq<Step>, d: int)
        requires
            self.wf(),
            s != t,
            self.is_flow(s, t, f),
            is_walk(self.ends, s, path, t),
            distinct_edges(path),
            has_room(self.capacities(), f, path, d),
            0 <= d,
        ensures
            self.is_flow(s, t, pushed(f, path, d)),
            self.flow_value(s, pushed(f, path, d)) == self.flow_value(s, f) + d,
    {
        let g = pushed(f, path, d);
        lemma_pushed_values(f, path, d);
        lemma_pushed_net(self.ends, f, s, path, t, d, s);
        assert forall|e: int| 0 <= e < g.len() implies 0 <= #[trigger] g[e] <= self.edges[e] by {
            assert(0 <= f[e] <= self.edges[e]);
            if exists|k: int| 0 <= k < path.len() && (#[trigger] path[k]).edge == e {
                let k = choose|k: int| 0 <= k < path.len() && (#[trigger] path[k]).edge == e;
                assert(room(self.capacities(), f, path[k]) >= d);
            }
        }
        assert forall|v: int| self.has_node(v) && v != s && v != t implies #[trigger] net_out(
            self.ends,
            g,
            v,
        ) == 0 by {
            lemma_pushed_net(self.ends, f, s, path, t, d, v);
            assert(net_out(self.ends, f, v) == 0);
        }
    }
}

} // verus!

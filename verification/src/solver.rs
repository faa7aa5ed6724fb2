//! The flow solver: it pushes along shortest free paths until none is left.

use crate::flow::no_flow;
use crate::flow::FlowError;
use crate::graph::Graph;
use crate::graph::GraphView;
use crate::handle::EdgeRef;
use crate::handle::NodeRef;
use crate::residual::climbs;
use crate::residual::distinct_edges;
use crate::residual::has_room;
use crate::residual::is_walk;
use crate::residual::lemma_climb_distinct;
use crate::residual::lemma_pushed_values;
use crate::residual::pushed;
use crate::residual::room;
use crate::residual::step_from;
use crate::residual::step_to;
use crate::residual::Step;
use crate::search::amounts;
use crate::search::in_list;
use crate::search::node_closed;
use crate::search::positions;
use crate::search::Search;
use vstd::prelude::*;

verus! {

/// The steps back from the sink, turned round: the path from the source.
pub open spec fn path_of(steps: Seq<(usize, bool)>) -> Seq<Step> {
    Seq::new(
        steps.len(),
        |k: int|
            Step { edge: steps[steps.len() - 1 - k].0 as int, forward: steps[steps.len() - 1 - k].1 },
    )
}

/// Adds `amount` along every step of the path that `steps` lists from its
/// end back to its start.
fn augment(
    flow: &mut Vec<i32>,
    steps: &Vec<(usize, bool)>,
    amount: i32,
    Ghost(cap): Ghost<Seq<int>>,
)
    requires
        cap.len() == old(flow)@.len(),
        forall|e: int| 0 <= e < cap.len() ==> 0 <= (#[trigger] old(flow)@[e]) <= cap[e] <= i32::MAX,
        forall|k: int| 0 <= k < steps@.len() ==> (#[trigger] steps@[k]).0 < old(flow)@.len(),
        distinct_edges(path_of(steps@)),
        has_room(cap, amounts(old(flow)@), path_of(steps@), amount as int),
        0 <= amount,
    ensures
        amounts(final(flow)@) == pushed(amounts(old(flow)@), path_of(steps@), amount as int),
{
    let ghost path = path_of(steps@);
    let ghost start = amounts(flow@);
    let len = steps.len();
    let mut i: usize = 0;
    proof {
        assert(path.skip(len as int) =~= Seq::empty());
    }
    while i < len
        invariant
            len == steps@.len(),
            i <= len,
            path == path_of(steps@),
            start.len() == cap.len(),
            flow@.len() == start.len(),
            forall|e: int| 0 <= e < cap.len() ==> 0 <= (#[trigger] start[e]) <= cap[e] <= i32::MAX,
            forall|k: int| 0 <= k < steps@.len() ==> (#[trigger] steps@[k]).0 < start.len(),
            distinct_edges(path),
            has_room(cap, start, path, amount as int),
            0 <= amount,
            amounts(flow@) == pushed(start, path.skip(len - i), amount as int),
        decreases len - i,
    {
        let (e, forward) = steps[i];
        let ghost done = path.skip(len - i);
        let ghost next = path.skip(len - i - 1);
        proof {
            assert(path[len - 1 - i] == Step { edge: e as int, forward });
            assert(distinct_edges(done)) by {
                assert forall|a: int, b: int| 0 <= a < b < done.len() implies (#[trigger] done[a]).edge
                    != (#[trigger] done[b]).edge by {
                    assert(done[a] == path[len - i + a]);
                    assert(done[b] == path[len - i + b]);
                }
            }
            assert forall|k: int| 0 <= k < done.len() implies 0 <= (#[trigger] done[k]).edge
                < start.len() && done[k].edge != e by {
                assert(done[k] == path[len - i + k]);
                assert(path[len - i + k].edge == steps@[i - 1 - k].0);
                assert(path[len - 1 - i].edge != path[len - i + k].edge);
            }
            lemma_pushed_values(start, done, amount as int);
            assert(amounts(flow@)[e as int] == start[e as int]);
            assert(room(cap, start, path[len - 1 - i]) >= amount);
            assert(next.drop_first() =~= done);
            assert(next[0] == path[len - 1 - i]);
        }
        let ghost before = flow@;
        if forward {
            flow[e] = flow[e] + amount;
        } else {
            flow[e] = flow[e] - amount;
        }
        proof {
            let x = if forward {
                amounts(before)[e as int] + amount
            } else {
                amounts(before)[e as int] - amount
            };
            assert(amounts(flow@) =~= amounts(before).update(e as int, x));
        }
        i += 1;
    }
    proof {
        assert(path.skip(0) =~= path);
    }
}

impl<N> Graph<N, i32> {
    /// Whether no edge holds a negative capacity.
    fn capacities_valid(&self) -> (ok: bool)
        requires
            self.wf(),
        ensures
            ok == self@.capacities_valid(),
    {
        let m = self.edge_count();
        let mut e: usize = 0;
        while e < m
            invariant
                m == self@.edges.len(),
                e <= m,
                forall|i: int| 0 <= i < e ==> #[trigger] self@.edges[i] >= 0,
            decreases m - e,
        {
            if self[EdgeRef::at(e)] < 0 {
                return false;
            }
            e += 1;
        }
        true
    }

    /// Follows the steps of a search back from `t` to `s`. Gives the steps
    /// in that order, and the least room on any of them.
    fn trace_back(&self, flow: &Vec<i32>, found: &Search, s: usize, t: usize) -> (r: (
        Vec<(usize, bool)>,
        i32,
    ))
        requires
            self.wf(),
            flow@.len() == self@.edges.len(),
            forall|e: int| 0 <= e < flow@.len() ==> 0 <= (#[trigger] flow@[e]) <= self@.edges[e],
            found.inv(self@, amounts(flow@), s as int),
            t < self@.nodes.len(),
            found.reached@[t as int],
        ensures
            is_walk(self@.ends, s as int, path_of(r.0@), t as int),
            distinct_edges(path_of(r.0@)),
            has_room(self@.capacities(), amounts(flow@), path_of(r.0@), r.1 as int),
            forall|k: int| 0 <= k < r.0@.len() ==> (#[trigger] r.0@[k]).0 < flow@.len(),
            1 <= r.1,
    {
        let ghost g = self@;
        let ghost f = amounts(flow@);
        let ghost place = found.place@;
        let mut steps: Vec<(usize, bool)> = Vec::new();
        let mut least: i32 = i32::MAX;
        let mut x = t;
        proof {
            found.lemma_sized(g, f, s as int);
            assert(path_of(steps@) =~= Seq::empty());
        }
        while x != s
            invariant
                self.wf(),
                g == self@,
                f == amounts(flow@),
                place == found.place@,
                flow@.len() == g.edges.len(),
                forall|e: int| 0 <= e < flow@.len() ==> 0 <= (#[trigger] flow@[e]) <= g.edges[e],
                found.inv(g, f, s as int),
                found.via_edge@.len() == g.nodes.len(),
                found.via_forward@.len() == g.nodes.len(),
                x < g.nodes.len(),
                found.reached@[x as int],
                is_walk(g.ends, x as int, path_of(steps@), t as int),
                climbs(g.ends, place, path_of(steps@)),
                has_room(g.capacities(), f, path_of(steps@), least as int),
                forall|k: int| 0 <= k < steps@.len() ==> (#[trigger] steps@[k]).0 < flow@.len(),
                1 <= least,
            decreases place[x as int],
        {
            proof {
                found.lemma_stepped(g, f, s as int, x as int);
                found.lemma_placed(g, f, s as int, x as int);
            }
            let e = found.via_edge[x];
            let forward = found.via_forward[x];
            let ghost st = Step { edge: e as int, forward };
            let ghost old_path = path_of(steps@);
            let spare = if forward {
                self[EdgeRef::at(e)] - flow[e]
            } else {
                flow[e]
            };
            proof {
                assert(st == found.step(x as int));
                assert(spare == room(g.capacities(), f, st));
            }
            if spare < least {
                least = spare;
            }
            steps.push((e, forward));
            let (a, b) = self.edge_ends(e);
            let y = if forward {
                a.position()
            } else {
                b.position()
            };
            proof {
                let path = path_of(steps@);
                assert(path =~= seq![st] + old_path);
                assert(path[0] == st);
                assert forall|k: int| 1 <= k < path.len() implies path[k] == old_path[k - 1] by {}
                found.lemma_placed(g, f, s as int, y as int);
                assert(is_walk(g.ends, y as int, path, t as int)) by {
                    assert forall|k: int| 0 <= k < path.len() implies 0 <= (#[trigger] path[k]).edge
                        < g.ends.len() by {
                        if k > 0 {
                            assert(path[k] == old_path[k - 1]);
                        }
                    }
                    assert forall|k: int| 0 <= k < path.len() - 1 implies step_to(
                        g.ends,
                        #[trigger] path[k],
                    ) == step_from(g.ends, path[k + 1]) by {
                        assert(path[k + 1] == old_path[k]);
                        if k > 0 {
                            assert(path[k] == old_path[k - 1]);
                        }
                    }
                    if old_path.len() > 0 {
                        assert(path.last() == old_path.last());
                    }
                }
                assert(climbs(g.ends, place, path)) by {
                    assert forall|k: int| 0 <= k < path.len() implies place[step_from(
                        g.ends,
                        #[trigger] path[k],
                    )] < place[step_to(g.ends, path[k])] by {
                        if k > 0 {
                            assert(path[k] == old_path[k - 1]);
                        }
                    }
                    assert forall|i: int, j: int| 0 <= i < j < path.len() implies place[step_to(
                        g.ends,
                        #[trigger] path[i],
                    )] < place[step_to(g.ends, #[trigger] path[j])] by {
                        assert(path[j] == old_path[j - 1]);
                        if i > 0 {
                            assert(path[i] == old_path[i - 1]);
                        } else {
                            assert(place[step_from(g.ends, old_path[0])] < place[step_to(
                                g.ends,
                                old_path[0],
                            )]);
                            if j > 1 {
                                assert(place[step_to(g.ends, old_path[0])] < place[step_to(
                                    g.ends,
                                    old_path[j - 1],
                                )]);
                            }
                        }
                    }
                }
                assert(has_room(g.capacities(), f, path, least as int)) by {
                    assert forall|k: int| 0 <= k < path.len() implies room(
                        g.capacities(),
                        f,
                        #[trigger] path[k],
                    ) >= least by {
                        if k > 0 {
                            assert(path[k] == old_path[k - 1]);
                            assert(room(g.capacities(), f, old_path[k - 1]) >= least);
                        }
                    }
                }
            }
            x = y;
        }
        proof {
            lemma_climb_distinct(g.ends, place, path_of(steps@));
        }
        (steps, least)
    }
}

/// The nodes that `reached` marks.
pub open spec fn marked(reached: Seq<bool>) -> Set<int> {
    Set::new(|v: int| 0 <= v < reached.len() && reached[v])
}

impl<N> GraphView<N, i32> {
    /// Where a search from `s` has stopped short of `t`, the flow is a
    /// greatest flow and the nodes that the search has reached are a least
    /// cut.
    proof fn lemma_search_certifies(self, s: int, t: int, f: Seq<int>, reached: Seq<bool>)
        requires
            self.wf(),
            self.has_node(s),
            self.has_node(t),
            self.is_flow(s, t, f),
            reached.len() == self.nodes.len(),
            reached[s],
            !reached[t],
            forall|u: int|
                0 <= u < self.nodes.len() && #[trigger] reached[u] ==> node_closed(
                    self,
                    f,
                    reached,
                    u,
                ),
        ensures
            self.max_flow_is(s, t, self.flow_value(s, f)),
            self.min_cut_is(s, t, self.flow_value(s, f)),
    {
        let side = marked(reached);
        assert forall|e: int|
            0 <= e < self.ends.len() && side.contains((#[trigger] self.ends[e]).0)
                && !side.contains(self.ends[e].1) implies f[e] == self.edges[e] by {
            assert(self.has_node(self.ends[e].0) && self.has_node(self.ends[e].1));
            assert(reached[self.ends[e].0]);
            assert(node_closed(self, f, reached, self.ends[e].0));
        }
        assert forall|e: int|
            0 <= e < self.ends.len() && !side.contains((#[trigger] self.ends[e]).0)
                && side.contains(self.ends[e].1) implies f[e] == 0 by {
            assert(self.has_node(self.ends[e].0) && self.has_node(self.ends[e].1));
            assert(reached[self.ends[e].1]);
            assert(node_closed(self, f, reached, self.ends[e].1));
        }
        self.lemma_cut_certifies(s, t, f, side);
    }
}

impl<N> Graph<N, i32> {
    /// The greatest value of a flow from `from` to `to`, where each edge
    /// carries at most its payload. The payloads are left as they are.
    ///
    /// An edge with a negative payload is refused, wherever it lies. A value
    /// that an `i32` cannot hold is refused as well. From a node to itself
    /// nothing flows.
    pub fn max_flow(&self, from: NodeRef, to: NodeRef) -> (r: Result<i32, FlowError>)
        requires
            self.wf(),
            self.has_node(from),
            self.has_node(to),
        ensures
            r == self@.max_flow_outcome(from@, to@),
            self@.answers(from@, to@, r),
            from@ == to@ && self@.capacities_valid() ==> r == Ok::<i32, FlowError>(0i32),
    {
        let ghost g = self@;
        if !self.capacities_valid() {
            return Err(FlowError::NegativeCapacity);
        }
        let s = from.position();
        let t = to.position();
        let m = self.edge_count();
        let mut flow: Vec<i32> = vec![0i32; m];
        proof {
            assert(amounts(flow@) =~= no_flow(m as nat));
            g.lemma_no_flow(s as int, t as int);
        }
        if s == t {
            proof {
                let zero = no_flow(m as nat);
                assert forall|other: Seq<int>| #[trigger]
                    g.is_flow(s as int, t as int, other) implies g.flow_value(s as int, other)
                    <= g.flow_value(s as int, zero) by {
                    g.lemma_same_ends(s as int, other);
                }
                assert(g.is_max_flow(s as int, t as int, zero));
                g.lemma_outcome(s as int, t as int, 0i32);
                g.lemma_max_flow_bounds(s as int, t as int, 0);
            }
            return Ok(0);
        }
        let incoming = self.incoming();
        let mut total: i32 = 0;
        loop
            invariant
                self.wf(),
                g == self@,
                g.capacities_valid(),
                s == from@,
                t == to@,
                s != t,
                s < g.nodes.len(),
                t < g.nodes.len(),
                incoming@.len() == g.nodes.len(),
                forall|v: int|
                    0 <= v < incoming@.len() ==> positions((#[trigger] incoming@[v])@) == in_list(
                        g.ends,
                        v,
                    ),
                flow@.len() == g.edges.len(),
                g.is_flow(s as int, t as int, amounts(flow@)),
                total == g.flow_value(s as int, amounts(flow@)),
                0 <= total,
            decreases i32::MAX - total,
        {
            let ghost f = amounts(flow@);
            proof {
                assert forall|e: int| 0 <= e < flow@.len() implies 0 <= (#[trigger] flow@[e])
                    <= g.edges[e] by {
                    assert(0 <= f[e] <= g.edges[e]);
                }
            }
            let found = self.search(&incoming, &flow, s, t);
            proof {
                found.lemma_sized(g, f, s as int);
            }
            if !found.reached[t] {
                proof {
                    g.lemma_search_certifies(s as int, t as int, f, found.reached@);
                    g.lemma_outcome(s as int, t as int, total);
                    g.lemma_max_flow_bounds(s as int, t as int, total as int);
                }
                return Ok(total);
            }
            let (steps, amount) = self.trace_back(&flow, &found, s, t);
            proof {
                g.lemma_augment(s as int, t as int, f, path_of(steps@), amount as int);
            }
            if amount > i32::MAX - total {
                proof {
                    let more = pushed(f, path_of(steps@), amount as int);
                    assert(g.is_flow(s as int, t as int, more) && g.flow_value(s as int, more)
                        > i32::MAX);
                }
                return Err(FlowError::ValueTooLarge);
            }
            proof {
                assert forall|e: int| 0 <= e < g.capacities().len() implies 0 <= (
                #[trigger] flow@[e]) <= g.capacities()[e] <= i32::MAX by {
                    assert(0 <= f[e] <= g.edges[e]);
                }
            }
            augment(&mut flow, &steps, amount, Ghost(g.capacities()));
            total = total + amount;
        }
    }

    /// The least capacity of a cut that parts `from` from `to`: the total
    /// payload of the edges that lead out of a set of nodes which holds
    /// `from` and not `to`. It is the greatest value of a flow, and is found
    /// as that.
    pub fn min_cut(&self, from: NodeRef, to: NodeRef) -> (r: Result<i32, FlowError>)
        requires
            self.wf(),
            self.has_node(from),
            self.has_node(to),
        ensures
            r == self@.max_flow_outcome(from@, to@),
            self@.answers(from@, to@, r),
            from@ == to@ && self@.capacities_valid() ==> r == Ok::<i32, FlowError>(0i32),
    {
        self.max_flow(from, to)
    }
}

} // verus!

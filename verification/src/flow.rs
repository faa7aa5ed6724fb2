//! Flows and cuts of a graph whose edges hold capacities: what they are, and
//! why no flow carries more than a cut lets through.

use crate::graph::GraphView;
use vstd::prelude::*;

verus! {

/// The total of `weight` over the edges of `ends` that leave `v`.
pub open spec fn out_sum(ends: Seq<(int, int)>, weight: Seq<int>, v: int) -> int
    decreases ends.len(),
{
    if ends.len() == 0 {
        0
    } else if ends.last().0 == v {
        out_sum(ends.drop_last(), weight, v) + weight[ends.len() - 1]
    } else {
        out_sum(ends.drop_last(), weight, v)
    }
}

/// The total of `weight` over the edges of `ends` that enter `v`.
pub open spec fn in_sum(ends: Seq<(int, int)>, weight: Seq<int>, v: int) -> int
    decreases ends.len(),
{
    if ends.len() == 0 {
        0
    } else if ends.last().1 == v {
        in_sum(ends.drop_last(), weight, v) + weight[ends.len() - 1]
    } else {
        in_sum(ends.drop_last(), weight, v)
    }
}

/// What leaves `v` less what enters it.
pub open spec fn net_out(ends: Seq<(int, int)>, weight: Seq<int>, v: int) -> int {
    out_sum(ends, weight, v) - in_sum(ends, weight, v)
}

/// The total of `weight` over the edges that lead from a node in `side` to a
/// node outside it.
pub open spec fn leaving(ends: Seq<(int, int)>, weight: Seq<int>, side: Set<int>) -> int
    decreases ends.len(),
{
    if ends.len() == 0 {
        0
    } else if side.contains(ends.last().0) && !side.contains(ends.last().1) {
        leaving(ends.drop_last(), weight, side) + weight[ends.len() - 1]
    } else {
        leaving(ends.drop_last(), weight, side)
    }
}

/// The total of `weight` over the edges that lead from a node outside `side`
/// to a node in it.
pub open spec fn entering(ends: Seq<(int, int)>, weight: Seq<int>, side: Set<int>) -> int
    decreases ends.len(),
{
    if ends.len() == 0 {
        0
    } else if !side.contains(ends.last().0) && side.contains(ends.last().1) {
        entering(ends.drop_last(), weight, side) + weight[ends.len() - 1]
    } else {
        entering(ends.drop_last(), weight, side)
    }
}

/// The total of `net_out` over the nodes below `k` that are in `side`.
pub open spec fn net_out_of(
    ends: Seq<(int, int)>,
    weight: Seq<int>,
    side: Set<int>,
    k: nat,
) -> int
    decreases k,
{
    if k == 0 {
        0
    } else if side.contains(k - 1) {
        net_out_of(ends, weight, side, (k - 1) as nat) + net_out(ends, weight, k - 1)
    } else {
        net_out_of(ends, weight, side, (k - 1) as nat)
    }
}

/// Why no maximum flow is given.
#[derive(Copy, Clone, PartialEq, Eq, Debug, Structural)]
pub enum FlowError {
    /// An edge holds a negative capacity.
    NegativeCapacity,
    /// Some flow carries more than an `i32` holds.
    ValueTooLarge,
}

impl<N> GraphView<N, i32> {
    /// The capacity of each edge: its payload.
    pub open spec fn capacities(self) -> Seq<int> {
        Seq::new(self.edges.len(), |e: int| self.edges[e] as int)
    }

    /// No edge has a negative capacity.
    pub open spec fn capacities_valid(self) -> bool {
        forall|e: int| 0 <= e < self.edges.len() ==> #[trigger] self.edges[e] >= 0
    }

    /// Whether `f` is a flow from `s` to `t`: it gives each edge an amount
    /// between nothing and its capacity, and at every node but `s` and `t`
    /// as much leaves as enters.
    pub open spec fn is_flow(self, s: int, t: int, f: Seq<int>) -> bool {
        &&& f.len() == self.edges.len()
        &&& forall|e: int| 0 <= e < f.len() ==> 0 <= #[trigger] f[e] <= self.edges[e]
        &&& forall|v: int|
            self.has_node(v) && v != s && v != t ==> #[trigger] net_out(self.ends, f, v) == 0
    }

    /// The value of the flow `f` from `s`: what leaves `s` less what comes
    /// back to it.
    pub open spec fn flow_value(self, s: int, f: Seq<int>) -> int {
        net_out(self.ends, f, s)
    }

    /// Whether `f` is a flow from `s` to `t` that no other exceeds in value.
    pub open spec fn is_max_flow(self, s: int, t: int, f: Seq<int>) -> bool {
        &&& self.is_flow(s, t, f)
        &&& forall|other: Seq<int>| #[trigger]
            self.is_flow(s, t, other) ==> self.flow_value(s, other) <= self.flow_value(s, f)
    }

    /// Whether `v` is the greatest value of a flow from `s` to `t`.
    pub open spec fn max_flow_is(self, s: int, t: int, v: int) -> bool {
        exists|f: Seq<int>| #[trigger] self.is_max_flow(s, t, f) && self.flow_value(s, f) == v
    }

    /// The greatest value of a flow from `s` to `t`.
    pub open spec fn max_flow_value(self, s: int, t: int) -> int {
        choose|v: int| self.max_flow_is(s, t, v)
    }

    /// What the flow solver answers for `s` and `t`: that an edge has a
    /// negative capacity; or else that some flow is too large for an `i32`;
    /// or else the greatest value of a flow.
    pub open spec fn max_flow_outcome(self, s: int, t: int) -> Result<i32, FlowError> {
        if !self.capacities_valid() {
            Err(FlowError::NegativeCapacity)
        } else if exists|f: Seq<int>| #[trigger]
            self.is_flow(s, t, f) && self.flow_value(s, f) > i32::MAX {
            Err(FlowError::ValueTooLarge)
        } else {
            Ok(self.max_flow_value(s, t) as i32)
        }
    }

    /// What an answer of the flow solver says: a value is the greatest value of
    /// a flow and, between two different nodes, the least capacity of a cut,
    /// and it is neither negative nor more than the edges out of `s` or the
    /// edges into `t` can hold; an error names what is wrong.
    pub open spec fn answers(self, s: int, t: int, r: Result<i32, FlowError>) -> bool {
        match r {
            Ok(v) => {
                &&& self.capacities_valid()
                &&& self.max_flow_is(s, t, v as int)
                &&& s != t ==> self.min_cut_is(s, t, v as int)
                &&& 0 <= v
                &&& v <= out_sum(self.ends, self.capacities(), s)
                &&& v <= in_sum(self.ends, self.capacities(), t)
            },
            Err(FlowError::NegativeCapacity) => !self.capacities_valid(),
            Err(FlowError::ValueTooLarge) => {
                &&& self.capacities_valid()
                &&& exists|f: Seq<int>| #[trigger]
                    self.is_flow(s, t, f) && self.flow_value(s, f) > i32::MAX
            },
        }
    }

    /// Whether `side` parts `s` from `t`: it holds `s` and not `t`.
    pub open spec fn is_cut(self, s: int, t: int, side: Set<int>) -> bool {
        side.contains(s) && !side.contains(t)
    }

    /// The capacity of the cut `side`: the total capacity of the edges that
    /// lead out of it.
    pub open spec fn cut_capacity(self, side: Set<int>) -> int {
        leaving(self.ends, self.capacities(), side)
    }

    /// Whether `c` is the least capacity of a cut that parts `s` from `t`.
    pub open spec fn min_cut_is(self, s: int, t: int, c: int) -> bool {
        exists|side: Set<int>|
            {
                &&& #[trigger] self.is_cut(s, t, side)
                &&& self.cut_capacity(side) == c
                &&& forall|other: Set<int>| #[trigger]
                    self.is_cut(s, t, other) ==> c <= self.cut_capacity(other)
            }
    }
}

/// Summed over the nodes of one side, what leaves the nodes less what enters
/// them is what leaves the side less what enters it: the edges that stay on
/// the side cancel.
pub proof fn lemma_net_out_of_side(
    ends: Seq<(int, int)>,
    weight: Seq<int>,
    side: Set<int>,
    n: nat,
)
    requires
        forall|e: int| 0 <= e < ends.len() ==> 0 <= (#[trigger] ends[e]).0 < n && 0 <= ends[e].1 < n,
    ensures
        net_out_of(ends, weight, side, n) == leaving(ends, weight, side) - entering(
            ends,
            weight,
            side,
        ),
    decreases ends.len(),
{
    if ends.len() == 0 {
        lemma_net_out_of_nothing(ends, weight, side, n);
    } else {
        let rest = ends.drop_last();
        assert forall|e: int| 0 <= e < rest.len() implies 0 <= (#[trigger] rest[e]).0 < n && 0
            <= rest[e].1 < n by {
            assert(rest[e] == ends[e]);
        }
        lemma_net_out_of_side(rest, weight, side, n);
        lemma_net_out_of_step(ends, weight, side, n);
        assert(0 <= ends[ends.len() - 1].0 < n && 0 <= ends[ends.len() - 1].1 < n);
    }
}

/// Without edges nothing leaves or enters any node.
proof fn lemma_net_out_of_nothing(ends: Seq<(int, int)>, weight: Seq<int>, side: Set<int>, k: nat)
    requires
        ends.len() == 0,
    ensures
        net_out_of(ends, weight, side, k) == 0,
    decreases k,
{
    if k > 0 {
        lemma_net_out_of_nothing(ends, weight, side, (k - 1) as nat);
    }
}

/// What the last edge adds to the total of `net_out` over the nodes of a
/// side below `k`.
proof fn lemma_net_out_of_step(ends: Seq<(int, int)>, weight: Seq<int>, side: Set<int>, k: nat)
    requires
        ends.len() > 0,
    ensures
        net_out_of(ends, weight, side, k) == net_out_of(ends.drop_last(), weight, side, k) + (if 0
            <= ends.last().0 < k && side.contains(ends.last().0) {
            weight[ends.len() - 1]
        } else {
            0
        }) - (if 0 <= ends.last().1 < k && side.contains(ends.last().1) {
            weight[ends.len() - 1]
        } else {
            0
        }),
    decreases k,
{
    if k > 0 {
        lemma_net_out_of_step(ends, weight, side, (k - 1) as nat);
    }
}

/// Where as much leaves as enters at every node of a side but `s`, what
/// leaves the nodes of the side less what enters them is the same for `s`
/// alone.
pub proof fn lemma_net_out_of_source(
    ends: Seq<(int, int)>,
    weight: Seq<int>,
    side: Set<int>,
    s: int,
    k: nat,
)
    requires
        side.contains(s),
        0 <= s,
        forall|v: int|
            0 <= v < k && side.contains(v) && v != s ==> #[trigger] net_out(ends, weight, v) == 0,
    ensures
        net_out_of(ends, weight, side, k) == (if s < k {
            net_out(ends, weight, s)
        } else {
            0
        }),
    decreases k,
{
    if k > 0 {
        lemma_net_out_of_source(ends, weight, side, s, (k - 1) as nat);
    }
}

/// What leaves a side under a flow is at most the capacity that leaves it,
/// and what enters it is not negative.
pub proof fn lemma_leaving_bounded(
    ends: Seq<(int, int)>,
    low: Seq<int>,
    high: Seq<int>,
    side: Set<int>,
)
    requires
        low.len() >= ends.len(),
        high.len() >= ends.len(),
        forall|e: int| 0 <= e < ends.len() ==> 0 <= #[trigger] low[e] <= high[e],
    ensures
        leaving(ends, low, side) <= leaving(ends, high, side),
        0 <= entering(ends, low, side),
        0 <= leaving(ends, low, side),
    decreases ends.len(),
{
    if ends.len() > 0 {
        lemma_leaving_bounded(ends.drop_last(), low, high, side);
    }
}

/// A flow that fills every edge out of a side and leaves every edge into it
/// empty sends the whole capacity of the side across.
pub proof fn lemma_leaving_saturated(
    ends: Seq<(int, int)>,
    f: Seq<int>,
    cap: Seq<int>,
    side: Set<int>,
)
    requires
        f.len() >= ends.len(),
        cap.len() >= ends.len(),
        forall|e: int|
            0 <= e < ends.len() && side.contains((#[trigger] ends[e]).0) && !side.contains(
                ends[e].1,
            ) ==> f[e] == cap[e],
        forall|e: int|
            0 <= e < ends.len() && !side.contains((#[trigger] ends[e]).0) && side.contains(
                ends[e].1,
            ) ==> f[e] == 0,
    ensures
        leaving(ends, f, side) == leaving(ends, cap, side),
        entering(ends, f, side) == 0,
    decreases ends.len(),
{
    if ends.len() > 0 {
        let rest = ends.drop_last();
        assert forall|e: int|
            0 <= e < rest.len() && side.contains((#[trigger] rest[e]).0) && !side.contains(
                rest[e].1,
            ) implies f[e] == cap[e] by {
            assert(rest[e] == ends[e]);
        }
        assert forall|e: int|
            0 <= e < rest.len() && !side.contains((#[trigger] rest[e]).0) && side.contains(
                rest[e].1,
            ) implies f[e] == 0 by {
            assert(rest[e] == ends[e]);
        }
        lemma_leaving_saturated(rest, f, cap, side);
        let e = ends.len() - 1;
        assert(ends[e] == ends.last());
    }
}

impl<N> GraphView<N, i32> {
    /// The value of a flow is what crosses a cut forwards less what crosses
    /// it backwards, whichever cut is taken.
    pub proof fn lemma_value_across_cut(self, s: int, t: int, f: Seq<int>, side: Set<int>)
        requires
            self.wf(),
            self.has_node(s),
            self.is_flow(s, t, f),
            side.contains(s),
            s == t || !side.contains(t),
        ensures
            self.flow_value(s, f) == leaving(self.ends, f, side) - entering(self.ends, f, side),
    {
        let n = self.nodes.len();
        assert forall|e: int| 0 <= e < self.ends.len() implies 0 <= (#[trigger] self.ends[e]).0
            < n && 0 <= self.ends[e].1 < n by {
            assert(self.has_node(self.ends[e].0) && self.has_node(self.ends[e].1));
        }
        lemma_net_out_of_side(self.ends, f, side, n);
        lemma_net_out_of_source(self.ends, f, side, s, n);
    }

    /// No flow carries more than a cut lets through.
    pub proof fn lemma_flow_below_cut(self, s: int, t: int, f: Seq<int>, side: Set<int>)
        requires
            self.wf(),
            self.has_node(s),
            self.is_flow(s, t, f),
            self.is_cut(s, t, side),
        ensures
            self.flow_value(s, f) <= self.cut_capacity(side),
    {
        self.lemma_value_across_cut(s, t, f, side);
        lemma_leaving_bounded(self.ends, f, self.capacities(), side);
    }
}

/// The flow that carries nothing.
pub open spec fn no_flow(m: nat) -> Seq<int> {
    Seq::new(m, |e: int| 0int)
}

/// Where every weight is nothing, so is every total.
pub proof fn lemma_no_flow_sums(ends: Seq<(int, int)>, m: nat, v: int)
    requires
        ends.len() <= m,
    ensures
        out_sum(ends, no_flow(m), v) == 0,
        in_sum(ends, no_flow(m), v) == 0,
    decreases ends.len(),
{
    if ends.len() > 0 {
        lemma_no_flow_sums(ends.drop_last(), m, v);
    }
}

/// Totals grow with the weights.
pub proof fn lemma_sums_bounded(ends: Seq<(int, int)>, low: Seq<int>, high: Seq<int>, v: int)
    requires
        low.len() >= ends.len(),
        high.len() >= ends.len(),
        forall|e: int| 0 <= e < ends.len() ==> 0 <= #[trigger] low[e] <= high[e],
    ensures
        0 <= out_sum(ends, low, v) <= out_sum(ends, high, v),
        0 <= in_sum(ends, low, v) <= in_sum(ends, high, v),
    decreases ends.len(),
{
    if ends.len() > 0 {
        lemma_sums_bounded(ends.drop_last(), low, high, v);
    }
}

/// What leaves the side of all nodes but `t` is at most what enters `t`.
pub proof fn lemma_leaving_all_but(ends: Seq<(int, int)>, weight: Seq<int>, t: int)
    requires
        weight.len() >= ends.len(),
        forall|e: int| 0 <= e < ends.len() ==> 0 <= #[trigger] weight[e],
    ensures
        leaving(ends, weight, Set::new(|v: int| v != t)) <= in_sum(ends, weight, t),
    decreases ends.len(),
{
    if ends.len() > 0 {
        lemma_leaving_all_but(ends.drop_last(), weight, t);
    }
}

/// Nothing leaves or enters the side that holds every node.
pub proof fn lemma_nothing_crosses_all(ends: Seq<(int, int)>, weight: Seq<int>)
    ensures
        leaving(ends, weight, Set::full()) == 0,
        entering(ends, weight, Set::full()) == 0,
    decreases ends.len(),
{
    if ends.len() > 0 {
        lemma_nothing_crosses_all(ends.drop_last(), weight);
    }
}

impl<N> GraphView<N, i32> {
    /// The flow that carries nothing is a flow, of value nothing.
    pub proof fn lemma_no_flow(self, s: int, t: int)
        requires
            self.wf(),
            self.capacities_valid(),
        ensures
            self.is_flow(s, t, no_flow(self.edges.len())),
            self.flow_value(s, no_flow(self.edges.len())) == 0,
    {
        let zero = no_flow(self.edges.len());
        assert forall|v: int| self.has_node(v) && v != s && v != t implies #[trigger] net_out(
            self.ends,
            zero,
            v,
        ) == 0 by {
            lemma_no_flow_sums(self.ends, self.edges.len(), v);
        }
        lemma_no_flow_sums(self.ends, self.edges.len(), s);
    }

    /// The greatest value of a flow is one number.
    pub proof fn lemma_max_flow_unique(self, s: int, t: int, a: int, b: int)
        requires
            self.max_flow_is(s, t, a),
            self.max_flow_is(s, t, b),
        ensures
            a == b,
    {
        let f = choose|f: Seq<int>| #[trigger] self.is_max_flow(s, t, f) && self.flow_value(s, f) == a;
        let g = choose|g: Seq<int>| #[trigger] self.is_max_flow(s, t, g) && self.flow_value(s, g) == b;
        assert(self.is_flow(s, t, f));
        assert(self.is_flow(s, t, g));
    }

    /// Where the greatest value of a flow fits an `i32`, it is the answer.
    pub proof fn lemma_outcome(self, s: int, t: int, v: i32)
        requires
            self.capacities_valid(),
            self.max_flow_is(s, t, v as int),
        ensures
            self.max_flow_outcome(s, t) == Ok::<i32, FlowError>(v),
            self.max_flow_value(s, t) == v,
    {
        self.lemma_max_flow_unique(s, t, v as int, self.max_flow_value(s, t));
        let best = choose|f: Seq<int>| #[trigger]
            self.is_max_flow(s, t, f) && self.flow_value(s, f) == v;
        assert forall|f: Seq<int>| #[trigger] self.is_flow(s, t, f) implies self.flow_value(s, f)
            <= i32::MAX by {
            assert(self.flow_value(s, f) <= self.flow_value(s, best));
        }
    }

    /// A flow that fills every edge out of a cut and leaves every edge into
    /// it empty is a greatest flow, and the cut is a least cut: both have the
    /// value of the flow.
    pub proof fn lemma_cut_certifies(self, s: int, t: int, f: Seq<int>, side: Set<int>)
        requires
            self.wf(),
            self.has_node(s),
            self.is_flow(s, t, f),
            self.is_cut(s, t, side),
            forall|e: int|
                0 <= e < self.ends.len() && side.contains((#[trigger] self.ends[e]).0)
                    && !side.contains(self.ends[e].1) ==> f[e] == self.edges[e],
            forall|e: int|
                0 <= e < self.ends.len() && !side.contains((#[trigger] self.ends[e]).0)
                    && side.contains(self.ends[e].1) ==> f[e] == 0,
        ensures
            self.cut_capacity(side) == self.flow_value(s, f),
            self.is_max_flow(s, t, f),
            self.max_flow_is(s, t, self.flow_value(s, f)),
            self.min_cut_is(s, t, self.flow_value(s, f)),
    {
        self.lemma_value_across_cut(s, t, f, side);
        lemma_leaving_saturated(self.ends, f, self.capacities(), side);
        assert forall|other: Seq<int>| #[trigger] self.is_flow(s, t, other) implies self.flow_value(
            s,
            other,
        ) <= self.flow_value(s, f) by {
            self.lemma_flow_below_cut(s, t, other, side);
        }
        assert(self.is_max_flow(s, t, f));
        assert forall|other: Set<int>| #[trigger] self.is_cut(s, t, other) implies self.flow_value(
            s,
            f,
        ) <= self.cut_capacity(other) by {
            self.lemma_flow_below_cut(s, t, f, other);
        }
    }

    /// Between a node and itself every flow has the value nothing.
    pub proof fn lemma_same_ends(self, s: int, f: Seq<int>)
        requires
            self.wf(),
            self.has_node(s),
            self.is_flow(s, s, f),
        ensures
            self.flow_value(s, f) == 0,
    {
        self.lemma_value_across_cut(s, s, f, Set::full());
        lemma_nothing_crosses_all(self.ends, f);
    }

    /// No flow from `s` to `t` carries more than the edges that leave `s`
    /// can hold, nor more than the edges that enter `t` can hold.
    pub proof fn lemma_flow_bounds(self, s: int, t: int, f: Seq<int>)
        requires
            self.wf(),
            self.has_node(s),
            self.has_node(t),
            self.is_flow(s, t, f),
        ensures
            self.flow_value(s, f) <= out_sum(self.ends, self.capacities(), s),
            self.flow_value(s, f) <= in_sum(self.ends, self.capacities(), t),
    {
        lemma_sums_bounded(self.ends, f, self.capacities(), s);
        lemma_sums_bounded(self.ends, f, self.capacities(), t);
        if s == t {
            self.lemma_same_ends(s, f);
        } else {
            let side = Set::new(|v: int| v != t);
            self.lemma_value_across_cut(s, t, f, side);
            lemma_leaving_all_but(self.ends, f, t);
            lemma_leaving_bounded(self.ends, f, self.capacities(), side);
        }
    }

    /// The greatest value of a flow from `s` to `t` is not negative, and it
    /// is no more than the edges that leave `s` can hold, nor more than the
    /// edges that enter `t` can hold.
    pub proof fn lemma_max_flow_bounds(self, s: int, t: int, v: int)
        requires
            self.wf(),
            self.has_node(s),
            self.has_node(t),
            self.max_flow_is(s, t, v),
        ensures
            0 <= v,
            v <= out_sum(self.ends, self.capacities(), s),
            v <= in_sum(self.ends, self.capacities(), t),
    {
        let f = choose|f: Seq<int>| #[trigger] self.is_max_flow(s, t, f) && self.flow_value(s, f) == v;
        self.lemma_flow_bounds(s, t, f);
        assert forall|e: int| 0 <= e < self.edges.len() implies #[trigger] self.edges[e] >= 0 by {
            assert(0 <= f[e] <= self.edges[e]);
        }
        self.lemma_no_flow(s, t);
        assert(self.is_flow(s, t, no_flow(self.edges.len())));
    }
}

} // verus!

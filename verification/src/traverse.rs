//! What the two walks have in common: the record of a walk and the marks that
//! tell which nodes it has seen.

use crate::graph::GraphView;
use crate::handle::EdgeRef;
use crate::handle::NodeRef;
use vstd::prelude::*;

verus! {

/// One call of a visitor during a walk.
pub enum Visit {
    /// The node visitor was called for the node at this position.
    Node(int),
    /// The edge visitor was called for the edge at this position.
    Edge(int),
}

/// A walk, or a part of one: the visitor calls it makes, in order, and the
/// marks it leaves behind.
pub struct Run {
    /// The visitor calls, first to last.
    pub trace: Seq<Visit>,
    /// For each node, whether the walk has seen it.
    pub marks: Seq<bool>,
}

/// No node is marked.
pub open spec fn no_marks(n: nat) -> Seq<bool> {
    Seq::new(n, |i: int| false)
}

/// The number of nodes that `marks` does not mark.
pub open spec fn unmarked(marks: Seq<bool>) -> nat
    decreases marks.len(),
{
    if marks.len() == 0 {
        0
    } else if marks.last() {
        unmarked(marks.drop_last())
    } else {
        unmarked(marks.drop_last()) + 1
    }
}

/// The positions of the nodes in `trace`, in the order of their visits.
pub open spec fn node_visits(trace: Seq<Visit>) -> Seq<int>
    decreases trace.len(),
{
    if trace.len() == 0 {
        Seq::empty()
    } else {
        match trace.last() {
            Visit::Node(u) => node_visits(trace.drop_last()).push(u),
            Visit::Edge(_) => node_visits(trace.drop_last()),
        }
    }
}

/// The positions of the edges in `trace`, in the order of their visits.
pub open spec fn edge_visits(trace: Seq<Visit>) -> Seq<int>
    decreases trace.len(),
{
    if trace.len() == 0 {
        Seq::empty()
    } else {
        match trace.last() {
            Visit::Node(_) => edge_visits(trace.drop_last()),
            Visit::Edge(e) => edge_visits(trace.drop_last()).push(e),
        }
    }
}

/// Whether `v` is marked by `after` and was not by `before`.
pub open spec fn fresh(before: Seq<bool>, after: Seq<bool>, v: int) -> bool {
    0 <= v < after.len() && after[v] && !before[v]
}

/// Marking a node that was not marked leaves one node fewer unmarked.
pub proof fn lemma_mark_one(marks: Seq<bool>, u: int)
    requires
        0 <= u < marks.len(),
        !marks[u],
    ensures
        unmarked(marks.update(u, true)) + 1 == unmarked(marks),
    decreases marks.len(),
{
    let after = marks.update(u, true);
    if u == marks.len() - 1 {
        assert(after.drop_last() =~= marks.drop_last());
    } else {
        lemma_mark_one(marks.drop_last(), u);
        assert(after.drop_last() =~= marks.drop_last().update(u, true));
    }
}

/// The node visits of two traces in a row are those of the first and then
/// those of the second, and so are the edge visits.
pub proof fn lemma_visits_concat(a: Seq<Visit>, b: Seq<Visit>)
    ensures
        node_visits(a + b) == node_visits(a) + node_visits(b),
        edge_visits(a + b) == edge_visits(a) + edge_visits(b),
    decreases b.len(),
{
    if b.len() == 0 {
        assert(a + b =~= a);
        assert(node_visits(a) + node_visits(b) =~= node_visits(a));
        assert(edge_visits(a) + edge_visits(b) =~= edge_visits(a));
    } else {
        lemma_visits_concat(a, b.drop_last());
        assert((a + b).drop_last() =~= a + b.drop_last());
        assert((a + b).last() == b.last());
        match b.last() {
            Visit::Node(u) => {
                assert(node_visits(a + b) =~= node_visits(a) + node_visits(b));
            },
            Visit::Edge(e) => {
                assert(edge_visits(a + b) =~= edge_visits(a) + edge_visits(b));
            },
        }
    }
}

/// The visits of a trace of one call.
pub proof fn lemma_visits_one(v: Visit)
    ensures
        node_visits(seq![v]) == (match v {
            Visit::Node(u) => seq![u],
            Visit::Edge(_) => Seq::empty(),
        }),
        edge_visits(seq![v]) == (match v {
            Visit::Node(_) => Seq::empty(),
            Visit::Edge(e) => seq![e],
        }),
{
    let one = seq![v];
    assert(one.drop_last() =~= Seq::empty());
    assert(one.last() == v);
    assert(node_visits(one.drop_last()) =~= Seq::empty());
    assert(edge_visits(one.drop_last()) =~= Seq::empty());
    match v {
        Visit::Node(u) => {
            assert(node_visits(one) =~= seq![u]);
        },
        Visit::Edge(e) => {
            assert(edge_visits(one) =~= seq![e]);
        },
    }
}

/// What two sequences in a row hold is what either of them holds.
pub proof fn lemma_concat_contains<A>(a: Seq<A>, b: Seq<A>, x: A)
    ensures
        (a + b).contains(x) <==> a.contains(x) || b.contains(x),
{
    if (a + b).contains(x) {
        let k = choose|k: int| 0 <= k < (a + b).len() && (a + b)[k] == x;
        if k < a.len() {
            assert(a[k] == x);
        } else {
            assert(b[k - a.len()] == x);
        }
    }
    if a.contains(x) {
        let k = choose|k: int| 0 <= k < a.len() && a[k] == x;
        assert((a + b)[k] == x);
    }
    if b.contains(x) {
        let k = choose|k: int| 0 <= k < b.len() && b[k] == x;
        assert((a + b)[a.len() + k] == x);
    }
}

/// Two sequences without duplicates that share nothing make one without
/// duplicates.
pub proof fn lemma_concat_distinct<A>(a: Seq<A>, b: Seq<A>)
    requires
        a.no_duplicates(),
        b.no_duplicates(),
        forall|x: A| a.contains(x) ==> !b.contains(x),
    ensures
        (a + b).no_duplicates(),
{
    assert forall|i: int, j: int| 0 <= i < a.len() && 0 <= j < b.len() implies a[i] != b[j] by {
        assert(a.contains(a[i]));
        assert(b.contains(b[j]));
    }
    vstd::seq_lib::lemma_no_dup_in_concat(a, b);
}

/// Whether the node visitor `f` has done its work on each node of `visits`:
/// what a call of `f` with the handle of the node and its payload ensures,
/// holds.
pub open spec fn nodes_served<N, E, F: FnMut(NodeRef, &N)>(
    g: GraphView<N, E>,
    f: F,
    visits: Seq<int>,
) -> bool {
    forall|r: NodeRef|
        g.has_node(r@) && #[trigger] visits.contains(r@) ==> call_ensures(f, (r, &g.nodes[r@]), ())
}

/// Whether the edge visitor `f` has done its work on each edge of `visits`:
/// what a call of `f` with the handle of the edge and its payload ensures,
/// holds.
pub open spec fn edges_served<N, E, F: FnMut(EdgeRef, &E)>(
    g: GraphView<N, E>,
    f: F,
    visits: Seq<int>,
) -> bool {
    forall|r: EdgeRef|
        g.has_edge(r@) && #[trigger] visits.contains(r@) ==> call_ensures(f, (r, &g.edges[r@]), ())
}

/// The visits of a trace with one more call.
pub proof fn lemma_visits_push(trace: Seq<Visit>, v: Visit)
    ensures
        node_visits(trace.push(v)) == (match v {
            Visit::Node(u) => node_visits(trace).push(u),
            Visit::Edge(_) => node_visits(trace),
        }),
        edge_visits(trace.push(v)) == (match v {
            Visit::Node(_) => edge_visits(trace),
            Visit::Edge(e) => edge_visits(trace).push(e),
        }),
{
    assert(trace.push(v).drop_last() =~= trace);
}

/// A visitor that has served some nodes and now one more has served them
/// all.
pub proof fn lemma_node_served<N, E, F: FnMut(NodeRef, &N)>(
    g: GraphView<N, E>,
    f: F,
    visits: Seq<int>,
    r: NodeRef,
)
    requires
        nodes_served(g, f, visits),
        call_ensures(f, (r, &g.nodes[r@]), ()),
    ensures
        nodes_served(g, f, visits.push(r@)),
{
    assert forall|x: NodeRef| g.has_node(x@) && #[trigger] visits.push(r@).contains(x@) implies call_ensures(
        f,
        (x, &g.nodes[x@]),
        (),
    ) by {
        let k = choose|k: int| 0 <= k < visits.push(r@).len() && visits.push(r@)[k] == x@;
        if k < visits.len() {
            assert(visits[k] == x@);
            assert(visits.contains(x@));
        } else {
            NodeRef::lemma_position(x, r);
        }
    }
}

/// A visitor that has served some edges and now one more has served them
/// all.
pub proof fn lemma_edge_served<N, E, F: FnMut(EdgeRef, &E)>(
    g: GraphView<N, E>,
    f: F,
    visits: Seq<int>,
    r: EdgeRef,
)
    requires
        edges_served(g, f, visits),
        call_ensures(f, (r, &g.edges[r@]), ()),
    ensures
        edges_served(g, f, visits.push(r@)),
{
    assert forall|x: EdgeRef| g.has_edge(x@) && #[trigger] visits.push(r@).contains(x@) implies call_ensures(
        f,
        (x, &g.edges[x@]),
        (),
    ) by {
        let k = choose|k: int| 0 <= k < visits.push(r@).len() && visits.push(r@)[k] == x@;
        if k < visits.len() {
            assert(visits[k] == x@);
            assert(visits.contains(x@));
        } else {
            EdgeRef::lemma_position(x, r);
        }
    }
}

} // verus!

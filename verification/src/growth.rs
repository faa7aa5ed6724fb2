//! Building a graph step by step, and what every step keeps.

use crate::graph::lemma_out_list_foreign;
use crate::graph::lemma_with_edge_wf;
use crate::graph::GraphView;
use vstd::prelude::*;

verus! {

/// One step of building a graph.
pub enum Addition<N, E> {
    /// A new node with its payload.
    Node(N),
    /// A new edge with its source, its destination and its payload.
    Edge(int, int, E),
}

impl<N, E> GraphView<N, E> {
    /// Whether `step` may be taken on this graph: an edge joins nodes that
    /// the graph has.
    pub open spec fn admits(self, step: Addition<N, E>) -> bool {
        match step {
            Addition::Node(_) => true,
            Addition::Edge(from, to, _) => self.has_node(from) && self.has_node(to),
        }
    }

    /// The graph after `step`.
    pub open spec fn grown(self, step: Addition<N, E>) -> Self {
        match step {
            Addition::Node(n) => self.with_node(n),
            Addition::Edge(from, to, e) => self.with_edge(from, to, e),
        }
    }

    /// Whether the steps may be taken one after the other, starting here.
    pub open spec fn admits_all(self, steps: Seq<Addition<N, E>>) -> bool
        decreases steps.len(),
    {
        steps.len() > 0 ==> self.admits_all(steps.drop_last()) && self.grown_by(
            steps.drop_last(),
        ).admits(steps.last())
    }

    /// The graph after all of `steps`, taken in order.
    pub open spec fn grown_by(self, steps: Seq<Addition<N, E>>) -> Self
        decreases steps.len(),
    {
        if steps.len() == 0 {
            self
        } else {
            self.grown_by(steps.drop_last()).grown(steps.last())
        }
    }
}

/// Handles stay good: whatever is added to a graph afterwards, each node and
/// each edge that it had keeps its position, its payload and its two ends,
/// and each adjacency list keeps its entries at their places.
pub proof fn lemma_handles_stable<N, E>(g: GraphView<N, E>, steps: Seq<Addition<N, E>>)
    requires
        g.wf(),
        g.admits_all(steps),
    ensures
        g.grown_by(steps).wf(),
        g.nodes.len() <= g.grown_by(steps).nodes.len(),
        g.edges.len() <= g.grown_by(steps).edges.len(),
        forall|u: int| g.has_node(u) ==> g.grown_by(steps).nodes[u] == g.nodes[u],
        forall|e: int| g.has_edge(e) ==> g.grown_by(steps).edges[e] == g.edges[e],
        forall|e: int| g.has_edge(e) ==> g.grown_by(steps).ends[e] == g.ends[e],
        forall|u: int|
            g.has_node(u) ==> g.adjacency[u].is_prefix_of(#[trigger] g.grown_by(steps).adjacency[u]),
    decreases steps.len(),
{
    if steps.len() > 0 {
        let before = g.grown_by(steps.drop_last());
        lemma_handles_stable(g, steps.drop_last());
        match steps.last() {
            Addition::Node(n) => {
                assert(before.with_node(n).wf()) by {
                    lemma_out_list_foreign(before.ends, before.nodes.len() as int);
                }
            },
            Addition::Edge(from, to, e) => {
                lemma_with_edge_wf(before, from, to, e);
            },
        }
    }
}

/// Whatever is built from the empty graph, step by step, is a graph whose
/// arenas agree.
pub proof fn lemma_built_wf<N, E>(steps: Seq<Addition<N, E>>)
    requires
        GraphView::<N, E>::empty().admits_all(steps),
    ensures
        GraphView::<N, E>::empty().grown_by(steps).wf(),
{
    lemma_handles_stable(GraphView::<N, E>::empty(), steps);
}

} // verus!

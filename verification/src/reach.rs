//! Which nodes can be reached from which, and how far away they are.

use crate::graph::lemma_listed_is_edge;
use crate::graph::lemma_out_list_has;
use crate::graph::out_list;
use crate::graph::GraphView;
use vstd::prelude::*;

verus! {

impl<N, E> GraphView<N, E> {
    /// Whether some walk of exactly `k` edges leads from `a` to `v`.
    pub open spec fn walk_of(self, a: int, v: int, k: nat) -> bool
        decreases k,
    {
        if k == 0 {
            v == a
        } else {
            exists|e: int|
                self.has_edge(e) && #[trigger] self.target(e) == v && self.walk_of(
                    a,
                    self.source(e),
                    (k - 1) as nat,
                )
        }
    }

    /// Whether some walk leads from `a` to `v`.
    pub open spec fn reachable(self, a: int, v: int) -> bool {
        exists|k: nat| self.walk_of(a, v, k)
    }

    /// Whether the shortest walk from `a` to `v` has `k` edges.
    pub open spec fn is_distance(self, a: int, v: int, k: nat) -> bool {
        &&& self.walk_of(a, v, k)
        &&& forall|j: nat| j < k ==> !self.walk_of(a, v, j)
    }

    /// The number of edges of the shortest walk from `a` to `v`, where `v`
    /// can be reached from `a`.
    pub open spec fn distance(self, a: int, v: int) -> nat {
        choose|k: nat| self.is_distance(a, v, k)
    }

    /// Whether `marks` marks every neighbour of `w`.
    pub open spec fn settled(self, marks: Seq<bool>, w: int) -> bool {
        forall|i: int|
            0 <= i < self.adjacency[w].len() ==> marks[(#[trigger] self.adjacency[w][i]).0]
    }

    /// A walk can be made one edge longer.
    pub proof fn lemma_walk_on(self, a: int, e: int, k: nat)
        requires
            self.has_edge(e),
            self.walk_of(a, self.source(e), k),
        ensures
            self.walk_of(a, self.target(e), k + 1),
            self.reachable(a, self.target(e)),
    {
        assert(self.walk_of(a, self.target(e), (k + 1) as nat));
    }

    /// What can be reached from a reachable node can be reached.
    pub proof fn lemma_reach_on(self, a: int, e: int)
        requires
            self.has_edge(e),
            self.reachable(a, self.source(e)),
        ensures
            self.reachable(a, self.target(e)),
    {
        let k = choose|k: nat| self.walk_of(a, self.source(e), k);
        self.lemma_walk_on(a, e, k);
    }

    /// A set of marks that holds `a` and, with each node, its neighbours,
    /// holds every node that a walk from `a` leads to.
    pub proof fn lemma_closed_marks(self, marks: Seq<bool>, a: int, v: int, k: nat)
        requires
            self.wf(),
            marks.len() == self.nodes.len(),
            self.has_node(a),
            marks[a],
            forall|w: int| 0 <= w < marks.len() && #[trigger] marks[w] ==> self.settled(marks, w),
            self.walk_of(a, v, k),
        ensures
            self.has_node(v),
            marks[v],
        decreases k,
    {
        if k > 0 {
            let e = choose|e: int|
                self.has_edge(e) && #[trigger] self.target(e) == v && self.walk_of(
                    a,
                    self.source(e),
                    (k - 1) as nat,
                );
            let u = self.source(e);
            self.lemma_closed_marks(marks, a, u, (k - 1) as nat);
            lemma_out_list_has(self.ends, e);
            assert(self.adjacency[u] == out_list(self.ends, u));
            let i = choose|i: int|
                0 <= i < self.adjacency[u].len() && self.adjacency[u][i] == (v, e);
            assert(self.settled(marks, u));
            assert(marks[self.adjacency[u][i].0]);
            lemma_listed_is_edge(self, u, i);
        }
    }

    /// Where a walk leads from `a` to `v`, a shortest one does, and it is no
    /// longer than that walk.
    pub proof fn lemma_distance(self, a: int, v: int, k: nat)
        requires
            self.walk_of(a, v, k),
        ensures
            self.is_distance(a, v, self.distance(a, v)),
            self.distance(a, v) <= k,
        decreases k,
    {
        if exists|j: nat| j < k && self.walk_of(a, v, j) {
            let j = choose|j: nat| j < k && self.walk_of(a, v, j);
            self.lemma_distance(a, v, j);
        } else {
            assert(self.is_distance(a, v, k));
        }
        let d = self.distance(a, v);
        if d > k {
            assert(!self.walk_of(a, v, k));
        }
    }

    /// A node that can be reached has a distance.
    pub proof fn lemma_reachable_distance(self, a: int, v: int)
        requires
            self.reachable(a, v),
        ensures
            self.is_distance(a, v, self.distance(a, v)),
    {
        let k = choose|k: nat| self.walk_of(a, v, k);
        self.lemma_distance(a, v, k);
    }

    /// A node is at distance nothing from itself, and no other node is.
    pub proof fn lemma_distance_none(self, a: int, v: int)
        ensures
            self.reachable(a, a),
            self.distance(a, a) == 0,
            self.reachable(a, v) && self.distance(a, v) == 0 ==> v == a,
    {
        assert(self.walk_of(a, a, 0));
        self.lemma_distance(a, a, 0);
        if self.reachable(a, v) {
            self.lemma_reachable_distance(a, v);
        }
    }

    /// An edge leads at most one step further away.
    pub proof fn lemma_distance_on(self, a: int, e: int)
        requires
            self.has_edge(e),
            self.reachable(a, self.source(e)),
        ensures
            self.reachable(a, self.target(e)),
            self.distance(a, self.target(e)) <= self.distance(a, self.source(e)) + 1,
    {
        self.lemma_reachable_distance(a, self.source(e));
        let d = self.distance(a, self.source(e));
        self.lemma_walk_on(a, e, d);
        self.lemma_distance(a, self.target(e), d + 1);
    }

    /// A node at distance `k + 1` is entered by an edge from a node at
    /// distance `k`.
    pub proof fn lemma_distance_before(self, a: int, v: int, k: nat) -> (e: int)
        requires
            self.reachable(a, v),
            self.distance(a, v) == k + 1,
        ensures
            self.has_edge(e),
            self.target(e) == v,
            self.reachable(a, self.source(e)),
            self.distance(a, self.source(e)) == k,
    {
        self.lemma_reachable_distance(a, v);
        let e = choose|e: int|
            self.has_edge(e) && #[trigger] self.target(e) == v && self.walk_of(
                a,
                self.source(e),
                k,
            );
        let u = self.source(e);
        self.lemma_distance(a, u, k);
        let d = self.distance(a, u);
        if d < k {
            self.lemma_walk_on(a, e, d);
            assert(self.walk_of(a, v, (d + 1) as nat));
        }
        e
    }
}

} // verus!

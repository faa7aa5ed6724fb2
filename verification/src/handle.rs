//! Handles: copyable positions in the node arena and in the edge arena.

use vstd::prelude::*;

verus! {

/// Identifies one node of a graph by its position in the node arena.
#[derive(Copy, Clone, PartialEq, Eq, Hash, Debug, Structural)]
pub struct NodeRef {
    idx: usize,
}

/// Identifies one directed edge of a graph by its position in the edge arena.
#[derive(Copy, Clone, PartialEq, Eq, Hash, Debug, Structural)]
pub struct EdgeRef {
    idx: usize,
}

impl View for NodeRef {
    type V = int;

    /// The position that the handle stands for.
    closed spec fn view(&self) -> int {
        self.idx as int
    }
}

impl View for EdgeRef {
    type V = int;

    /// The position that the handle stands for.
    closed spec fn view(&self) -> int {
        self.idx as int
    }
}

impl NodeRef {
    pub(crate) fn at(idx: usize) -> (r: NodeRef)
        ensures
            r@ == idx,
    {
        NodeRef { idx }
    }

    pub(crate) fn position(self) -> (i: usize)
        ensures
            i == self@,
    {
        self.idx
    }

    /// A handle is nothing but its position: two handles of one position are
    /// the same handle, and every position fits a machine word.
    pub proof fn lemma_position(a: NodeRef, b: NodeRef)
        ensures
            0 <= a@ <= usize::MAX,
            a@ == b@ <==> a == b,
    {
    }
}

impl EdgeRef {
    pub(crate) fn at(idx: usize) -> (r: EdgeRef)
        ensures
            r@ == idx,
    {
        EdgeRef { idx }
    }

    pub(crate) fn position(self) -> (i: usize)
        ensures
            i == self@,
    {
        self.idx
    }

    /// A handle is nothing but its position: two handles of one position are
    /// the same handle, and every position fits a machine word.
    pub proof fn lemma_position(a: EdgeRef, b: EdgeRef)
        ensures
            0 <= a@ <= usize::MAX,
            a@ == b@ <==> a == b,
    {
    }
}

} // verus!

//! The search tree: a growth-only arena of nodes addressed by stable
//! integer indices, plus an ordered list of child indices per node.
//!
//! Index 0 is always the root. A child is created after its parent, so a
//! child's index is strictly greater than its parent's; this makes every
//! downward walk strictly increase the index, which bounds its length.

use vstd::prelude::*;

verus! {

/// One tree node: the move that led here from the parent, and the
/// statistics that backpropagation accumulates.
pub struct McNode<M> {
    pub placement_move: M,
    pub score: i64,
    pub visits: u64,
}

/// Growth-only arena of nodes with the parent-to-children relation.
pub struct MctsTree<M> {
    pub nodes: Vec<McNode<M>>,
    pub children: Vec<Vec<usize>>,
}

impl<M> MctsTree<M> {
    /// Structural invariant: one child list per node, a root exists,
    /// every child index points past its parent and into the arena, and
    /// no index is anyone's child twice — every node except the root
    /// has exactly one parent, fixed at creation.
    pub open spec fn wf(&self) -> bool {
        &&& self.nodes@.len() == self.children@.len()
        &&& self.nodes@.len() >= 1
        &&& forall|i: int, j: int|
            0 <= i < self.children@.len() && 0 <= j < self.children@[i]@.len()
                ==> i < #[trigger] self.children@[i]@[j] < self.nodes@.len()
        &&& forall|i: int, j: int, k: int, l: int|
            0 <= i < self.children@.len() && 0 <= j < self.children@[i]@.len() && 0 <= k
                < self.children@.len() && 0 <= l < self.children@[k]@.len() && (
            #[trigger] self.children@[i]@[j]) == (#[trigger] self.children@[k]@[l]) ==> i == k
                && j == l
    }

    /// Number of nodes in the arena.
    pub fn len(&self) -> (n: usize)
        ensures
            n == self.nodes@.len(),
    {
        self.nodes.len()
    }

    /// A fresh tree holding only the root, which carries the placeholder
    /// move for the position before any move under consideration.
    pub fn new(placeholder: M) -> (t: Self)
        ensures
            t.wf(),
            t.nodes@.len() == 1,
            t.nodes@[0].placement_move == placeholder,
            t.nodes@[0].score == 0,
            t.nodes@[0].visits == 0,
            t.children@[0]@.len() == 0,
    {
        let mut nodes: Vec<McNode<M>> = Vec::new();
        nodes.push(McNode { placement_move: placeholder, score: 0, visits: 0 });
        let mut children: Vec<Vec<usize>> = Vec::new();
        children.push(Vec::new());
        MctsTree { nodes, children }
    }

    /// Appends a fresh node (zero visits, zero score) as the last child of
    /// `node` and returns its index; returns `None`, changing nothing, if
    /// `node` is out of range. Existing nodes, their statistics and the
    /// order of existing children are untouched.
    pub fn add_child(&mut self, node: usize, placement_move: M) -> (r: Option<usize>)
        requires
            old(self).wf(),
        ensures
            final(self).wf(),
            node >= old(self).nodes@.len() ==> r is None && *final(self) == *old(self),
            node < old(self).nodes@.len() ==> (r matches Some(id) && {
                &&& id == old(self).nodes@.len()
                &&& final(self).nodes@ == old(self).nodes@.push(
                    McNode { placement_move, score: 0, visits: 0 },
                )
                &&& final(self).children@.len() == old(self).children@.len() + 1
                &&& final(self).children@[node as int]@ == old(self).children@[node as int]@.push(
                    id,
                )
                &&& forall|i: int|
                    0 <= i < old(self).children@.len() && i != node
                        ==> final(self).children@[i]@ == #[trigger] old(self).children@[i]@
                &&& final(self).children@[id as int]@.len() == 0
            }),
    {
        if node < self.nodes.len() {
            let id: usize = self.nodes.len();
            self.children[node].push(id);
            self.nodes.push(McNode { placement_move, score: 0, visits: 0 });
            self.children.push(Vec::new());
            Some(id)
        } else {
            None
        }
    }

    /// The child indices of `node`, in creation order; `None` if `node` is
    /// out of range.
    pub fn children_of(&self, node: usize) -> (r: Option<Vec<usize>>)
        ensures
            node < self.children@.len() ==> (r matches Some(v) && v@ == self.children@[
                node as int
            ]@),
            node >= self.children@.len() ==> r is None,
    {
        if node < self.children.len() {
            let list = &self.children[node];
            let mut out: Vec<usize> = Vec::new();
            let mut i: usize = 0;
            while i < list.len()
                invariant
                    i <= list@.len(),
                    out@ == list@.subrange(0, i as int),
                decreases list@.len() - i,
            {
                out.push(list[i]);
                i = i + 1;
            }
            proof {
                assert(out@ == list@.subrange(0, list@.len() as int));
                assert(list@.subrange(0, list@.len() as int) == list@);
            }
            Some(out)
        } else {
            None
        }
    }

    /// A reference to the node at `index`; `None` if out of range.
    pub fn node(&self, index: usize) -> (r: Option<&McNode<M>>)
        ensures
            index < self.nodes@.len() ==> (r matches Some(n) && *n == self.nodes@[index as int]),
            index >= self.nodes@.len() ==> r is None,
    {
        if index < self.nodes.len() {
            Some(&self.nodes[index])
        } else {
            None
        }
    }
}

} // verus!

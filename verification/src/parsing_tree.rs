//! The schema as it is parsed against: a flat sequence of nodes in which the
//! children of a node are neighbours, literals first.

use crate::node::Node;
use std::ops::Range;
use vstd::prelude::*;

verus! {

/// A schema node with the positions of its children.
#[derive(Debug)]
pub struct ParsingNode {
    pub node: Node,
    pub children: Range<usize>,
}

/// An immutable schema tree. The first `num_roots` nodes are the children of
/// the root.
#[derive(Debug)]
pub struct ParsingTree {
    pub nodes: Vec<ParsingNode>,
    pub num_roots: usize,
}

/// In `[a, b)` the nodes before `m` are literals and the nodes from `m` on
/// are not.
pub open spec fn split_at_literals(nodes: Seq<ParsingNode>, a: int, m: int, b: int) -> bool {
    &&& a <= m <= b
    &&& forall|i: int| a <= i < m ==> (#[trigger] nodes[i]).node.is_literal()
    &&& forall|i: int| m <= i < b ==> !(#[trigger] nodes[i]).node.is_literal()
}

/// In `[a, b)` every literal comes before every other node.
pub open spec fn literals_first(nodes: Seq<ParsingNode>, a: int, b: int) -> bool {
    exists|m: int| split_at_literals(nodes, a, m, b)
}

/// `[start, end)` lies inside the tree and has its literals first.
pub open spec fn range_ok(nodes: Seq<ParsingNode>, start: int, end: int) -> bool {
    0 <= start <= end <= nodes.len() && literals_first(nodes, start, end)
}

/// The children of node `i` come after it.
pub open spec fn forward(nodes: Seq<ParsingNode>, i: int) -> bool {
    nodes[i].children.start > i
}

/// Node `i` has the children of the root, or those of another node whose
/// children come after it.
pub open spec fn shares(nodes: Seq<ParsingNode>, num_roots: int, i: int) -> bool {
    ||| (nodes[i].children.start == 0 && nodes[i].children.end == num_roots)
    ||| exists|k: int|
        0 <= k < nodes.len() && k != i && forward(nodes, k) && (#[trigger] nodes[k]).children
            == nodes[i].children
}

/// Node `i` is well placed: its children form a range inside the tree with
/// the literals first, which comes after the node unless it is shared.
pub open spec fn node_placed(nodes: Seq<ParsingNode>, num_roots: int, i: int) -> bool {
    &&& nodes[i].node.wf()
    &&& range_ok(nodes, nodes[i].children.start as int, nodes[i].children.end as int)
    &&& forward(nodes, i) || shares(nodes, num_roots, i)
}

/// The layout of a parsing tree.
pub open spec fn tree_ok(nodes: Seq<ParsingNode>, num_roots: int) -> bool {
    &&& range_ok(nodes, 0, num_roots)
    &&& forall|i: int| 0 <= i < nodes.len() ==> #[trigger] node_placed(nodes, num_roots, i)
}

impl ParsingTree {
    /// The tree is laid out as [`tree_ok`] says.
    pub open spec fn wf(&self) -> bool {
        tree_ok(self.nodes@, self.num_roots as int)
    }

    /// A tree without nodes.
    pub fn new() -> (tree: Self)
        ensures
            tree.wf(),
            tree.nodes@.len() == 0,
            tree.num_roots == 0,
    {
        let tree = ParsingTree { nodes: Vec::new(), num_roots: 0 };
        assert(split_at_literals(tree.nodes@, 0, 0, 0));
        tree
    }

    /// The schema node at `idx`.
    pub fn get_node(&self, idx: usize) -> (r: Option<&Node>)
        ensures
            r == (if idx < self.nodes@.len() {
                Some(&self.nodes@[idx as int].node)
            } else {
                None
            }),
    {
        if idx < self.nodes.len() {
            Some(&self.nodes[idx].node)
        } else {
            None
        }
    }
}

} // verus!

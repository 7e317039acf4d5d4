//! What a query hands out: nodes with their hash values, values, and values
//! together with the branches that lead from them to the root.

use vstd::prelude::*;
use vstd::arithmetic::power2::*;
use crate::hash::{digest, spec_combine};
use crate::model::{Index, INDEX_SIZE};

verus! {

/// A node `b_{i,j}` and its hash value, as a mathematical value.
pub struct NodeView {
    pub i: Index,
    pub j: u8,
    pub hash: Seq<u8>,
}

/// A node `b_{i,j}` of the tree with its hash value.
#[derive(PartialEq, Eq, Copy, Clone, Debug)]
pub struct Node {
    /// The greatest index of the leaves below this node.
    pub i: Index,
    /// The height of this node; 0 for a leaf.
    pub j: u8,
    /// The hash value of this node.
    pub hash: crate::hash::Hash,
}

impl View for Node {
    type V = NodeView;

    open spec fn view(&self) -> NodeView {
        NodeView { i: self.i, j: self.j, hash: self.hash@ }
    }
}

/// The node above `left` and `right`: it ends where `right` ends, is one
/// higher than `left`, and hashes the two hash values, the left one first.
pub open spec fn spec_parent(left: NodeView, right: NodeView) -> NodeView {
    NodeView { i: right.i, j: (left.j + 1) as u8, hash: spec_combine(left.hash, right.hash) }
}

impl Node {
    pub fn new(i: Index, j: u8, hash: crate::hash::Hash) -> (r: Node)
        ensures
            r == (Node { i, j, hash }),
    {
        Node { i, j, hash }
    }

    /// The node whose left child is this node and whose right child is
    /// `right`.
    pub fn parent(&self, right: &Node) -> (r: Node)
        requires
            self.j < u8::MAX,
        ensures
            r@ == spec_parent(self@, right@),
    {
        let i: Index = right.i;
        let j: u8 = self.j + 1;
        let hash = self.hash.combine(&right.hash);
        Node::new(i, j, hash)
    }
}

/// A value of the list and its index, as a mathematical value.
pub struct ValueView {
    pub i: Index,
    pub value: Seq<u8>,
}

/// A value of the list with its index.
#[derive(PartialEq, Eq, Debug)]
pub struct Value {
    /// The index of this value; the first value has index 1.
    pub i: Index,
    /// The bytes of this value.
    pub value: Vec<u8>,
}

impl View for Value {
    type V = ValueView;

    open spec fn view(&self) -> ValueView {
        ValueView { i: self.i, value: self.value@ }
    }
}

/// The leaf that holds `value`.
pub open spec fn spec_leaf(value: ValueView) -> NodeView {
    NodeView { i: value.i, j: 0, hash: digest(value.value) }
}

impl Value {
    pub fn new(i: Index, value: Vec<u8>) -> (r: Value)
        ensures
            r.i == i,
            r.value == value,
    {
        Value { i, value }
    }

    /// The hash value of this value.
    pub fn hash(&self) -> (r: crate::hash::Hash)
        ensures
            r@ == digest(self.value@),
    {
        crate::hash::Hash::hash(self.value.as_slice())
    }

    /// The leaf that holds this value.
    pub fn to_node(&self) -> (r: Node)
        ensures
            r@ == spec_leaf(self@),
    {
        Node::new(self.i, 0u8, self.hash())
    }
}

/// The mathematical values of `nodes`.
pub open spec fn node_views(nodes: Seq<Node>) -> Seq<NodeView> {
    Seq::new(nodes.len(), |k: int| nodes[k]@)
}

/// The mathematical values of `values`.
pub open spec fn value_views(values: Seq<Value>) -> Seq<ValueView> {
    Seq::new(values.len(), |k: int| values[k]@)
}

/// The leaves that hold `values`.
pub open spec fn spec_leaves(values: Seq<ValueView>) -> Seq<NodeView> {
    Seq::new(values.len(), |k: int| spec_leaf(values[k]))
}

/// One level up: the nodes joined two by two from the left. Where their
/// number is odd the last one goes up as it is.
pub open spec fn fold_level(nodes: Seq<NodeView>) -> Seq<NodeView> {
    Seq::new(
        ((nodes.len() + 1) / 2) as nat,
        |k: int|
            if 2 * k + 1 < nodes.len() {
                spec_parent(nodes[2 * k], nodes[2 * k + 1])
            } else {
                nodes[2 * k]
            },
    )
}

/// The one node that is left when `nodes` are joined level by level.
pub open spec fn fold_nodes(nodes: Seq<NodeView>) -> NodeView
    decreases nodes.len(),
{
    if nodes.len() <= 1 {
        nodes[0]
    } else {
        fold_nodes(fold_level(nodes))
    }
}

/// `node` joined with the branches, from the last branch to the first. Of
/// the two nodes that are joined the one with the smaller `i` is the left.
pub open spec fn fold_branches(node: NodeView, branches: Seq<NodeView>) -> NodeView
    decreases branches.len(),
{
    if branches.len() == 0 {
        node
    } else {
        let branch = branches.last();
        let next = if node.i < branch.i {
            spec_parent(node, branch)
        } else {
            spec_parent(branch, node)
        };
        fold_branches(next, branches.drop_last())
    }
}

/// The root that `values` and `branches` give.
pub open spec fn spec_root(values: Seq<ValueView>, branches: Seq<NodeView>) -> NodeView {
    fold_branches(fold_nodes(spec_leaves(values)), branches)
}

/// The values below one node of the tree, together with the nodes that
/// branch off the path from the root to that node. From the hash values of
/// the values and of the branches the root hash can be computed again and
/// held against a root hash that is known.
#[derive(Debug)]
pub struct ValuesWithBranches {
    /// The values, in the order of their indices.
    pub values: Vec<Value>,
    /// The branches, the one next to the root first.
    pub branches: Vec<Node>,
}

impl ValuesWithBranches {
    pub fn new(values: Vec<Value>, branches: Vec<Node>) -> (r: ValuesWithBranches)
        ensures
            r.values == values,
            r.branches == branches,
    {
        ValuesWithBranches { values, branches }
    }

    /// Whether a root can be computed from this: there is a value, and the
    /// branches are no more and no higher than a tree can have.
    pub open spec fn foldable(&self) -> bool {
        &&& self.values@.len() >= 1
        &&& self.branches@.len() <= INDEX_SIZE
        &&& forall|k: int| 0 <= k < self.branches@.len() ==> (#[trigger] self.branches@[k]).j <= INDEX_SIZE
    }

    /// The root node that these values and branches give.
    pub fn root(&self) -> (r: Node)
        requires
            self.foldable(),
        ensures
            r@ == spec_root(value_views(self.values@), node_views(self.branches@)),
    {
        let ghost leaves = spec_leaves(value_views(self.values@));
        let mut hashes: Vec<Node> = Vec::new();
        let mut k: usize = 0;
        while k < self.values.len()
            invariant
                k <= self.values@.len(),
                hashes@.len() == k,
                forall|m: int| 0 <= m < k ==> (#[trigger] hashes@[m])@ == leaves[m],
                leaves == spec_leaves(value_views(self.values@)),
            decreases self.values@.len() - k,
        {
            let node = self.values[k].to_node();
            hashes.push(node);
            k = k + 1;
        }
        assert(node_views(hashes@) =~= leaves);
        let mut level: u8 = 0;
        proof {
            lemma2_to64();
        }
        while hashes.len() > 1
            invariant
                hashes@.len() >= 1,
                level <= 64,
                hashes@.len() <= pow2((64 - level) as nat),
                forall|m: int| 0 <= m < hashes@.len() ==> (#[trigger] hashes@[m]).j <= level,
                fold_nodes(node_views(hashes@)) == fold_nodes(leaves),
            decreases hashes@.len(),
        {
            proof {
                if level == 64 {
                    lemma2_to64();
                }
                lemma_pow2_unfold((64 - level) as nat);
            }
            let ghost before = node_views(hashes@);
            let len: usize = hashes.len();
            let mut next: Vec<Node> = Vec::new();
            let mut p: usize = 0;
            while p < len / 2
                invariant
                    len == hashes@.len(),
                    p <= len / 2,
                    next@.len() == p,
                    level < 64,
                    forall|m: int| 0 <= m < hashes@.len() ==> (#[trigger] hashes@[m]).j <= level,
                    forall|m: int| 0 <= m < p ==> (#[trigger] next@[m]).j <= level + 1,
                    forall|m: int|
                        0 <= m < p ==> (#[trigger] next@[m])@ == spec_parent(
                            hashes@[2 * m]@,
                            hashes@[2 * m + 1]@,
                        ),
                decreases len / 2 - p,
            {
                let node = hashes[p * 2].parent(&hashes[p * 2 + 1]);
                next.push(node);
                p = p + 1;
            }
            if len % 2 != 0 {
                next.push(hashes[len - 1]);
            }
            proof {
                assert(node_views(next@) =~= fold_level(before));
            }
            hashes = next;
            level = level + 1;
        }
        let mut folding: Node = hashes[0];
        let ghost start = folding@;
        let mut b: usize = self.branches.len();
        proof {
            assert(node_views(self.branches@).subrange(0, b as int) =~= node_views(
                self.branches@,
            ));
            assert(node_views(hashes@)[0] == start);
        }
        while b > 0
            invariant
                b <= self.branches@.len(),
                self.branches@.len() <= 64,
                forall|k: int| 0 <= k < self.branches@.len() ==> (#[trigger] self.branches@[k]).j <= 64,
                folding.j <= 64 + (self.branches@.len() - b),
                fold_branches(folding@, node_views(self.branches@).subrange(0, b as int))
                    == fold_branches(start, node_views(self.branches@)),
            decreases b,
        {
            let ghost rest = node_views(self.branches@).subrange(0, b as int);
            b = b - 1;
            let branch: Node = self.branches[b];
            proof {
                assert(rest.last() == branch@);
                assert(rest.drop_last() =~= node_views(self.branches@).subrange(0, b as int));
            }
            folding = if folding.i < branch.i {
                folding.parent(&branch)
            } else {
                branch.parent(&folding)
            };
        }
        proof {
            assert(node_views(self.branches@).subrange(0, 0) =~= Seq::<NodeView>::empty());
            assert(node_views(self.branches@).subrange(0, self.branches@.len() as int)
                =~= node_views(self.branches@));
        }
        folding
    }
}

} // verus!

//! Code trees: the mathematical model and the owned representation.

use vstd::prelude::*;
use crate::weight::{weight_max, Weight};

verus! {

/// A strict binary tree with a named, weighted symbol at each leaf.
pub enum Tree {
    Leaf { name: Seq<char>, weight: nat },
    Internal { left: Box<Tree>, right: Box<Tree> },
}

impl Tree {
    /// The weight of a tree: that of its leaf, or the sum of its children's.
    pub open spec fn weight(self) -> nat
        decreases self,
    {
        match self {
            Tree::Leaf { weight, .. } => weight,
            Tree::Internal { left, right } => left.weight() + right.weight(),
        }
    }

    /// Every leaf has a strictly positive weight.
    pub open spec fn well_formed(self) -> bool
        decreases self,
    {
        match self {
            Tree::Leaf { weight, .. } => weight > 0,
            Tree::Internal { left, right } => left.well_formed() && right.well_formed(),
        }
    }

    /// The cost of the tree: the sum, over its leaves, of the leaf's weight
    /// times its depth. Every merge adds the weights of the two merged.
    pub open spec fn cost(self) -> nat
        decreases self,
    {
        match self {
            Tree::Leaf { .. } => 0,
            Tree::Internal { left, right } => left.cost() + right.cost() + left.weight()
                + right.weight(),
        }
    }

    /// The leaves of the tree, from left to right.
    pub open spec fn leaves(self) -> Seq<Tree>
        decreases self,
    {
        match self {
            Tree::Leaf { .. } => seq![self],
            Tree::Internal { left, right } => left.leaves() + right.leaves(),
        }
    }

    /// The depths of the leaves of the tree, from left to right.
    pub open spec fn depths(self) -> Seq<nat>
        decreases self,
    {
        match self {
            Tree::Leaf { .. } => seq![0nat],
            Tree::Internal { left, right } => (left.depths() + right.depths()).map_values(
                |n: nat| n + 1,
            ),
        }
    }

    /// The greatest depth of a leaf.
    pub open spec fn height(self) -> nat
        decreases self,
    {
        match self {
            Tree::Leaf { .. } => 0,
            Tree::Internal { left, right } => if left.height() >= right.height() {
                left.height() + 1
            } else {
                right.height() + 1
            },
        }
    }

    /// Whether some leaf of the tree carries the name.
    pub open spec fn has_leaf(self, name: Seq<char>) -> bool
        decreases self,
    {
        match self {
            Tree::Leaf { name: n, .. } => n == name,
            Tree::Internal { left, right } => left.has_leaf(name) || right.has_leaf(name),
        }
    }

    /// The symbol found by following `path` from the root, bit `0` to the
    /// left and bit `1` to the right, if the path ends exactly at a leaf.
    pub open spec fn leaf_at(self, path: Seq<u8>) -> Option<Seq<char>>
        decreases self,
    {
        match self {
            Tree::Leaf { name, .. } => if path.len() == 0 {
                Some(name)
            } else {
                None
            },
            Tree::Internal { left, right } => if path.len() == 0 {
                None
            } else if path[0] == 0 {
                left.leaf_at(path.skip(1))
            } else if path[0] == 1 {
                right.leaf_at(path.skip(1))
            } else {
                None
            },
        }
    }
}

/// What a node is: a symbol, or the merge of two nodes that it owns.
#[derive(Debug)]
pub enum NodeType {
    Internal(Box<Node>, Box<Node>),
    Leaf(String),
}

/// A node of a code tree, with its weight.
#[derive(Debug)]
pub struct Node {
    pub weight: Weight,
    pub node_type: NodeType,
}

impl View for Node {
    type V = Tree;

    /// The tree below the node. An internal node's own weight field is not
    /// part of it: [`Node::wf`] says that the field holds the tree's weight.
    open spec fn view(&self) -> Tree {
        self.tree()
    }
}

impl Node {
    /// The tree below the node: what the view of the node is.
    pub open spec fn tree(&self) -> Tree
        decreases self,
    {
        match self.node_type {
            NodeType::Leaf(name) => Tree::Leaf { name: name@, weight: self.weight@ },
            NodeType::Internal(left, right) => Tree::Internal {
                left: Box::new(left.tree()),
                right: Box::new(right.tree()),
            },
        }
    }

    /// Every node below and including this one holds the weight of its tree,
    /// and every leaf weighs more than nothing.
    pub open spec fn wf(&self) -> bool
        decreases self,
    {
        &&& self.weight@ == self@.weight()
        &&& match self.node_type {
            NodeType::Leaf(_) => self.weight@ > 0,
            NodeType::Internal(left, right) => left.wf() && right.wf(),
        }
    }

    /// A node with the given weight and content.
    pub fn new(weight: Weight, node_type: NodeType) -> (node: Node)
        ensures
            node.weight == weight,
            node.node_type == node_type,
    {
        Node { weight, node_type }
    }

    /// The leaf for a symbol.
    pub fn leaf(name: String, weight: Weight) -> (node: Node)
        requires
            weight@ > 0,
        ensures
            node.wf(),
            node@ == (Tree::Leaf { name: name@, weight: weight@ }),
    {
        Node::new(weight, NodeType::Leaf(name))
    }

    /// The internal node over two nodes, the first to the left.
    pub fn merge(left: Node, right: Node) -> (node: Node)
        requires
            left.wf(),
            right.wf(),
            left@.weight() + right@.weight() <= weight_max(),
        ensures
            node.wf(),
            node@ == (Tree::Internal { left: Box::new(left@), right: Box::new(right@) }),
    {
        let weight = left.weight.add(&right.weight);
        Node::new(weight, NodeType::Internal(Box::new(left), Box::new(right)))
    }
}

/// A well-formed node shows a well-formed tree.
pub proof fn lemma_wf_node_tree(node: &Node)
    requires
        node.wf(),
    ensures
        node@.well_formed(),
    decreases node,
{
    match node.node_type {
        NodeType::Leaf(_) => {},
        NodeType::Internal(left, right) => {
            lemma_wf_node_tree(&*left);
            lemma_wf_node_tree(&*right);
        },
    }
}

} // verus!

//! An in-memory tagged view of a tree node: an internal node with two child
//! digests, a leaf with a path and a value hash, or the empty subtree.

use vstd::prelude::*;

verus! {

/// A tree node as a sum type. On disk a node is a prefixed payload; this
/// variant form is for callers that want to inspect one in memory.
#[derive(Clone)]
pub enum Node {
    InternalNode { right: Vec<u8>, left: Vec<u8> },
    LeafNode { path: Vec<u8>, value: Vec<u8> },
    Empty,
}

impl Node {
    /// True iff this node is a leaf.
    pub fn is_leaf(&self) -> (r: bool)
        ensures
            r == (self is LeafNode),
    {
        match self {
            Node::LeafNode { path: _, value: _ } => true,
            _ => false,
        }
    }

    /// True iff this node is the empty subtree.
    pub fn is_empty(&self) -> (r: bool)
        ensures
            r == (self is Empty),
    {
        matches!(self, Node::Empty)
    }

    /// True iff this node is an internal node.
    pub fn is_branch(&self) -> (r: bool)
        ensures
            r == (self is InternalNode),
    {
        match self {
            Node::InternalNode { right: _, left: _ } => true,
            _ => false,
        }
    }

    /// The `(left, right)` child digests of an internal node; a pair of
    /// empty byte strings for the other kinds.
    pub fn children(&self) -> (r: (Vec<u8>, Vec<u8>))
        ensures
            (match self {
                Node::InternalNode { right, left } => r.0@ == left@ && r.1@ == right@,
                _ => r.0@ == Seq::<u8>::empty() && r.1@ == Seq::<u8>::empty(),
            }),
    {
        match self {
            Node::InternalNode { right, left } => (
                crate::tree_hasher::copy_bytes(left.as_slice()),
                crate::tree_hasher::copy_bytes(right.as_slice()),
            ),
            _ => (Vec::new(), Vec::new()),
        }
    }

    /// True iff this node is a leaf whose path equals `match_path`.
    pub fn match_leaf_path(&self, match_path: &[u8]) -> (r: bool)
        ensures
            (match self {
                Node::LeafNode { path, value: _ } => r == (path@ == match_path@),
                _ => r == false,
            }),
    {
        match self {
            Node::LeafNode { path, value: _ } => crate::utils::bytes_eq(
                path.as_slice(),
                match_path,
            ),
            _ => false,
        }
    }
}

} // verus!

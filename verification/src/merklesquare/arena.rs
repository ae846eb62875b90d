//! Nodes of the chronological forest, stored in an arena and referred to by
//! index.

use vstd::prelude::*;

use crate::hash::Hash32;

verus! {

pub type NodeId = u32;

/// A node stored in the arena. Internal nodes refer to their children by
/// index.
#[derive(Clone, Debug)]
pub enum Node {
    Leaf {
        hash: Hash32,
        /// Position among the leaves, from 0.
        pos: u32,
    },
    Internal {
        left: NodeId,
        right: NodeId,
        hash: Hash32,
        /// Height of the node; a leaf has height 0.
        height: u32,
        /// Position of the node's first leaf divided by 2^height.
        shift: u32,
    },
}

impl Node {
    /// The hash that the node carries.
    pub open spec fn hash_of(&self) -> Hash32 {
        match *self {
            Node::Leaf { hash, .. } => hash,
            Node::Internal { hash, .. } => hash,
        }
    }

    /// The height of the node.
    pub open spec fn height_of(&self) -> u32 {
        match *self {
            Node::Leaf { .. } => 0,
            Node::Internal { height, .. } => height,
        }
    }

    /// The position of a leaf, or the shift of an internal node.
    pub open spec fn shift_of(&self) -> u32 {
        match *self {
            Node::Leaf { pos, .. } => pos,
            Node::Internal { shift, .. } => shift,
        }
    }

    pub fn hash(&self) -> (h: Hash32)
        ensures
            h == self.hash_of(),
    {
        match self {
            Node::Leaf { hash, .. } => *hash,
            Node::Internal { hash, .. } => *hash,
        }
    }

    pub fn height(&self) -> (h: u32)
        ensures
            h == self.height_of(),
    {
        match self {
            Node::Leaf { .. } => 0,
            Node::Internal { height, .. } => *height,
        }
    }
}

/// A growing list of nodes.
#[derive(Default)]
pub struct Arena {
    nodes: Vec<Node>,
}

impl View for Arena {
    type V = Seq<Node>;

    closed spec fn view(&self) -> Seq<Node> {
        self.nodes@
    }
}

impl Arena {
    pub fn new() -> (arena: Self)
        ensures
            arena@ == Seq::<Node>::empty(),
    {
        Self { nodes: Vec::new() }
    }

    pub fn get(&self, id: NodeId) -> (node: &Node)
        requires
            id < self@.len(),
        ensures
            *node == self@[id as int],
    {
        &self.nodes[id as usize]
    }

    /// Appends `node` and returns its index.
    pub fn push(&mut self, node: Node) -> (id: NodeId)
        ensures
            final(self)@ == old(self)@.push(node),
            id == #[verifier::truncate] (old(self)@.len() as NodeId),
    {
        let id = #[verifier::truncate] (self.nodes.len() as NodeId);
        self.nodes.push(node);
        id
    }

    pub fn len(&self) -> (n: usize)
        ensures
            n == self@.len(),
    {
        self.nodes.len()
    }
}

} // verus!

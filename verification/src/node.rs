//! Macrocells and their structural keys.

use crate::bits::{quad_grid, spec_center};
use crate::life::assembled;
use vstd::prelude::*;

verus! {

/// Handle of an interned macrocell. Handles are positions in the node store,
/// counted from one; zero is reserved for "no node".
#[derive(Clone, Copy, PartialEq, Eq, Debug, Structural)]
pub struct NodeId(pub u64);

impl NodeId {
    /// The handle that names no node.
    pub fn invalid() -> (id: NodeId)
        ensures
            id == NodeId(0),
    {
        NodeId(0)
    }
}

/// Key of a macrocell of level four or more: the handles of its quadrants.
#[derive(Clone, Copy, PartialEq, Eq, Debug, Structural)]
pub struct InternalNodeKey {
    pub nw: NodeId,
    pub ne: NodeId,
    pub sw: NodeId,
    pub se: NodeId,
}

/// Key of a level 3 (8x8) macrocell. Each quadrant is a 4x4 square.
///
/// Bit-cell correspondence in a quadrant:
///
/// ```text
/// [15] [14] [13] [12]
/// [11] [10] [09] [08]
/// [07] [06] [05] [04]
/// [03] [02] [01] [00]
/// ```
///
/// That is, bit 15 is the top left cell and bit 12 the top right cell.
#[derive(Clone, Copy, PartialEq, Eq, Debug, Structural)]
pub struct LeafNodeKey {
    pub nw: u16,
    pub ne: u16,
    pub sw: u16,
    pub se: u16,
}

/// Structural key of a macrocell.
#[derive(Clone, Copy, PartialEq, Eq, Debug, Structural)]
pub enum NodeKey {
    Internal(InternalNodeKey),
    Leaf(LeafNodeKey),
}

/// An interned 8x8 macrocell.
#[derive(Clone, Copy, Debug)]
pub struct LeafNode {
    pub key: LeafNodeKey,
    /// The centre 4x4 square after one generation and after two generations.
    pub results: [u16; 2],
    pub mark: bool,
}

/// An interned macrocell of level four or more.
#[derive(Clone, Copy, Debug)]
pub struct InternalNode {
    pub key: InternalNodeKey,
    /// Cached centre of this macrocell after `2 ^ result_k` generations, or
    /// the invalid handle.
    pub result: NodeId,
    /// The exponent that the cached result was computed for.
    pub result_k: u16,
    /// The macrocell has `2 ^ level` cells on each side.
    pub level: u16,
    pub mark: bool,
}

/// An interned macrocell.
#[derive(Clone, Copy, Debug)]
pub enum Node {
    Internal(InternalNode),
    Leaf(LeafNode),
}

impl Node {
    /// A leaf with the given quadrants and precomputed centre results.
    pub fn new_leaf(key: LeafNodeKey, results: [u16; 2]) -> (node: Node)
        ensures
            node == Node::Leaf(LeafNode { key, results, mark: false }),
    {
        Node::Leaf(LeafNode { key, results, mark: false })
    }

    /// An internal node of the given level with nothing cached.
    pub fn new_internal(key: InternalNodeKey, level: u16) -> (node: Node)
        ensures
            node == Node::Internal(
                InternalNode { key, result: NodeId(0), result_k: 0, level, mark: false },
            ),
    {
        Node::Internal(
            InternalNode { key, result: NodeId(0), result_k: 0, level, mark: false },
        )
    }

    /// The leaf inside a leaf node.
    pub fn unwrap_leaf_ref(&self) -> (leaf: &LeafNode)
        requires
            self is Leaf,
        ensures
            *leaf == self->Leaf_0,
    {
        match self {
            Node::Leaf(node) => node,
            Node::Internal(_) => unreached(),
        }
    }

    /// The internal node inside an internal node.
    pub fn unwrap_internal_ref(&self) -> (inner: &InternalNode)
        requires
            self is Internal,
        ensures
            *inner == self->Internal_0,
    {
        match self {
            Node::Internal(node) => node,
            Node::Leaf(_) => unreached(),
        }
    }

    pub open spec fn spec_level(&self) -> u16 {
        match self {
            Node::Internal(node) => node.level,
            Node::Leaf(_) => 3,
        }
    }

    /// The level of the macrocell: its side is `2 ^ level` cells.
    #[verifier::when_used_as_spec(spec_level)]
    pub fn level(&self) -> (level: u16)
        ensures
            level == self.spec_level(),
    {
        match self {
            Node::Internal(node) => node.level,
            Node::Leaf(_) => 3,
        }
    }

    pub open spec fn spec_mark(&self) -> bool {
        match self {
            Node::Leaf(node) => node.mark,
            Node::Internal(node) => node.mark,
        }
    }

    /// The mark bit of the node.
    #[verifier::when_used_as_spec(spec_mark)]
    pub fn mark(&self) -> (mark: bool)
        ensures
            mark == self.spec_mark(),
    {
        match self {
            Node::Leaf(node) => node.mark,
            Node::Internal(node) => node.mark,
        }
    }

    pub open spec fn key(&self) -> NodeKey {
        match self {
            Node::Leaf(node) => NodeKey::Leaf(node.key),
            Node::Internal(node) => NodeKey::Internal(node.key),
        }
    }
}

impl LeafNodeKey {
    /// The live cells of the 8x8 square, relative to its centre.
    pub open spec fn grid(&self) -> Set<(int, int)> {
        assembled(
            quad_grid(self.nw),
            quad_grid(self.ne),
            quad_grid(self.sw),
            quad_grid(self.se),
            2,
        )
    }

    /// The 4x4 square in the middle of the 8x8 square.
    pub fn center(&self) -> (c: u16)
        ensures
            c == spec_center(self.nw, self.ne, self.sw, self.se),
    {
        (self.nw << 10u16) & 0xcc00u16 | (self.ne << 6u16) & 0x3300u16 | (self.sw >> 6u16)
            & 0x00ccu16 | (self.se >> 10u16) & 0x0033u16
    }
}

impl NodeKey {
    /// The key of the leaf with the given quadrants.
    pub fn new_leaf(nw: u16, ne: u16, sw: u16, se: u16) -> (key: NodeKey)
        ensures
            key == NodeKey::Leaf(LeafNodeKey { nw, ne, sw, se }),
    {
        NodeKey::Leaf(LeafNodeKey { nw, ne, sw, se })
    }

    /// The key of the internal node with the given quadrants.
    pub fn new_internal(nw: NodeId, ne: NodeId, sw: NodeId, se: NodeId) -> (key: NodeKey)
        ensures
            key == NodeKey::Internal(InternalNodeKey { nw, ne, sw, se }),
    {
        NodeKey::Internal(InternalNodeKey { nw, ne, sw, se })
    }

    /// The key as the tuple of integers under which it is interned: a tag that
    /// tells leaves from internal nodes, then the four quadrants.
    pub open spec fn encoding(&self) -> (u8, u64, u64, u64, u64) {
        match self {
            NodeKey::Internal(k) => (0u8, k.nw.0, k.ne.0, k.sw.0, k.se.0),
            NodeKey::Leaf(k) => (1u8, k.nw as u64, k.ne as u64, k.sw as u64, k.se as u64),
        }
    }

    /// Computes `encoding`. Distinct keys have distinct encodings.
    pub fn encode(&self) -> (e: (u8, u64, u64, u64, u64))
        ensures
            e == self.encoding(),
            forall|other: NodeKey| other.encoding() == e ==> other == *self,
    {
        match self {
            NodeKey::Internal(k) => (0u8, k.nw.0, k.ne.0, k.sw.0, k.se.0),
            NodeKey::Leaf(k) => (1u8, k.nw as u64, k.ne as u64, k.sw as u64, k.se as u64),
        }
    }
}

} // verus!

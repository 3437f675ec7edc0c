//! The five node classes and their tag encoding.

use vstd::prelude::*;

verus! {

/// The representation of a node: one of the four inner layouts, or a leaf.
#[derive(Debug, Clone, Copy, PartialEq, Eq, Structural)]
pub enum NodeType {
    /// Node that references between 2 and 4 children
    Node4,
    /// Node that references between 5 and 16 children
    Node16,
    /// Node that references between 17 and 48 children
    Node48,
    /// Node that references between 49 and 256 children
    Node256,
    /// Node that contains a single value
    Leaf,
}

impl NodeType {
    /// The three tag bits that stand for this class in a tagged pointer.
    pub open spec fn tag(self) -> u8 {
        match self {
            NodeType::Node4 => 0b000,
            NodeType::Node16 => 0b001,
            NodeType::Node48 => 0b010,
            NodeType::Node256 => 0b011,
            NodeType::Leaf => 0b100,
        }
    }

    /// The class that a tag stands for, if any.
    pub open spec fn of_tag(tag: int) -> Option<NodeType> {
        if tag == 0b000 {
            Some(NodeType::Node4)
        } else if tag == 0b001 {
            Some(NodeType::Node16)
        } else if tag == 0b010 {
            Some(NodeType::Node48)
        } else if tag == 0b011 {
            Some(NodeType::Node256)
        } else if tag == 0b100 {
            Some(NodeType::Leaf)
        } else {
            None
        }
    }

    /// The largest number of children a node of this class can hold.
    pub open spec fn max_children(self) -> nat {
        match self {
            NodeType::Node4 => 4,
            NodeType::Node16 => 16,
            NodeType::Node48 => 48,
            NodeType::Node256 => 256,
            NodeType::Leaf => 0,
        }
    }

    /// The smallest number of children a node of this class holds once a
    /// mutation has returned.
    pub open spec fn min_children(self) -> nat {
        match self {
            NodeType::Node4 => 2,
            NodeType::Node16 => 5,
            NodeType::Node48 => 17,
            NodeType::Node256 => 49,
            NodeType::Leaf => 0,
        }
    }

    /// The class that an inner node grows into. The largest class has
    /// none, and stands for itself here.
    pub open spec fn next_larger(self) -> NodeType {
        match self {
            NodeType::Node4 => NodeType::Node16,
            NodeType::Node16 => NodeType::Node48,
            NodeType::Node48 => NodeType::Node256,
            NodeType::Node256 => NodeType::Node256,
            NodeType::Leaf => NodeType::Leaf,
        }
    }

    /// The class that an inner node shrinks into. The smallest class has
    /// none, and stands for itself here.
    pub open spec fn next_smaller(self) -> NodeType {
        match self {
            NodeType::Node4 => NodeType::Node4,
            NodeType::Node16 => NodeType::Node4,
            NodeType::Node48 => NodeType::Node16,
            NodeType::Node256 => NodeType::Node48,
            NodeType::Leaf => NodeType::Leaf,
        }
    }

    /// The upper bound on the number of child nodes that this
    /// NodeType can have.
    pub fn upper_capacity(self) -> (capacity: usize)
        ensures
            capacity == self.max_children(),
    {
        match self {
            NodeType::Node4 => 4,
            NodeType::Node16 => 16,
            NodeType::Node48 => 48,
            NodeType::Node256 => 256,
            NodeType::Leaf => 0,
        }
    }

    /// The lower bound on the number of child nodes that a node of this
    /// NodeType keeps between mutations.
    pub fn lower_capacity(self) -> (capacity: usize)
        ensures
            capacity == self.min_children(),
    {
        match self {
            NodeType::Node4 => 2,
            NodeType::Node16 => 5,
            NodeType::Node48 => 17,
            NodeType::Node256 => 49,
            NodeType::Leaf => 0,
        }
    }

    /// The tag bits of this class as a byte.
    pub fn to_u8(self) -> (tag: u8)
        ensures
            tag == self.tag(),
            tag < 8,
    {
        match self {
            NodeType::Node4 => 0b000,
            NodeType::Node16 => 0b001,
            NodeType::Node48 => 0b010,
            NodeType::Node256 => 0b011,
            NodeType::Leaf => 0b100,
        }
    }

    /// Attempt to convert a u8 value to a [`NodeType`], returning None if there
    /// is no match.
    pub fn from_u8(src: u8) -> (node_type: Option<NodeType>)
        ensures
            node_type == NodeType::of_tag(src as int),
            node_type is Some <==> src <= 0b100,
            node_type is Some ==> node_type->0.tag() == src,
    {
        if src == 0b000 {
            Some(NodeType::Node4)
        } else if src == 0b001 {
            Some(NodeType::Node16)
        } else if src == 0b010 {
            Some(NodeType::Node48)
        } else if src == 0b011 {
            Some(NodeType::Node256)
        } else if src == 0b100 {
            Some(NodeType::Leaf)
        } else {
            None
        }
    }
}

/// Every class is recovered from its own tag, and the classes sit in
/// adjoining population ranges: a node that leaves its range upward is one
/// child short of the next class's minimum.
pub proof fn lemma_tag_round_trip(t: NodeType)
    ensures
        NodeType::of_tag(t.tag() as int) == Some(t),
        t.tag() < 8,
        t.min_children() <= t.max_children(),
{
}

} // verus!

//! The leaf node: one key with its value.

use crate::heap::Slot;
use crate::nodes::node_type::NodeType;
use crate::nodes::pointer::Node;
use crate::nodes::prefix_buffer::PrefixBuffer;
use vstd::prelude::*;

verus! {

/// Whether two runs of bytes are the same, byte for byte.
pub fn bytes_equal(left: &[u8], right: &[u8]) -> (equal: bool)
    ensures
        equal == (left@ == right@),
{
    if left.len() != right.len() {
        return false;
    }
    let mut at: usize = 0;
    while at < left.len()
        invariant
            at <= left@.len() == right@.len(),
            forall|i: int| 0 <= i < at ==> left@[i] == right@[i],
        decreases left@.len() - at,
    {
        if left[at] != right[at] {
            return false;
        }
        at += 1;
    }
    assert(left@ =~= right@);
    true
}

/// Node that contains a single leaf value.
pub struct LeafNode<V> {
    /// A prefix buffer that takes no part in comparing keys.
    pub prefix: PrefixBuffer,
    /// The leaf value.
    pub value: V,
    /// The full key that the `value` was stored with.
    pub key: Box<[u8]>,
}

impl<V> Node for LeafNode<V> {
    type Value = V;

    const TYPE: NodeType = NodeType::Leaf;

    open spec fn as_slot(self) -> Slot<V> {
        Slot::Leaf(self)
    }

    open spec fn in_slot(slot: Slot<V>) -> Option<Self> {
        match slot {
            Slot::Leaf(node) => Some(node),
            _ => None,
        }
    }

    proof fn lemma_slot(node: Self) {
    }

    fn into_slot(self) -> (slot: Slot<V>) {
        Slot::Leaf(self)
    }

    fn from_slot(slot: Slot<V>) -> (node: Option<Self>) {
        match slot {
            Slot::Leaf(node) => Some(node),
            _ => None,
        }
    }

    fn slot_mut(slot: &mut Slot<V>) -> (node: &mut Self) {
        match slot {
            Slot::Leaf(node) => node,
            _ => vstd::pervasive::unreached(),
        }
    }

    fn slot_ref(slot: &Slot<V>) -> (node: Option<&Self>) {
        match slot {
            Slot::Leaf(node) => Some(node),
            _ => None,
        }
    }
}

impl<V> LeafNode<V> {
    /// The class of this layout.
    pub proof fn lemma_node_type()
        ensures
            <Self as Node>::TYPE == NodeType::Leaf,
    {
    }

    /// Create a new leaf node with the given value.
    pub fn new(key: Box<[u8]>, value: V) -> (leaf: Self)
        ensures
            leaf.key@ == key@,
            leaf.value == value,
            leaf.prefix@ == Seq::<u8>::empty(),
    {
        LeafNode { value, key, prefix: PrefixBuffer::new() }
    }

    /// Check that the provided key is the same one as the stored key.
    pub fn matches_key(&self, possible_key: &[u8]) -> (matches: bool)
        ensures
            matches == (self.key@ == possible_key@),
    {
        bytes_equal(&self.key, possible_key)
    }

    /// The full key of this leaf.
    pub fn key_bytes(&self) -> (key: &[u8])
        ensures
            key@ == self.key@,
    {
        &self.key
    }
}

} // verus!

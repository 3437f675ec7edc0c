//! Typed and tagged pointers to nodes.

use crate::heap::{NodeHeap, Slot};
use crate::nodes::inner16::InnerNode16;
use crate::nodes::inner256::InnerNode256;
use crate::nodes::inner4::InnerNode4;
use crate::nodes::inner48::InnerNode48;
use crate::nodes::leaf::LeafNode;
use crate::nodes::node_type::NodeType;
use std::marker::PhantomData;
use vstd::prelude::*;
use vstd::std_specs::cmp::PartialEqSpecImpl;

verus! {

/// The alignment of every node: the low three bits of a node's address are
/// zero, which leaves them free to carry the class tag.
pub const NODE_ALIGNMENT: usize = 8;

/// All nodes which contain a runtime tag that validates their type.
pub trait Node: Sized {
    /// The runtime type of the node.
    const TYPE: NodeType;

    /// The value type carried by the leaf nodes
    type Value;

    /// The place of the heap that holds this node.
    spec fn as_slot(self) -> Slot<Self::Value>;

    /// The node of this class that a place of the heap holds, if it holds
    /// one.
    spec fn in_slot(slot: Slot<Self::Value>) -> Option<Self>;

    /// A place holds the node that was put into it, and a node of this
    /// class only where the place is of this class.
    proof fn lemma_slot(node: Self)
        ensures
            Self::in_slot(node.as_slot()) == Some(node),
            node.as_slot().class() == Some(Self::TYPE),
            forall|slot: Slot<Self::Value>|
                slot.class() == Some(Self::TYPE) <==> (#[trigger] Self::in_slot(slot)) is Some,
            forall|slot: Slot<Self::Value>|
                (#[trigger] Self::in_slot(slot)) is Some ==> Self::in_slot(slot)->0.as_slot()
                    == slot,
    ;

    /// Put this node into a place of the heap.
    fn into_slot(self) -> (slot: Slot<Self::Value>)
        ensures
            slot == self.as_slot(),
    ;

    /// Take the node of this class out of a place of the heap.
    fn from_slot(slot: Slot<Self::Value>) -> (node: Option<Self>)
        ensures
            node == Self::in_slot(slot),
    ;

    /// The node of this class in a place of the heap, to be changed in
    /// place.
    fn slot_mut(slot: &mut Slot<Self::Value>) -> (node: &mut Self)
        requires
            Self::in_slot(*old(slot)) is Some,
        ensures
            Some(*node) == Self::in_slot(*old(slot)),
            *final(slot) == (*final(node)).as_slot(),
    ;

    /// The node of this class in a place of the heap.
    fn slot_ref(slot: &Slot<Self::Value>) -> (node: Option<&Self>)
        ensures
            node is Some <==> Self::in_slot(*slot) is Some,
            node is Some ==> Some(*node->0) == Self::in_slot(*slot),
    ;
}

/// Whether `address` can be that of a node: not null, aligned, and with room
/// above it for the tag bits.
pub open spec fn is_node_address(address: int) -> bool {
    &&& 0 < address
    &&& address % 8 == 0
    &&& address + 7 <= usize::MAX
}

/// An opaque pointer to a Node{4,16,48,256} or to a leaf.
///
/// Could be any one of the NodeTypes, need to perform check on the runtime type
/// and then cast to a `NodePtr`. The word holds the node's address and, in its
/// low three bits, the tag of the node's class.
pub struct OpaqueNodePtr<V>(pub usize, pub PhantomData<V>);

impl<V> Copy for OpaqueNodePtr<V> {

}

impl<V> Clone for OpaqueNodePtr<V> {
    fn clone(&self) -> (copy: Self)
        ensures
            copy == *self,
    {
        OpaqueNodePtr(self.0, PhantomData)
    }
}

impl<V> PartialEq for OpaqueNodePtr<V> {
    fn eq(&self, other: &Self) -> (equal: bool) {
        self.0 == other.0
    }
}

impl<V> Eq for OpaqueNodePtr<V> {

}

impl<V> PartialEqSpecImpl for OpaqueNodePtr<V> {
    open spec fn obeys_eq_spec() -> bool {
        true
    }

    open spec fn eq_spec(&self, other: &Self) -> bool {
        self.0 == other.0
    }
}

/// An enum that encapsulates pointers to every type of Node
pub enum InnerNodePtr<V> {
    /// Node that references between 2 and 4 children
    Node4(NodePtr<InnerNode4<V>>),
    /// Node that references between 5 and 16 children
    Node16(NodePtr<InnerNode16<V>>),
    /// Node that references between 17 and 48 children
    Node48(NodePtr<InnerNode48<V>>),
    /// Node that references between 49 and 256 children
    Node256(NodePtr<InnerNode256<V>>),
    /// Node that contains a single value
    LeafNode(NodePtr<LeafNode<V>>),
}

impl<V> InnerNodePtr<V> {
    /// The class of the node pointed to.
    pub open spec fn class(self) -> NodeType {
        match self {
            InnerNodePtr::Node4(_) => NodeType::Node4,
            InnerNodePtr::Node16(_) => NodeType::Node16,
            InnerNodePtr::Node48(_) => NodeType::Node48,
            InnerNodePtr::Node256(_) => NodeType::Node256,
            InnerNodePtr::LeafNode(_) => NodeType::Leaf,
        }
    }

    /// The address of the node pointed to.
    pub open spec fn address(self) -> int {
        match self {
            InnerNodePtr::Node4(pointer) => pointer.address(),
            InnerNodePtr::Node16(pointer) => pointer.address(),
            InnerNodePtr::Node48(pointer) => pointer.address(),
            InnerNodePtr::Node256(pointer) => pointer.address(),
            InnerNodePtr::LeafNode(pointer) => pointer.address(),
        }
    }
}

/// A pointer to a Node{4,16,48,256} or to a leaf, of the class `N`.
pub struct NodePtr<N: Node>(pub usize, pub PhantomData<N>);

impl<N: Node> Copy for NodePtr<N> {

}

impl<N: Node> Clone for NodePtr<N> {
    fn clone(&self) -> (copy: Self)
        ensures
            copy == *self,
    {
        NodePtr(self.0, PhantomData)
    }
}

impl<N: Node> PartialEq for NodePtr<N> {
    fn eq(&self, other: &Self) -> (equal: bool) {
        self.0 == other.0
    }
}

impl<N: Node> Eq for NodePtr<N> {

}

impl<N: Node> PartialEqSpecImpl for NodePtr<N> {
    open spec fn obeys_eq_spec() -> bool {
        true
    }

    open spec fn eq_spec(&self, other: &Self) -> bool {
        self.0 == other.0
    }
}

impl<N: Node> NodePtr<N> {
    /// The address is one a node can have.
    pub open spec fn wf(self) -> bool {
        is_node_address(self.0 as int)
    }

    /// The address of the node pointed to.
    pub open spec fn address(self) -> int {
        self.0 as int
    }

    /// Create a pointer to a Node_ from its address.
    ///
    /// Given address must be non-null and aligned.
    pub fn new(ptr: usize) -> (pointer: Self)
        requires
            is_node_address(ptr as int),
        ensures
            pointer.wf(),
            pointer.address() == ptr,
    {
        NodePtr(ptr, PhantomData)
    }

    /// Whether the heap holds a node of the class `N` at the address of this
    /// pointer.
    pub open spec fn leads_to(self, heap: &NodeHeap<N::Value>) -> bool {
        &&& self.wf()
        &&& heap.is_live(self.address())
        &&& N::in_slot(heap.slot_at(self.address())) is Some
    }

    /// The node that this pointer leads to in the heap.
    pub open spec fn node(self, heap: &NodeHeap<N::Value>) -> N {
        N::in_slot(heap.slot_at(self.address()))->0
    }

    /// Allocate the given [`Node`] on the heap and return a [`NodePtr`]
    /// that wraps its address.
    pub fn allocate_node(heap: &mut NodeHeap<N::Value>, node: N) -> (pointer: Self)
        requires
            old(heap).wf(),
            old(heap).spare() >= 1,
        ensures
            final(heap).wf(),
            is_node_address(pointer.address()),
            pointer.leads_to(final(heap)),
            pointer.node(final(heap)) == node,
            !old(heap).is_live(pointer.address()),
            forall|other: int|
                other != pointer.address() ==> final(heap).is_live(other) == old(heap).is_live(
                    other,
                ),
            forall|other: int|
                old(heap).is_live(other) ==> final(heap).slot_at(other) == old(heap).slot_at(other),
            final(heap).paths == old(heap).paths,
            final(heap).live() == old(heap).live() + 1,
    {
        proof {
            N::lemma_slot(node);
        }
        let address = heap.allocate(node.into_slot());
        NodePtr(address, PhantomData)
    }

    /// Allocate the given [`Node`] on the heap if the heap has room for one
    /// more node. A heap without room is left as it is, and gives the node
    /// back.
    pub fn try_allocate_node(heap: &mut NodeHeap<N::Value>, node: N) -> (result: Result<Self, N>)
        requires
            old(heap).wf(),
        ensures
            result is Ok <==> old(heap).spare() >= 1,
            match result {
                Ok(pointer) => {
                    &&& final(heap).wf()
                    &&& is_node_address(pointer.address())
                    &&& pointer.leads_to(final(heap))
                    &&& pointer.node(final(heap)) == node
                    &&& !old(heap).is_live(pointer.address())
                    &&& forall|other: int|
                        other != pointer.address() ==> final(heap).is_live(other) == old(
                            heap,
                        ).is_live(other)
                    &&& forall|other: int|
                        old(heap).is_live(other) ==> final(heap).slot_at(other) == old(
                            heap,
                        ).slot_at(other)
                    &&& final(heap).paths == old(heap).paths
                    &&& final(heap).live() == old(heap).live() + 1
                },
                Err(given) => given == node && *final(heap) == *old(heap),
            },
    {
        if heap.spare_capacity() >= 1 {
            Ok(NodePtr::allocate_node(heap, node))
        } else {
            Err(node)
        }
    }

    /// Deallocate a [`Node`] object created with the
    /// [`NodePtr::allocate_node`] function, and give the node back.
    pub fn deallocate_node(heap: &mut NodeHeap<N::Value>, node: Self) -> (released: N)
        requires
            old(heap).wf(),
            node.leads_to(old(heap)),
        ensures
            final(heap).wf(),
            released == node.node(old(heap)),
            !final(heap).is_live(node.address()),
            forall|other: int|
                other != node.address() ==> final(heap).is_live(other) == old(heap).is_live(other),
            forall|other: int|
                other != node.address() && old(heap).is_live(other) ==> final(heap).slot_at(other)
                    == old(heap).slot_at(other),
            final(heap).paths == old(heap).paths,
            final(heap).live() == old(heap).live() - 1,
    {
        let slot = heap.release(node.0);
        match N::from_slot(slot) {
            Some(released) => released,
            None => vstd::pervasive::unreached(),
        }
    }

    /// Reads the node without moving it. This leaves the heap unchanged.
    pub fn read<'a>(self, heap: &'a NodeHeap<N::Value>) -> (node: &'a N)
        requires
            heap.wf(),
            self.leads_to(heap),
        ensures
            *node == self.node(heap),
    {
        self.as_ref(heap)
    }

    /// Returns a shared reference to the node.
    pub fn as_ref<'a>(self, heap: &'a NodeHeap<N::Value>) -> (node: &'a N)
        requires
            heap.wf(),
            self.leads_to(heap),
        ensures
            *node == self.node(heap),
    {
        match N::slot_ref(heap.slot_ref(self.0)) {
            Some(node) => node,
            None => vstd::pervasive::unreached(),
        }
    }

    /// Returns a unique mutable reference to the node. What is written
    /// through it is what the heap holds at the address afterwards.
    pub fn as_mut<'a>(self, heap: &'a mut NodeHeap<N::Value>) -> (node: &'a mut N)
        requires
            self.leads_to(old(heap)),
        ensures
            *node == self.node(old(heap)),
            final(heap).slots@ == old(heap).slots@.update(
                crate::heap::index_of(self.address()),
                (*final(node)).as_slot(),
            ),
            final(heap).vacant == old(heap).vacant,
            final(heap).paths == old(heap).paths,
    {
        N::slot_mut(&mut heap.slots[self.0 / 8 - 1])
    }

    /// Cast node pointer back to an opaque version, losing type information
    pub fn to_opaque(self) -> (opaque: OpaqueNodePtr<N::Value>)
        requires
            self.wf(),
        ensures
            opaque.wf(),
            opaque.address() == self.address(),
            opaque.class() == Some(N::TYPE),
    {
        OpaqueNodePtr::new(self)
    }

    /// Acquires the underlying address.
    pub fn to_ptr(self) -> (ptr: usize)
        ensures
            ptr == self.address(),
    {
        self.0
    }
}

impl<V> OpaqueNodePtr<V> {
    /// The tag bits of the word.
    pub open spec fn tag(self) -> int {
        self.0 as int % 8
    }

    /// The address in the word: the word with its tag bits cleared.
    pub open spec fn address(self) -> int {
        self.0 as int - self.0 as int % 8
    }

    /// The class that the tag stands for, if it stands for one.
    pub open spec fn class(self) -> Option<NodeType> {
        NodeType::of_tag(self.tag())
    }

    /// The tag stands for a class and the address is one a node can have.
    pub open spec fn wf(self) -> bool {
        &&& self.class() is Some
        &&& is_node_address(self.address())
    }

    /// Construct a new opaque node pointer from an existing non-null node
    /// pointer.
    pub fn new<N>(pointer: NodePtr<N>) -> (opaque: Self) where N: Node<Value = V>
        requires
            pointer.wf(),
        ensures
            opaque.wf(),
            opaque.address() == pointer.address(),
            opaque.class() == Some(N::TYPE),
            opaque.0 == pointer.address() + N::TYPE.tag(),
    {
        let tag = N::TYPE.to_u8();
        OpaqueNodePtr(pointer.0 + tag as usize, PhantomData)
    }

    /// Return `true` if this Node_ pointer points to the specified concrete
    /// [`NodeType`].
    pub fn is<N: Node>(&self) -> (matches: bool)
        ensures
            matches == (self.class() == Some(N::TYPE)),
    {
        self.0 % NODE_ALIGNMENT == N::TYPE.to_u8() as usize
    }

    /// Create a non-opaque node pointer that will eliminate future type
    /// assertions, if the type of the pointed node matches the given
    /// node type.
    pub fn cast<N: Node>(self) -> (pointer: Option<NodePtr<N>>)
        ensures
            self.class() == Some(N::TYPE) ==> pointer is Some && pointer->0.address()
                == self.address(),
            self.class() != Some(N::TYPE) ==> pointer is None,
            self.wf() && pointer is Some ==> pointer->0.wf(),
    {
        if self.is::<N>() {
            Some(NodePtr(self.0 - self.0 % NODE_ALIGNMENT, PhantomData))
        } else {
            None
        }
    }

    /// Cast this opaque pointer type an enum that contains a pointer to the
    /// concrete node type.
    pub fn to_node_ptr(self) -> (pointer: InnerNodePtr<V>)
        requires
            self.class() is Some,
        ensures
            Some(pointer.class()) == self.class(),
            pointer.address() == self.address(),
    {
        let address = self.0 - self.0 % NODE_ALIGNMENT;
        match self.node_type() {
            NodeType::Node4 => InnerNodePtr::Node4(NodePtr(address, PhantomData)),
            NodeType::Node16 => InnerNodePtr::Node16(NodePtr(address, PhantomData)),
            NodeType::Node48 => InnerNodePtr::Node48(NodePtr(address, PhantomData)),
            NodeType::Node256 => InnerNodePtr::Node256(NodePtr(address, PhantomData)),
            NodeType::Leaf => InnerNodePtr::LeafNode(NodePtr(address, PhantomData)),
        }
    }

    /// Retrieve the runtime node type information.
    pub fn node_type(self) -> (node_type: NodeType)
        requires
            self.class() is Some,
        ensures
            Some(node_type) == self.class(),
    {
        let tag = (self.0 % NODE_ALIGNMENT) as u8;
        match NodeType::from_u8(tag) {
            Some(node_type) => node_type,
            None => NodeType::Leaf,
        }
    }
}

/// The tag of a word is its three low bits, and the address is the word
/// with those bits cleared.
pub proof fn lemma_tag_bits(word: u64)
    ensures
        word % 8 == word & 0b111,
        word - word % 8 == word & !0b111u64,
{
    assert(word % 8 == word & 0b111) by (bit_vector);
    assert(word - word % 8 == word & !0b111u64) by (bit_vector);
}

/// Two tagged pointers are the same word exactly when they agree on the
/// address and on the tag.
pub proof fn lemma_opaque_ptr_word<V>(a: OpaqueNodePtr<V>, b: OpaqueNodePtr<V>)
    ensures
        (a.address() == b.address() && a.tag() == b.tag()) <==> a.0 == b.0,
        a.0 == b.0 <==> a == b,
        a.0 == a.address() + a.tag(),
        0 <= a.tag() < 8,
        a.address() % 8 == 0,
{
}

} // verus!

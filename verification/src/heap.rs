//! The heap of nodes: where nodes are allocated, reached through their
//! addresses, and released.

use crate::nodes::header::Header;
use crate::nodes::inner::{is_first_key, lists_children, InnerNode};
use crate::nodes::inner16::InnerNode16;
use crate::nodes::inner256::InnerNode256;
use crate::nodes::inner4::InnerNode4;
use crate::nodes::inner48::InnerNode48;
use crate::nodes::leaf::LeafNode;
use crate::nodes::node_type::NodeType;
use crate::nodes::pointer::{is_node_address, Node, NodePtr, OpaqueNodePtr};
use vstd::prelude::*;

verus! {

/// One place of the heap: vacant, or holding a node of one of the five
/// classes.
pub enum Slot<V> {
    /// No node lives here.
    Vacant,
    /// A leaf lives here.
    Leaf(LeafNode<V>),
    /// An inner node with room for four children lives here.
    Node4(InnerNode4<V>),
    /// An inner node with room for sixteen children lives here.
    Node16(InnerNode16<V>),
    /// An inner node with room for forty-eight children lives here.
    Node48(InnerNode48<V>),
    /// An inner node with room for every key byte lives here.
    Node256(InnerNode256<V>),
}

impl<V> Slot<V> {
    /// The class of the node in this place, if there is a node.
    pub open spec fn class(self) -> Option<NodeType> {
        match self {
            Slot::Vacant => None,
            Slot::Leaf(_) => Some(NodeType::Leaf),
            Slot::Node4(_) => Some(NodeType::Node4),
            Slot::Node16(_) => Some(NodeType::Node16),
            Slot::Node48(_) => Some(NodeType::Node48),
            Slot::Node256(_) => Some(NodeType::Node256),
        }
    }

    /// Whether an inner node lives here.
    pub open spec fn is_inner(self) -> bool {
        self is Node4 || self is Node16 || self is Node48 || self is Node256
    }

    /// The mapping from key byte to child of the inner node in this place.
    pub open spec fn children(self) -> Map<u8, OpaqueNodePtr<V>> {
        match self {
            Slot::Node4(node) => node.children(),
            Slot::Node16(node) => node.children(),
            Slot::Node48(node) => node.children(),
            Slot::Node256(node) => node.children(),
            _ => Map::empty(),
        }
    }

    /// The header of the inner node in this place.
    pub open spec fn header(self) -> Header {
        match self {
            Slot::Node4(node) => node.header,
            Slot::Node16(node) => node.header,
            Slot::Node48(node) => node.header,
            Slot::Node256(node) => node.header,
            _ => arbitrary(),
        }
    }

    /// The whole key prefix of the inner node in this place.
    pub open spec fn prefix(self) -> Seq<u8> {
        self.header()@.prefix
    }

    /// A coherent inner node holds as many children as its header says.
    pub proof fn lemma_slot_population(self)
        requires
            self.node_wf(),
        ensures
            self.header().wf(),
            self.children().dom().finite(),
            self.children().dom().len() == self.header()@.num_children,
            self.header()@.num_children <= self.class()->0.max_children(),
    {
        match self {
            Slot::Node4(node) => node.lemma_population(),
            Slot::Node16(node) => node.lemma_population(),
            Slot::Node48(node) => node.lemma_population(),
            Slot::Node256(node) => node.lemma_population(),
            _ => {},
        }
        lemma_node_types::<V>();
    }

    /// The layout of the inner node in this place is coherent.
    pub open spec fn node_wf(self) -> bool {
        match self {
            Slot::Node4(node) => node.wf(),
            Slot::Node16(node) => node.wf(),
            Slot::Node48(node) => node.wf(),
            Slot::Node256(node) => node.wf(),
            _ => false,
        }
    }
}

/// The address of the place with the given index: places lie eight bytes
/// apart, and no place has the address zero.
pub open spec fn address_of(index: int) -> int {
    (index + 1) * 8
}

/// The index of the place with the given address.
pub open spec fn index_of(address: int) -> int {
    address / 8 - 1
}

/// A heap of nodes.
///
/// A node is allocated into a vacant place, or into a new one, and is known
/// from then on by the address of its place, until it is released.
pub struct NodeHeap<V> {
    /// The places, vacant or not.
    pub slots: Vec<Slot<V>>,
    /// The indices of the vacant places.
    pub vacant: Vec<usize>,
    /// For each node that stands in a tree, the key bytes that lead to it
    /// from the root of the tree.
    pub paths: Ghost<Map<int, Seq<u8>>>,
}

impl<V> NodeHeap<V> {
    /// Every place has an address that fits a tagged pointer, and the list of
    /// vacant places names each vacant place once and no other place.
    pub open spec fn wf(&self) -> bool {
        &&& 8 * self.slots@.len() + 7 <= usize::MAX
        &&& self.vacant@.no_duplicates()
        &&& forall|i: int|
            0 <= i < self.vacant@.len() ==> (#[trigger] self.vacant@[i]) < self.slots@.len()
        &&& forall|index: int|
            0 <= index < self.slots@.len() ==> (self.slots@[index] is Vacant
                <==> self.vacant@.contains(index as usize))
    }

    /// The place at an address.
    pub open spec fn slot_at(&self, address: int) -> Slot<V> {
        self.slots@[index_of(address)]
    }

    /// Whether a node lives at the address.
    pub open spec fn is_live(&self, address: int) -> bool {
        &&& is_node_address(address)
        &&& 0 <= index_of(address) < self.slots@.len()
        &&& !(self.slot_at(address) is Vacant)
    }

    /// Whether the pointer leads to a node of the class that its tag names.
    pub open spec fn holds(&self, pointer: OpaqueNodePtr<V>) -> bool {
        &&& pointer.wf()
        &&& self.is_live(pointer.address())
        &&& self.slot_at(pointer.address()).class() == pointer.class()
    }

    /// The number of nodes that live in the heap.
    pub open spec fn live(&self) -> int {
        self.slots@.len() - self.vacant@.len()
    }

    /// The number of nodes that can still be allocated.
    pub open spec fn spare(&self) -> int {
        self.vacant@.len() + (usize::MAX - 7) / 8 - self.slots@.len()
    }

    /// The key bytes that lead to the node at an address.
    pub open spec fn path_of(&self, address: int) -> Seq<u8> {
        self.paths@[address]
    }

    /// A heap in which no node lives.
    pub fn new() -> (heap: Self)
        ensures
            heap.wf(),
            heap.live() == 0,
            forall|address: int| !heap.is_live(address),
            heap.holds_tree(None),
            heap.view() == Map::<Seq<u8>, V>::empty(),
    {
        let heap = NodeHeap { slots: Vec::new(), vacant: Vec::new(), paths: Ghost(Map::empty()) };
        assert(heap.view() =~= Map::<Seq<u8>, V>::empty());
        heap
    }

    /// The number of nodes that live in the heap.
    pub fn live_count(&self) -> (count: usize)
        requires
            self.wf(),
        ensures
            count == self.live(),
    {
        proof {
            self.lemma_vacant_bounded();
        }
        self.slots.len() - self.vacant.len()
    }

    /// The number of nodes that can still be allocated.
    pub fn spare_capacity(&self) -> (count: usize)
        requires
            self.wf(),
        ensures
            count == self.spare(),
    {
        proof {
            self.lemma_vacant_bounded();
        }
        (usize::MAX - 7) / 8 - self.slots.len() + self.vacant.len()
    }

    /// There are no more vacant places than places.
    pub proof fn lemma_vacant_bounded(&self)
        requires
            self.wf(),
        ensures
            self.vacant@.len() <= self.slots@.len(),
            self.live() >= 0,
    {
        let indices = self.vacant@.to_set();
        let all = Set::new(|index: usize| index < self.slots@.len());
        let len = self.slots@.len();
        self.vacant@.unique_seq_to_set();
        assert(indices.subset_of(all)) by {
            assert forall|index: usize| indices.contains(index) implies all.contains(index) by {
                let i = choose|i: int| 0 <= i < self.vacant@.len() && self.vacant@[i] == index;
                assert(self.vacant@[i] < self.slots@.len());
            }
        }
        lemma_indices_below(len);
        vstd::set_lib::lemma_len_subset(indices, all);
    }

    /// A heap in which no node lives counts no live node.
    pub proof fn lemma_no_live(&self)
        requires
            self.wf(),
            forall|address: int| !self.is_live(address),
        ensures
            self.live() == 0,
    {
        let indices = self.vacant@.to_set();
        let len = self.slots@.len();
        let all = Set::new(|index: usize| index < len);
        self.vacant@.unique_seq_to_set();
        self.lemma_vacant_bounded();
        lemma_indices_below(len);
        assert(all.subset_of(indices)) by {
            assert forall|index: usize| all.contains(index) implies indices.contains(index) by {
                let address = address_of(index as int);
                assert(index_of(address) == index);
                assert(!self.is_live(address));
                assert(self.slots@[index as int] is Vacant);
                assert(self.vacant@.contains(index));
            }
        }
        vstd::set_lib::lemma_len_subset(all, indices);
    }

    /// Put a node into the heap, and return the address of its place.
    pub fn allocate(&mut self, slot: Slot<V>) -> (address: usize)
        requires
            old(self).wf(),
            old(self).spare() >= 1,
            !(slot is Vacant),
        ensures
            final(self).wf(),
            is_node_address(address as int),
            !old(self).is_live(address as int),
            final(self).is_live(address as int),
            final(self).slot_at(address as int) == slot,
            forall|other: int|
                other != address ==> final(self).is_live(other) == old(self).is_live(other),
            forall|other: int|
                old(self).is_live(other) ==> final(self).slot_at(other) == old(self).slot_at(other),
            final(self).paths == old(self).paths,
            final(self).live() == old(self).live() + 1,
            final(self).spare() == old(self).spare() - 1,
    {
        proof {
            self.lemma_vacant_bounded();
        }
        match self.vacant.pop() {
            Some(index) => {
                assert(old(self).vacant@[old(self).vacant@.len() - 1] == index);
                assert(old(self).vacant@.contains(index));
                self.slots[index] = slot;
                proof {
                    let before = old(self).vacant@;
                    assert forall|other: int| 0 <= other < self.slots@.len() implies (
                    self.slots@[other] is Vacant <==> self.vacant@.contains(other as usize)) by {
                        if before.contains(other as usize) {
                            let i = choose|i: int|
                                0 <= i < before.len() && before[i] == other as usize;
                            if i < before.len() - 1 {
                                assert(self.vacant@[i] == other as usize);
                            }
                        }
                        if self.vacant@.contains(other as usize) {
                            let i = choose|i: int|
                                0 <= i < self.vacant@.len() && self.vacant@[i] == other as usize;
                            assert(before[i] == other as usize);
                        }
                    }
                    assert forall|other: int| other != (index + 1) * 8 implies self.is_live(other)
                        == old(self).is_live(other) by {
                        if is_node_address(other) {
                            assert(index_of(other) != index);
                        }
                    }
                    assert forall|other: int| old(self).is_live(other) implies self.slot_at(other)
                        == old(self).slot_at(other) by {
                        assert(index_of(other) != index);
                    }
                }
                (index + 1) * 8
            },
            None => {
                self.slots.push(slot);
                proof {
                    assert forall|other: int| other != self.slots@.len() * 8 implies self.is_live(
                        other,
                    ) == old(self).is_live(other) by {
                        if is_node_address(other) {
                            assert(index_of(other) != old(self).slots@.len());
                        }
                    }
                }
                self.slots.len() * 8
            },
        }
    }

    /// Take the node at an address out of the heap, which leaves its place
    /// vacant.
    pub fn release(&mut self, address: usize) -> (slot: Slot<V>)
        requires
            old(self).wf(),
            old(self).is_live(address as int),
        ensures
            final(self).wf(),
            slot == old(self).slot_at(address as int),
            !final(self).is_live(address as int),
            forall|other: int|
                other != address ==> final(self).is_live(other) == old(self).is_live(other),
            forall|other: int|
                other != address && old(self).is_live(other) ==> final(self).slot_at(other) == old(
                    self,
                ).slot_at(other),
            final(self).paths == old(self).paths,
            final(self).live() == old(self).live() - 1,
            final(self).spare() == old(self).spare() + 1,
    {
        let index = address / 8 - 1;
        let mut slot = Slot::Vacant;
        std::mem::swap(&mut self.slots[index], &mut slot);
        self.vacant.push(index);
        proof {
            let before = old(self).vacant@;
            assert(!before.contains(index));
            assert forall|i: int, j: int|
                0 <= i < self.vacant@.len() && 0 <= j < self.vacant@.len() && i
                    != j implies self.vacant@[i] != self.vacant@[j] by {
                if i < before.len() {
                    assert(before.contains(self.vacant@[i]));
                }
                if j < before.len() {
                    assert(before.contains(self.vacant@[j]));
                }
            }
            assert forall|other: int| 0 <= other < self.slots@.len() implies (
            self.slots@[other] is Vacant <==> self.vacant@.contains(other as usize)) by {
                if before.contains(other as usize) {
                    let i = choose|i: int| 0 <= i < before.len() && before[i] == other as usize;
                    assert(self.vacant@[i] == other as usize);
                }
                if other == index {
                    assert(self.vacant@[before.len() as int] == index);
                }
            }
            assert forall|other: int| other != address implies self.is_live(other) == old(
                self,
            ).is_live(other) by {
                if is_node_address(other) {
                    assert(index_of(other) != index);
                }
            }
            assert forall|other: int|
                other != address && old(self).is_live(other) implies self.slot_at(other) == old(
                self,
            ).slot_at(other) by {
                assert(index_of(other) != index);
            }
        }
        slot
    }
}

impl<V> NodeHeap<V> {
    /// Whether the pointer leads to a coherent inner node.
    pub open spec fn holds_inner(&self, pointer: OpaqueNodePtr<V>) -> bool {
        &&& self.holds(pointer)
        &&& self.slot_at(pointer.address()).is_inner()
        &&& self.slot_at(pointer.address()).node_wf()
    }

    /// The same heap but for the place at one address.
    pub open spec fn differs_only_at(&self, other: &Self, address: int) -> bool {
        &&& self.slots@.len() == other.slots@.len()
        &&& self.vacant == other.vacant
        &&& self.paths == other.paths
        &&& forall|index: int|
            0 <= index < self.slots@.len() && index != index_of(address) ==> self.slots@[index]
                == other.slots@[index]
    }

    /// The place at an address where a node lives.
    pub fn slot_ref(&self, address: usize) -> (slot: &Slot<V>)
        requires
            self.is_live(address as int),
        ensures
            *slot == self.slot_at(address as int),
    {
        &self.slots[address / 8 - 1]
    }

    /// The leaf that the pointer leads to.
    pub fn leaf_at(&self, pointer: OpaqueNodePtr<V>) -> (leaf: &LeafNode<V>)
        requires
            self.holds(pointer),
            pointer.class() == Some(NodeType::Leaf),
        ensures
            self.slot_at(pointer.address()) == Slot::Leaf(*leaf),
    {
        let index = pointer.0 / 8 - 1;
        assert(index == index_of(pointer.address()));
        match &self.slots[index] {
            Slot::Leaf(leaf) => leaf,
            _ => vstd::pervasive::unreached(),
        }
    }

    /// The header of the inner node that the pointer leads to.
    pub fn header_at(&self, pointer: OpaqueNodePtr<V>) -> (header: &Header)
        requires
            self.holds(pointer),
            self.slot_at(pointer.address()).is_inner(),
        ensures
            *header == self.slot_at(pointer.address()).header(),
    {
        let index = pointer.0 / 8 - 1;
        assert(index == index_of(pointer.address()));
        match &self.slots[index] {
            Slot::Node4(node) => node.header(),
            Slot::Node16(node) => node.header(),
            Slot::Node48(node) => node.header(),
            Slot::Node256(node) => node.header(),
            _ => vstd::pervasive::unreached(),
        }
    }

    /// Search through the inner node that the pointer leads to for a child
    /// node that corresponds to the given key fragment.
    pub fn lookup_child(&self, pointer: OpaqueNodePtr<V>, key_fragment: u8) -> (child: Option<
        OpaqueNodePtr<V>,
    >)
        requires
            self.holds_inner(pointer),
        ensures
            self.slot_at(pointer.address()).children().contains_key(key_fragment) ==> child
                == Some(self.slot_at(pointer.address()).children()[key_fragment]),
            !self.slot_at(pointer.address()).children().contains_key(key_fragment) ==> child
                is None,
    {
        let index = pointer.0 / 8 - 1;
        assert(index == index_of(pointer.address()));
        match &self.slots[index] {
            Slot::Node4(node) => node.lookup_child(key_fragment),
            Slot::Node16(node) => node.lookup_child(key_fragment),
            Slot::Node48(node) => node.lookup_child(key_fragment),
            Slot::Node256(node) => node.lookup_child(key_fragment),
            _ => None,
        }
    }

    /// All the children of the inner node that the pointer leads to, with
    /// their key fragments, in ascending order of key fragment.
    pub fn child_entries(&self, pointer: OpaqueNodePtr<V>) -> (pairs: Vec<(u8, OpaqueNodePtr<V>)>)
        requires
            self.holds_inner(pointer),
        ensures
            lists_children(pairs@, self.slot_at(pointer.address()).children()),
            pairs@.len() == self.slot_at(pointer.address()).header()@.num_children,
    {
        let index = pointer.0 / 8 - 1;
        assert(index == index_of(pointer.address()));
        match &self.slots[index] {
            Slot::Node4(node) => node.entries(),
            Slot::Node16(node) => node.entries(),
            Slot::Node48(node) => node.entries(),
            Slot::Node256(node) => node.entries(),
            _ => vstd::pervasive::unreached(),
        }
    }

    /// The first child of the inner node that the pointer leads to: the
    /// child with the smallest key fragment.
    pub fn first_child(&self, pointer: OpaqueNodePtr<V>) -> (child: Option<OpaqueNodePtr<V>>)
        requires
            self.holds_inner(pointer),
        ensures
            child is None <==> self.slot_at(pointer.address()).children().dom() =~= Set::empty(),
            child is Some ==> exists|key: u8|
                is_first_key(self.slot_at(pointer.address()).children(), key) && self.slot_at(
                    pointer.address(),
                ).children()[key] == child->0,
    {
        let index = pointer.0 / 8 - 1;
        assert(index == index_of(pointer.address()));
        let child = match &self.slots[index] {
            Slot::Node4(node) => node.first_child(),
            Slot::Node16(node) => node.first_child(),
            Slot::Node48(node) => node.first_child(),
            Slot::Node256(node) => node.first_child(),
            _ => vstd::pervasive::unreached(),
        };
        proof {
            let children = self.slot_at(pointer.address()).children();
            if child is Some {
                let key = choose|key: u8| is_first_key(children, key) && children[key] == child->0;
                assert(is_first_key(children, key) && children[key] == child->0);
            }
        }
        child
    }

    /// Put a value into the leaf that the pointer leads to, and return the
    /// value that the leaf held.
    pub fn replace_value(&mut self, pointer: OpaqueNodePtr<V>, value: V) -> (previous: V)
        requires
            old(self).wf(),
            old(self).holds(pointer),
            pointer.class() == Some(NodeType::Leaf),
        ensures
            final(self).wf(),
            final(self).holds(pointer),
            final(self).differs_only_at(old(self), pointer.address()),
            previous == old(self).slot_at(pointer.address())->Leaf_0.value,
            final(self).slot_at(pointer.address()) is Leaf,
            final(self).slot_at(pointer.address())->Leaf_0.value == value,
            final(self).slot_at(pointer.address())->Leaf_0.key == old(self).slot_at(
                pointer.address(),
            )->Leaf_0.key,
    {
        let index = pointer.0 / 8 - 1;
        assert(index == index_of(pointer.address()));
        let mut value = value;
        match &mut self.slots[index] {
            Slot::Leaf(leaf) => {
                std::mem::swap(&mut leaf.value, &mut value);
            },
            _ => {},
        }
        value
    }

    /// Put another header in the place of the header of the inner node that
    /// the pointer leads to.
    pub fn set_header(&mut self, pointer: OpaqueNodePtr<V>, header: Header)
        requires
            old(self).wf(),
            old(self).holds_inner(pointer),
            header.wf(),
            header@.num_children == old(self).slot_at(pointer.address()).header()@.num_children,
        ensures
            final(self).wf(),
            final(self).holds_inner(pointer),
            final(self).differs_only_at(old(self), pointer.address()),
            final(self).slot_at(pointer.address()).children() == old(self).slot_at(
                pointer.address(),
            ).children(),
            final(self).slot_at(pointer.address()).header() == header,
    {
        let index = pointer.0 / 8 - 1;
        assert(index == index_of(pointer.address()));
        match &mut self.slots[index] {
            Slot::Node4(node) => node.set_header(header),
            Slot::Node16(node) => node.set_header(header),
            Slot::Node48(node) => node.set_header(header),
            Slot::Node256(node) => node.set_header(header),
            _ => {},
        }
    }

    /// Take the child with the given key fragment out of the inner node that
    /// the pointer leads to, and return it if there was one.
    pub fn remove_child(&mut self, pointer: OpaqueNodePtr<V>, key_fragment: u8) -> (child: Option<
        OpaqueNodePtr<V>,
    >)
        requires
            old(self).wf(),
            old(self).holds_inner(pointer),
        ensures
            final(self).wf(),
            final(self).holds_inner(pointer),
            final(self).differs_only_at(old(self), pointer.address()),
            final(self).slot_at(pointer.address()).children() == old(self).slot_at(
                pointer.address(),
            ).children().remove(key_fragment),
            final(self).slot_at(pointer.address()).header()@.prefix == old(self).slot_at(
                pointer.address(),
            ).header()@.prefix,
            final(self).slot_at(pointer.address()).header()@.stored == old(self).slot_at(
                pointer.address(),
            ).header()@.stored,
            old(self).slot_at(pointer.address()).children().contains_key(key_fragment) ==> child
                == Some(old(self).slot_at(pointer.address()).children()[key_fragment]),
            !old(self).slot_at(pointer.address()).children().contains_key(key_fragment) ==> child
                is None,
    {
        let index = pointer.0 / 8 - 1;
        assert(index == index_of(pointer.address()));
        match &mut self.slots[index] {
            Slot::Node4(node) => node.remove_child(key_fragment),
            Slot::Node16(node) => node.remove_child(key_fragment),
            Slot::Node48(node) => node.remove_child(key_fragment),
            Slot::Node256(node) => node.remove_child(key_fragment),
            _ => None,
        }
    }

    /// Returns true if the inner node that the pointer leads to has no more
    /// space to store children.
    pub fn is_full(&self, pointer: OpaqueNodePtr<V>) -> (full: bool)
        requires
            self.holds_inner(pointer),
        ensures
            full == (self.slot_at(pointer.address()).header()@.num_children
                == pointer.class()->0.max_children()),
    {
        let index = pointer.0 / 8 - 1;
        assert(index == index_of(pointer.address()));
        proof {
            lemma_node_types::<V>();
        }
        match &self.slots[index] {
            Slot::Node4(node) => node.is_full(),
            Slot::Node16(node) => node.is_full(),
            Slot::Node48(node) => node.is_full(),
            Slot::Node256(node) => node.is_full(),
            _ => false,
        }
    }

    /// Put the inner node that the pointer leads to into the next larger
    /// class, with the same children and the same header. The node of the
    /// smaller class is released, and the pointer to the node of the larger
    /// class is returned.
    pub fn grow(&mut self, pointer: OpaqueNodePtr<V>) -> (grown: OpaqueNodePtr<V>)
        requires
            old(self).wf(),
            old(self).holds_inner(pointer),
            pointer.class() != Some(NodeType::Node256),
        ensures
            final(self).wf(),
            final(self).holds_inner(grown),
            grown.class() == Some(pointer.class()->0.next_larger()),
            final(self).slot_at(grown.address()).children() == old(self).slot_at(
                pointer.address(),
            ).children(),
            final(self).slot_at(grown.address()).header()@ == old(self).slot_at(
                pointer.address(),
            ).header()@,
            grown.address() == pointer.address() || !old(self).is_live(grown.address()),
            grown.address() != pointer.address() ==> !final(self).is_live(pointer.address()),
            forall|other: int|
                other != pointer.address() && other != grown.address() ==> final(self).is_live(
                    other,
                ) == old(self).is_live(other),
            forall|other: int|
                other != pointer.address() && other != grown.address() && old(self).is_live(other)
                    ==> final(self).slot_at(other) == old(self).slot_at(other),
            final(self).paths == old(self).paths,
            final(self).live() == old(self).live(),
            final(self).spare() == old(self).spare(),
    {
        proof {
            lemma_node_types::<V>();
        }
        let address = pointer.0 - pointer.0 % 8;
        match self.release(address) {
            Slot::Node4(node) => {
                let larger = node.grow();
                let place = self.allocate(Slot::Node16(larger));
                OpaqueNodePtr::new(NodePtr::<InnerNode16<V>>::new(place))
            },
            Slot::Node16(node) => {
                let larger = node.grow();
                let place = self.allocate(Slot::Node48(larger));
                OpaqueNodePtr::new(NodePtr::<InnerNode48<V>>::new(place))
            },
            Slot::Node48(node) => {
                let larger = node.grow();
                let place = self.allocate(Slot::Node256(larger));
                OpaqueNodePtr::new(NodePtr::<InnerNode256<V>>::new(place))
            },
            _ => vstd::pervasive::unreached(),
        }
    }

    /// Put the inner node that the pointer leads to into the next smaller
    /// class, with the same children and the same header. The node of the
    /// larger class is released, and the pointer to the node of the smaller
    /// class is returned.
    pub fn shrink(&mut self, pointer: OpaqueNodePtr<V>) -> (shrunk: OpaqueNodePtr<V>)
        requires
            old(self).wf(),
            old(self).holds_inner(pointer),
            pointer.class() != Some(NodeType::Node4),
            old(self).slot_at(pointer.address()).header()@.num_children
                <= pointer.class()->0.next_smaller().max_children(),
        ensures
            final(self).wf(),
            final(self).holds_inner(shrunk),
            shrunk.class() == Some(pointer.class()->0.next_smaller()),
            final(self).slot_at(shrunk.address()).children() == old(self).slot_at(
                pointer.address(),
            ).children(),
            final(self).slot_at(shrunk.address()).header()@ == old(self).slot_at(
                pointer.address(),
            ).header()@,
            shrunk.address() == pointer.address() || !old(self).is_live(shrunk.address()),
            shrunk.address() != pointer.address() ==> !final(self).is_live(pointer.address()),
            forall|other: int|
                other != pointer.address() && other != shrunk.address() ==> final(self).is_live(
                    other,
                ) == old(self).is_live(other),
            forall|other: int|
                other != pointer.address() && other != shrunk.address() && old(self).is_live(other)
                    ==> final(self).slot_at(other) == old(self).slot_at(other),
            final(self).paths == old(self).paths,
            final(self).live() == old(self).live(),
            final(self).spare() == old(self).spare(),
    {
        proof {
            lemma_node_types::<V>();
        }
        let address = pointer.0 - pointer.0 % 8;
        match self.release(address) {
            Slot::Node16(node) => {
                let smaller = node.shrink();
                let place = self.allocate(Slot::Node4(smaller));
                OpaqueNodePtr::new(NodePtr::<InnerNode4<V>>::new(place))
            },
            Slot::Node48(node) => {
                let smaller = node.shrink();
                let place = self.allocate(Slot::Node16(smaller));
                OpaqueNodePtr::new(NodePtr::<InnerNode16<V>>::new(place))
            },
            Slot::Node256(node) => {
                let smaller = node.shrink();
                let place = self.allocate(Slot::Node48(smaller));
                OpaqueNodePtr::new(NodePtr::<InnerNode48<V>>::new(place))
            },
            _ => vstd::pervasive::unreached(),
        }
    }

    /// Write a child pointer with key fragment to the inner node that the
    /// pointer leads to.
    pub fn write_child(
        &mut self,
        pointer: OpaqueNodePtr<V>,
        key_fragment: u8,
        child_pointer: OpaqueNodePtr<V>,
    )
        requires
            old(self).wf(),
            old(self).holds_inner(pointer),
            old(self).slot_at(pointer.address()).children().contains_key(key_fragment) || old(
                self,
            ).slot_at(pointer.address()).header()@.num_children
                < pointer.class()->0.max_children(),
        ensures
            final(self).wf(),
            final(self).holds_inner(pointer),
            final(self).differs_only_at(old(self), pointer.address()),
            final(self).slot_at(pointer.address()).children() == old(self).slot_at(
                pointer.address(),
            ).children().insert(key_fragment, child_pointer),
            final(self).slot_at(pointer.address()).header()@.prefix == old(self).slot_at(
                pointer.address(),
            ).header()@.prefix,
            final(self).slot_at(pointer.address()).header()@.stored == old(self).slot_at(
                pointer.address(),
            ).header()@.stored,
    {
        let index = pointer.0 / 8 - 1;
        assert(index == index_of(pointer.address()));
        proof {
            lemma_node_types::<V>();
        }
        match &mut self.slots[index] {
            Slot::Node4(node) => node.write_child(key_fragment, child_pointer),
            Slot::Node16(node) => node.write_child(key_fragment, child_pointer),
            Slot::Node48(node) => node.write_child(key_fragment, child_pointer),
            Slot::Node256(node) => node.write_child(key_fragment, child_pointer),
            _ => {},
        }
    }
}

/// The class that each layout is tagged with.
pub proof fn lemma_node_types<V>()
    ensures
        <LeafNode<V> as Node>::TYPE == NodeType::Leaf,
        <InnerNode4<V> as Node>::TYPE == NodeType::Node4,
        <InnerNode16<V> as Node>::TYPE == NodeType::Node16,
        <InnerNode48<V> as Node>::TYPE == NodeType::Node48,
        <InnerNode256<V> as Node>::TYPE == NodeType::Node256,
{
    LeafNode::<V>::lemma_node_type();
    InnerNode4::<V>::lemma_node_type();
    InnerNode16::<V>::lemma_node_type();
    InnerNode48::<V>::lemma_node_type();
    InnerNode256::<V>::lemma_node_type();
}

/// There are exactly `count` bytes below `count`.
pub proof fn lemma_bytes_below(count: nat)
    requires
        count <= 256,
    ensures
        Set::new(|byte: u8| byte < count).finite(),
        Set::new(|byte: u8| byte < count).len() == count,
    decreases count,
{
    let all = Set::new(|byte: u8| byte < count);
    if count == 0 {
        assert(all =~= Set::empty());
    } else {
        let fewer = Set::new(|byte: u8| byte < count - 1);
        lemma_bytes_below((count - 1) as nat);
        assert(all =~= fewer.insert((count - 1) as u8));
    }
}

/// A mapping from key bytes that has no child for some key byte has fewer
/// than 256 children.
pub proof fn lemma_room_for_byte<P>(children: Map<u8, P>, key_byte: u8)
    requires
        children.dom().finite(),
        !children.contains_key(key_byte),
    ensures
        children.dom().len() < 256,
{
    let all = Set::new(|byte: u8| byte < 256);
    lemma_bytes_below(256);
    let others = all.remove(key_byte);
    assert(children.dom().subset_of(others));
    vstd::set_lib::lemma_len_subset(children.dom(), others);
}

/// There are exactly `len` indices below `len`.
pub proof fn lemma_indices_below(len: nat)
    requires
        len <= usize::MAX,
    ensures
        Set::new(|index: usize| index < len).finite(),
        Set::new(|index: usize| index < len).len() == len,
    decreases len,
{
    let all = Set::new(|index: usize| index < len);
    if len == 0 {
        assert(all =~= Set::empty());
    } else {
        let fewer = Set::new(|index: usize| index < len - 1);
        lemma_indices_below((len - 1) as nat);
        assert(all =~= fewer.insert((len - 1) as usize));
    }
}

} // verus!


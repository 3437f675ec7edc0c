//! What the four inner node layouts have in common.

use crate::nodes::header::Header;
use crate::nodes::pointer::{Node, OpaqueNodePtr};
use vstd::prelude::*;

verus! {

/// Whether `key` is the smallest key byte of `children`.
pub open spec fn is_first_key<P>(children: Map<u8, P>, key: u8) -> bool {
    &&& children.contains_key(key)
    &&& forall|other: u8| children.contains_key(other) ==> key <= other
}

/// Whether `key` is the largest key byte of `children`.
pub open spec fn is_last_key<P>(children: Map<u8, P>, key: u8) -> bool {
    &&& children.contains_key(key)
    &&& forall|other: u8| children.contains_key(other) ==> other <= key
}

/// Whether `pairs` lists `children` in ascending order of key byte: every
/// pair of the list is one of the mapping, the key bytes ascend, and no key
/// byte of the mapping is left out.
pub open spec fn lists_children<P>(pairs: Seq<(u8, P)>, children: Map<u8, P>) -> bool {
    &&& forall|i: int|
        0 <= i < pairs.len() ==> children.contains_key(#[trigger] pairs[i].0)
            && children[pairs[i].0] == pairs[i].1
    &&& forall|i: int, j: int| 0 <= i < j < pairs.len() ==> pairs[i].0 < pairs[j].0
    &&& forall|key: u8|
        children.contains_key(key) ==> exists|i: int|
            0 <= i < pairs.len() && #[trigger] pairs[i].0 == key
}

/// Common methods implemented by all inner node.
pub trait InnerNode: Node + Sized {
    /// The mapping from key byte to child that the node holds.
    spec fn children(&self) -> Map<u8, OpaqueNodePtr<Self::Value>>;

    /// The header of the node.
    spec fn header_of(&self) -> Header;

    /// The layout of the node is coherent: its header is well formed, its
    /// arrays stand for a mapping, and the header counts the children of
    /// that mapping.
    spec fn wf(&self) -> bool;

    /// A coherent node holds as many children as its header says, and no
    /// more than its class has room for.
    proof fn lemma_population(&self)
        requires
            self.wf(),
        ensures
            self.header_of().wf(),
            self.children().dom().finite(),
            self.children().dom().len() == self.header_of()@.num_children,
            self.header_of()@.num_children <= Self::TYPE.max_children(),
    ;

    /// Search through this node for a child node that corresponds to the given
    /// key fragment.
    fn lookup_child(&self, key_fragment: u8) -> (child: Option<OpaqueNodePtr<Self::Value>>)
        requires
            self.wf(),
        ensures
            self.children().contains_key(key_fragment) ==> child == Some(
                self.children()[key_fragment],
            ),
            !self.children().contains_key(key_fragment) ==> child is None,
    ;

    /// Write a child pointer with key fragment to this inner node.
    ///
    /// If the key fragment already exists in the node, overwrite the existing
    /// child pointer. A new key fragment needs a node that is not full.
    fn write_child(&mut self, key_fragment: u8, child_pointer: OpaqueNodePtr<Self::Value>)
        requires
            old(self).wf(),
            old(self).children().contains_key(key_fragment) || old(self).header_of()@.num_children
                < Self::TYPE.max_children(),
        ensures
            final(self).wf(),
            final(self).children() == old(self).children().insert(key_fragment, child_pointer),
            final(self).header_of()@.prefix == old(self).header_of()@.prefix,
            final(self).header_of()@.stored == old(self).header_of()@.stored,
            final(self).header_of()@.num_children == old(self).header_of()@.num_children + (
            if old(self).children().contains_key(key_fragment) {
                0nat
            } else {
                1nat
            }),
            final(self).header_of()@.num_children <= Self::TYPE.max_children(),
    ;

    /// Take the child with the given key fragment out of this inner node, and
    /// return it if there was one.
    fn remove_child(&mut self, key_fragment: u8) -> (child: Option<OpaqueNodePtr<Self::Value>>)
        requires
            old(self).wf(),
        ensures
            final(self).wf(),
            final(self).children() == old(self).children().remove(key_fragment),
            final(self).header_of()@.prefix == old(self).header_of()@.prefix,
            final(self).header_of()@.stored == old(self).header_of()@.stored,
            final(self).header_of()@.num_children + (if old(self).children().contains_key(
                key_fragment,
            ) {
                1nat
            } else {
                0nat
            }) == old(self).header_of()@.num_children,
            old(self).children().contains_key(key_fragment) ==> child == Some(
                old(self).children()[key_fragment],
            ),
            !old(self).children().contains_key(key_fragment) ==> child is None,
    ;

    /// Access the header information for this node.
    fn header(&self) -> (header: &Header)
        ensures
            *header == self.header_of(),
    ;

    /// Access the header information for this node, to change it. A header
    /// that is left well formed, with the number of children that it had,
    /// leaves the node coherent, with the children that it had.
    fn header_mut(&mut self) -> (header: &mut Header)
        ensures
            *header == old(self).header_of(),
            final(self).header_of() == *final(header),
            old(self).wf() && final(header).wf() && final(header)@.num_children == old(
                self,
            ).header_of()@.num_children ==> final(self).wf() && final(self).children() == old(
                self,
            ).children(),
    ;

    /// Put another header in the place of the header of this node. The new
    /// header counts the same children; what it changes is the prefix.
    fn set_header(&mut self, header: Header)
        requires
            old(self).wf(),
            header.wf(),
            header@.num_children == old(self).header_of()@.num_children,
        ensures
            final(self).wf(),
            final(self).children() == old(self).children(),
            final(self).header_of() == header,
    ;

    /// Returns true if this node has no more space to store children.
    fn is_full(&self) -> (full: bool)
        requires
            self.wf(),
        ensures
            full == (self.header_of()@.num_children == Self::TYPE.max_children()),
    ;

    /// Return the first child of this inner node, if it exists: the child
    /// with the smallest key fragment.
    fn first_child(&self) -> (child: Option<OpaqueNodePtr<Self::Value>>)
        requires
            self.wf(),
        ensures
            child is None <==> self.children().dom() =~= Set::empty(),
            child is Some ==> exists|key: u8|
                is_first_key(self.children(), key) && self.children()[key] == child->0,
    ;

    /// Return the last child of this inner node, if it exists: the child
    /// with the largest key fragment.
    fn last_child(&self) -> (child: Option<OpaqueNodePtr<Self::Value>>)
        requires
            self.wf(),
        ensures
            child is None <==> self.children().dom() =~= Set::empty(),
            child is Some ==> exists|key: u8|
                is_last_key(self.children(), key) && self.children()[key] == child->0,
    ;

    /// All the children of this node with their key fragments, in ascending
    /// order of key fragment.
    fn entries(&self) -> (pairs: Vec<(u8, OpaqueNodePtr<Self::Value>)>)
        requires
            self.wf(),
        ensures
            lists_children(pairs@, self.children()),
            pairs@.len() == self.header_of()@.num_children,
    ;
}

/// Write a child pointer with key fragment to an inner node that may be
/// full. A node that is full and has no child for the key fragment is left
/// as it is, and the answer is `false`: it has to be grown first.
pub fn try_write_child<N: InnerNode>(
    node: &mut N,
    key_fragment: u8,
    child_pointer: OpaqueNodePtr<N::Value>,
) -> (written: bool)
    requires
        old(node).wf(),
    ensures
        written == (old(node).children().contains_key(key_fragment) || old(
            node,
        ).header_of()@.num_children < N::TYPE.max_children()),
        written ==> {
            &&& final(node).wf()
            &&& final(node).children() == old(node).children().insert(key_fragment, child_pointer)
            &&& final(node).header_of()@.prefix == old(node).header_of()@.prefix
            &&& final(node).header_of()@.stored == old(node).header_of()@.stored
            &&& final(node).header_of()@.num_children <= N::TYPE.max_children()
        },
        !written ==> *final(node) == *old(node),
{
    proof {
        node.lemma_population();
    }
    if node.lookup_child(key_fragment).is_some() || !node.is_full() {
        node.write_child(key_fragment, child_pointer);
        true
    } else {
        false
    }
}

} // verus!

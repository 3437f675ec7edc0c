//! The inner node layout for forty-nine to two hundred and fifty-six
//! children.

use crate::nodes::header::Header;
use crate::nodes::inner::{is_first_key, is_last_key, lists_children, InnerNode};
use crate::nodes::inner48::InnerNode48;
use crate::heap::Slot;
use crate::nodes::node_type::NodeType;
use crate::nodes::pointer::{Node, OpaqueNodePtr};
use vstd::prelude::*;

verus! {

/// Node that references between 49 and 256 children
pub struct InnerNode256<V> {
    /// The common node fields.
    pub header: Header,
    /// An array that directly maps a key byte (as index) to a child node.
    pub child_pointers: [Option<OpaqueNodePtr<V>>; 256],
}

impl<V> Node for InnerNode256<V> {
    type Value = V;

    const TYPE: NodeType = NodeType::Node256;

    open spec fn as_slot(self) -> Slot<V> {
        Slot::Node256(self)
    }

    open spec fn in_slot(slot: Slot<V>) -> Option<Self> {
        match slot {
            Slot::Node256(node) => Some(node),
            _ => None,
        }
    }

    proof fn lemma_slot(node: Self) {
    }

    fn into_slot(self) -> (slot: Slot<V>) {
        Slot::Node256(self)
    }

    fn from_slot(slot: Slot<V>) -> (node: Option<Self>) {
        match slot {
            Slot::Node256(node) => Some(node),
            _ => None,
        }
    }

    fn slot_mut(slot: &mut Slot<V>) -> (node: &mut Self) {
        match slot {
            Slot::Node256(node) => node,
            _ => vstd::pervasive::unreached(),
        }
    }

    fn slot_ref(slot: &Slot<V>) -> (node: Option<&Self>) {
        match slot {
            Slot::Node256(node) => Some(node),
            _ => None,
        }
    }
}

impl<V> Clone for InnerNode256<V> {
    fn clone(&self) -> (copy: Self)
        ensures
            copy.header@ == self.header@,
            copy.child_pointers == self.child_pointers,
            self.wf() ==> copy.wf() && copy.children() == self.children(),
    {
        InnerNode256 { header: self.header.clone(), child_pointers: self.child_pointers }
    }
}

impl<V> InnerNode256<V> {
    /// The class of this layout.
    pub proof fn lemma_node_type()
        ensures
            <Self as Node>::TYPE == NodeType::Node256,
    {
    }

    /// Create an empty `InnerNode256`.
    pub fn empty() -> (node: Self)
        ensures
            node.wf(),
            node.children() == Map::<u8, OpaqueNodePtr<V>>::empty(),
            node.header@.num_children == 0,
            node.header@.prefix == Seq::<u8>::empty(),
    {
        let node = InnerNode256 { header: Header::default(), child_pointers: [None; 256] };
        assert(node.children() =~= Map::<u8, OpaqueNodePtr<V>>::empty());
        node
    }

    /// Shrink this node into the next smaller class, copying over children
    /// and prefix information. The children have to fit the smaller class.
    pub fn shrink(&self) -> (shrunk: InnerNode48<V>)
        requires
            self.wf(),
            self.header@.num_children <= 48,
        ensures
            shrunk.wf(),
            shrunk.children() == self.children(),
            shrunk.header@ == self.header@,
    {
        let pairs = self.entries();
        let mut shrunk = InnerNode48::empty();
        let mut header = self.header.clone();
        header.num_children = 0;
        shrunk.set_header(header);
        let mut at: usize = 0;
        proof {
            shrunk.lemma_population();
        }
        while at < pairs.len()
            invariant
                at <= pairs@.len() <= 48,
                lists_children(pairs@, self.children()),
                shrunk.wf(),
                shrunk.header@.prefix == self.header@.prefix,
                shrunk.header@.stored == self.header@.stored,
                shrunk.header@.num_children == at,
                forall|key: u8|
                    shrunk.children().contains_key(key) <==> exists|i: int|
                        0 <= i < at && #[trigger] pairs@[i].0 == key,
                forall|key: u8| #[trigger]
                    shrunk.children().contains_key(key) ==> shrunk.children()[key]
                        == self.children()[key],
            decreases pairs@.len() - at,
        {
            let (key, child) = pairs[at];
            let ghost before = shrunk.children();
            proof {
                InnerNode48::<V>::lemma_node_type();
                if before.contains_key(key) {
                    let i = choose|i: int| 0 <= i < at && #[trigger] pairs@[i].0 == key;
                    assert(pairs@[i].0 < pairs@[at as int].0);
                }
            }
            shrunk.write_child(key, child);
            proof {
                shrunk.lemma_population();
                assert(self.children()[pairs@[at as int].0] == pairs@[at as int].1);
                assert forall|other: u8|
                    shrunk.children().contains_key(other) <==> exists|i: int|
                        0 <= i < at + 1 && #[trigger] pairs@[i].0 == other by {
                    if other == key {
                        assert(pairs@[at as int].0 == key);
                    }
                    if before.contains_key(other) {
                        let i = choose|i: int| 0 <= i < at && #[trigger] pairs@[i].0 == other;
                        assert(pairs@[i].0 == other);
                    }
                }
            }
            at += 1;
        }
        proof {
            assert forall|key: u8|
                shrunk.children().contains_key(key) <==> self.children().contains_key(key) by {
                if shrunk.children().contains_key(key) {
                    let i = choose|i: int| 0 <= i < at && #[trigger] pairs@[i].0 == key;
                    assert(self.children().contains_key(pairs@[i].0));
                }
            }
            assert(shrunk.children() =~= self.children());
        }
        shrunk
    }

    /// Return all the children of this node with their associated key
    /// fragment, in ascending order of key fragment.
    pub fn iter(&self) -> (pairs: Vec<(u8, OpaqueNodePtr<V>)>)
        requires
            self.wf(),
        ensures
            lists_children(pairs@, self.children()),
            pairs@.len() == self.header@.num_children,
    {
        self.entries()
    }
}

impl<V> InnerNode for InnerNode256<V> {
    open spec fn children(&self) -> Map<u8, OpaqueNodePtr<V>> {
        Map::new(
            |key: u8| self.child_pointers@[key as int] is Some,
            |key: u8| self.child_pointers@[key as int]->0,
        )
    }

    open spec fn header_of(&self) -> Header {
        self.header
    }

    open spec fn wf(&self) -> bool {
        &&& self.header.wf()
        &&& self.children().dom().finite()
        &&& self.children().dom().len() == self.header.num_children
    }

    proof fn lemma_population(&self) {
    }

    fn lookup_child(&self, key_fragment: u8) -> (child: Option<OpaqueNodePtr<V>>) {
        self.child_pointers[key_fragment as usize]
    }

    fn write_child(&mut self, key_fragment: u8, child_pointer: OpaqueNodePtr<V>) {
        let key_fragment_idx = key_fragment as usize;
        let existing_pointer = self.child_pointers[key_fragment_idx];
        self.child_pointers[key_fragment_idx] = Some(child_pointer);
        if existing_pointer.is_none() {
            self.header.num_children += 1;
        }
        assert(self.children() =~= old(self).children().insert(key_fragment, child_pointer));
    }

    fn remove_child(&mut self, key_fragment: u8) -> (child: Option<OpaqueNodePtr<V>>) {
        let key_fragment_idx = key_fragment as usize;
        let existing_pointer = self.child_pointers[key_fragment_idx];
        self.child_pointers[key_fragment_idx] = None;
        if existing_pointer.is_some() {
            proof {
                let keys = old(self).children().dom();
                assert(keys.contains(key_fragment));
                assert(keys.remove(key_fragment).len() + 1 == keys.len());
            }
            self.header.num_children -= 1;
        }
        assert(self.children() =~= old(self).children().remove(key_fragment));
        existing_pointer
    }

    fn header(&self) -> (header: &Header) {
        &self.header
    }

    fn header_mut(&mut self) -> (header: &mut Header) {
        &mut self.header
    }

    fn set_header(&mut self, header: Header) {
        self.header = header;
        assert(self.children() =~= old(self).children());
    }

    fn is_full(&self) -> (full: bool) {
        self.header.num_children() == NodeType::Node256.upper_capacity()
    }

    fn first_child(&self) -> (child: Option<OpaqueNodePtr<V>>) {
        let mut key_fragment: usize = 0;
        while key_fragment < 256
            invariant
                key_fragment <= 256,
                forall|key: u8| key < key_fragment ==> !self.children().contains_key(key),
            decreases 256 - key_fragment,
        {
            let child = self.child_pointers[key_fragment];
            if child.is_some() {
                assert(is_first_key(self.children(), key_fragment as u8));
                return child;
            }
            key_fragment += 1;
        }
        assert(self.children().dom() =~= Set::empty());
        None
    }

    fn last_child(&self) -> (child: Option<OpaqueNodePtr<V>>) {
        let mut key_fragment: usize = 256;
        while key_fragment > 0
            invariant
                key_fragment <= 256,
                forall|key: u8| key >= key_fragment ==> !self.children().contains_key(key),
            decreases key_fragment,
        {
            key_fragment -= 1;
            let child = self.child_pointers[key_fragment];
            if child.is_some() {
                assert(is_last_key(self.children(), key_fragment as u8));
                return child;
            }
        }
        assert(self.children().dom() =~= Set::empty());
        None
    }

    fn entries(&self) -> (pairs: Vec<(u8, OpaqueNodePtr<V>)>) {
        let mut pairs: Vec<(u8, OpaqueNodePtr<V>)> = Vec::new();
        let mut key_fragment: usize = 0;
        let ghost mut passed: Set<u8> = Set::empty();
        while key_fragment < 256
            invariant
                self.wf(),
                key_fragment <= 256,
                forall|i: int|
                    0 <= i < pairs@.len() ==> self.children().contains_key(#[trigger] pairs@[i].0)
                        && self.children()[pairs@[i].0] == pairs@[i].1 && pairs@[i].0
                        < key_fragment,
                forall|i: int, j: int| 0 <= i < j < pairs@.len() ==> pairs@[i].0 < pairs@[j].0,
                forall|key: u8|
                    key < key_fragment && self.children().contains_key(key) ==> exists|i: int|
                        0 <= i < pairs@.len() && #[trigger] pairs@[i].0 == key,
                passed.finite(),
                passed.len() == pairs@.len(),
                forall|key: u8|
                    passed.contains(key) <==> key < key_fragment && self.children().contains_key(
                        key,
                    ),
            decreases 256 - key_fragment,
        {
            let ghost before = pairs@;
            match self.child_pointers[key_fragment] {
                Some(child) => {
                    pairs.push((key_fragment as u8, child));
                    proof {
                        passed = passed.insert(key_fragment as u8);
                    }
                },
                None => {},
            }
            key_fragment += 1;
            proof {
                assert forall|other: u8|
                    other < key_fragment && self.children().contains_key(
                        other,
                    ) implies exists|i: int|
                    0 <= i < pairs@.len() && #[trigger] pairs@[i].0 == other by {
                    if other == key_fragment - 1 {
                        assert(pairs@[before.len() as int].0 == other);
                    } else {
                        let i = choose|i: int|
                            0 <= i < before.len() && #[trigger] before[i].0 == other;
                        assert(pairs@[i].0 == other);
                    }
                }
            }
        }
        proof {
            assert(passed =~= self.children().dom());
        }
        pairs
    }
}

} // verus!

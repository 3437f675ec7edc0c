//! The inner node layout for five to sixteen children.

use crate::nodes::header::Header;
use crate::nodes::index::RestrictedNodeIndex;
use crate::nodes::inner::{is_first_key, is_last_key, lists_children, InnerNode};
use crate::nodes::inner48::InnerNode48;
use crate::nodes::keyed::{
    is_search_result, keyed_children, lemma_keyed_insert, lemma_keyed_remove, lemma_keyed_update,
    lemma_position_unique, position_of, search_keys, shift_insert, shift_remove,
    strictly_ascending,
};
use crate::nodes::inner4::InnerNode4;
use crate::heap::Slot;
use crate::nodes::node_type::NodeType;
use crate::nodes::pointer::{Node, OpaqueNodePtr};
use vstd::prelude::*;

verus! {

/// Node that references between 5 and 16 children
pub struct InnerNode16<V> {
    /// The common node fields.
    pub header: Header,
    /// An array that contains the child data.
    ///
    /// This array is populated for the first `header.num_children` places.
    pub child_pointers: [Option<OpaqueNodePtr<V>>; 16],
    /// An array that contains single key bytes in the same index as the
    /// `child_pointers` array contains the matching child tree.
    ///
    /// This array is meaningful for the first `header.num_children` places,
    /// where the key bytes ascend.
    pub keys: [u8; 16],
}

impl<V> Node for InnerNode16<V> {
    type Value = V;

    const TYPE: NodeType = NodeType::Node16;

    open spec fn as_slot(self) -> Slot<V> {
        Slot::Node16(self)
    }

    open spec fn in_slot(slot: Slot<V>) -> Option<Self> {
        match slot {
            Slot::Node16(node) => Some(node),
            _ => None,
        }
    }

    proof fn lemma_slot(node: Self) {
    }

    fn into_slot(self) -> (slot: Slot<V>) {
        Slot::Node16(self)
    }

    fn from_slot(slot: Slot<V>) -> (node: Option<Self>) {
        match slot {
            Slot::Node16(node) => Some(node),
            _ => None,
        }
    }

    fn slot_mut(slot: &mut Slot<V>) -> (node: &mut Self) {
        match slot {
            Slot::Node16(node) => node,
            _ => vstd::pervasive::unreached(),
        }
    }

    fn slot_ref(slot: &Slot<V>) -> (node: Option<&Self>) {
        match slot {
            Slot::Node16(node) => Some(node),
            _ => None,
        }
    }
}

impl<V> Clone for InnerNode16<V> {
    fn clone(&self) -> (copy: Self)
        ensures
            copy.header@ == self.header@,
            copy.keys == self.keys,
            copy.child_pointers == self.child_pointers,
            self.wf() ==> copy.wf() && copy.children() == self.children(),
    {
        InnerNode16 {
            header: self.header.clone(),
            keys: self.keys,
            child_pointers: self.child_pointers,
        }
    }
}

impl<V> InnerNode16<V> {
    /// The class of this layout.
    pub proof fn lemma_node_type()
        ensures
            <Self as Node>::TYPE == NodeType::Node16,
    {
    }

    /// The number of places in use.
    pub open spec fn len(&self) -> int {
        self.header.num_children as int
    }

    /// The key bytes in use.
    pub open spec fn used_keys(&self) -> Seq<u8> {
        self.keys@.take(self.len())
    }

    /// The children in use.
    pub open spec fn used_children(&self) -> Seq<Option<OpaqueNodePtr<V>>> {
        self.child_pointers@.take(self.len())
    }

    /// Create an empty `Node16`.
    pub fn empty() -> (node: Self)
        ensures
            node.wf(),
            node.children() == Map::<u8, OpaqueNodePtr<V>>::empty(),
            node.header@.num_children == 0,
            node.header@.prefix == Seq::<u8>::empty(),
    {
        let node = InnerNode16 { header: Header::empty(), child_pointers: [None; 16], keys: [0; 16] };
        assert(node.children() =~= Map::<u8, OpaqueNodePtr<V>>::empty());
        node
    }

    /// The position of the child with the given key fragment.
    fn lookup_child_index(&self, key_fragment: u8) -> (child_index: Option<usize>)
        requires
            self.wf(),
        ensures
            child_index is Some <==> self.children().contains_key(key_fragment),
            child_index is Some ==> child_index->0 < self.len() && self.keys@[child_index->0 as int]
                == key_fragment && position_of(self.used_keys(), key_fragment) == child_index->0,
    {
        match search_keys(&self.keys, self.header.num_children(), key_fragment) {
            Ok(at) => {
                proof {
                    lemma_position_unique(self.used_keys(), at as int);
                }
                Some(at)
            },
            Err(at) => {
                proof {
                    if self.used_keys().contains(key_fragment) {
                        let found = position_of(self.used_keys(), key_fragment);
                        assert(0 <= found < self.len() && self.used_keys()[found] == key_fragment);
                    }
                }
                None
            },
        }
    }

    /// Return the initialized portions of the keys and child pointer arrays.
    pub fn initialized_portion(&self) -> (portion: (&[u8], &[Option<OpaqueNodePtr<V>>]))
        requires
            self.wf(),
        ensures
            portion.0@ == self.used_keys(),
            portion.1@ == self.used_children(),
    {
        let len = self.header.num_children();
        let keys = vstd::slice::slice_subrange(self.keys.as_slice(), 0, len);
        let children = vstd::slice::slice_subrange(self.child_pointers.as_slice(), 0, len);
        (keys, children)
    }

    /// Return all the children of this node with their associated key
    /// fragment, in ascending order of key fragment.
    pub fn iter(&self) -> (pairs: Vec<(u8, OpaqueNodePtr<V>)>)
        requires
            self.wf(),
        ensures
            lists_children(pairs@, self.children()),
            pairs@.len() == self.header@.num_children,
    {
        self.entries()
    }

    /// Shrink this node into the next smaller class, copying over children
    /// and prefix information. The children have to fit the smaller class.
    pub fn shrink(&self) -> (shrunk: InnerNode4<V>)
        requires
            self.wf(),
            self.header@.num_children <= 4,
        ensures
            shrunk.wf(),
            shrunk.children() == self.children(),
            shrunk.header@ == self.header@,
    {
        let pairs = self.entries();
        let mut shrunk = InnerNode4::empty();
        let mut header = self.header.clone();
        header.num_children = 0;
        shrunk.set_header(header);
        let mut at: usize = 0;
        proof {
            shrunk.lemma_population();
        }
        while at < pairs.len()
            invariant
                at <= pairs@.len() <= 4,
                lists_children(pairs@, self.children()),
                shrunk.wf(),
                shrunk.header@.prefix == self.header@.prefix,
                shrunk.header@.stored == self.header@.stored,
                shrunk.header@.num_children == at,
                forall|key: u8|
                    shrunk.children().contains_key(key) <==> exists|i: int|
                        0 <= i < at && #[trigger] pairs@[i].0 == key,
                forall|key: u8| #[trigger]
                    shrunk.children().contains_key(key) ==> shrunk.children()[key]
                        == self.children()[key],
            decreases pairs@.len() - at,
        {
            let (key, child) = pairs[at];
            let ghost before = shrunk.children();
            proof {
                InnerNode4::<V>::lemma_node_type();
                if before.contains_key(key) {
                    let i = choose|i: int| 0 <= i < at && #[trigger] pairs@[i].0 == key;
                    assert(pairs@[i].0 < pairs@[at as int].0);
                }
            }
            shrunk.write_child(key, child);
            proof {
                shrunk.lemma_population();
                assert(self.children()[pairs@[at as int].0] == pairs@[at as int].1);
                assert forall|other: u8|
                    shrunk.children().contains_key(other) <==> exists|i: int|
                        0 <= i < at + 1 && #[trigger] pairs@[i].0 == other by {
                    if other == key {
                        assert(pairs@[at as int].0 == key);
                    }
                    if before.contains_key(other) {
                        let i = choose|i: int| 0 <= i < at && #[trigger] pairs@[i].0 == other;
                        assert(pairs@[i].0 == other);
                    }
                }
            }
            at += 1;
        }
        proof {
            assert forall|key: u8|
                shrunk.children().contains_key(key) <==> self.children().contains_key(key) by {
                if shrunk.children().contains_key(key) {
                    let i = choose|i: int| 0 <= i < at && #[trigger] pairs@[i].0 == key;
                    assert(self.children().contains_key(pairs@[i].0));
                }
            }
            assert(shrunk.children() =~= self.children());
        }
        shrunk
    }

    /// Grow this node into the next larger class, copying over children and
    /// prefix information.
    ///
    /// The child in the place `i` of this node stands in the place `i` of the
    /// grown node, and the key byte of that place has `i` as its index;
    /// every other key byte has the placeholder as its index, and every
    /// other place of the grown node is vacant.
    pub fn grow(&self) -> (grown: InnerNode48<V>)
        requires
            self.wf(),
        ensures
            grown.wf(),
            grown.children() == self.children(),
            grown.header@ == self.header@,
            forall|i: int|
                0 <= i < self.len() ==> (#[trigger] grown.child_indices@[self.keys@[i] as int]).0
                    == i,
            forall|i: int|
                0 <= i < self.len() ==> #[trigger] grown.child_pointers@[i]
                    == self.child_pointers@[i],
            forall|i: int| self.len() <= i < 48 ==> #[trigger] grown.child_pointers@[i] is None,
            forall|key: u8|
                !self.used_keys().contains(key) ==> (#[trigger] grown.child_indices@[key as int]).0
                    == 48,
    {
        let header = self.header.clone();
        let mut child_indices = [RestrictedNodeIndex::<48>::empty(); 256];
        let mut child_pointers: [Option<OpaqueNodePtr<V>>; 48] = [None; 48];
        let len = self.header.num_children();
        let mut index: usize = 0;
        while index < len
            invariant
                self.wf(),
                index <= len <= 16,
                len == self.len(),
                forall|i: int| 0 <= i < index ==> child_pointers@[i] == self.child_pointers@[i],
                forall|i: int| index <= i < 48 ==> child_pointers@[i] is None,
                forall|i: int|
                    0 <= i < index ==> (#[trigger] child_indices@[self.keys@[i] as int]).0 == i,
                forall|key: u8|
                    (#[trigger] child_indices@[key as int]).0 != 48 ==> {
                        &&& 0 <= child_indices@[key as int].0 < index
                        &&& self.keys@[child_indices@[key as int].0 as int] == key
                    },
            decreases len - index,
        {
            let key = self.keys[index];
            proof {
                assert forall|i: int| 0 <= i < index implies self.keys@[i] != key by {
                    assert(self.used_keys()[i] < self.used_keys()[index as int]);
                }
            }
            match RestrictedNodeIndex::<48>::try_from(index) {
                Ok(place) => {
                    child_indices[key as usize] = place;
                },
                Err(_) => {},
            }
            child_pointers[index] = self.child_pointers[index];
            index += 1;
        }
        let grown = InnerNode48 { header, child_indices, child_pointers };
        proof {
            let keys = self.used_keys();
            assert forall|key: u8| grown.children().contains_key(key) <==> self.children().contains_key(
                key,
            ) by {
                if grown.place(key) != 48 {
                    assert(keys[grown.place(key)] == key);
                }
                if keys.contains(key) {
                    let found = position_of(keys, key);
                    assert(0 <= found < len && keys[found] == key);
                    assert(child_indices@[self.keys@[found] as int].0 == found);
                }
            }
            assert forall|key: u8| #[trigger]
                grown.children().contains_key(key) implies grown.children()[key]
                == self.children()[key] by {
                let found = grown.place(key);
                assert(keys[found] == key);
                lemma_position_unique(keys, found);
            }
            assert(grown.children() =~= self.children());
            assert forall|key: u8, other: u8|
                grown.place(key) != 48 && #[trigger] grown.place(key) == #[trigger] grown.place(
                    other,
                ) implies key == other by {
                assert(keys[grown.place(key)] == key);
                assert(keys[grown.place(other)] == other);
            }
            assert forall|key: u8| !keys.contains(key) implies (
            #[trigger] grown.child_indices@[key as int]).0 == 48 by {
                let place = grown.child_indices@[key as int].0;
                if place != 48 {
                    assert(keys[place as int] == key);
                }
            }
        }
        grown
    }
}

impl<V> InnerNode for InnerNode16<V> {
    open spec fn children(&self) -> Map<u8, OpaqueNodePtr<V>> {
        keyed_children(self.used_keys(), self.used_children())
    }

    open spec fn header_of(&self) -> Header {
        self.header
    }

    open spec fn wf(&self) -> bool {
        &&& self.header.wf()
        &&& self.header.num_children <= 16
        &&& strictly_ascending(self.used_keys())
        &&& forall|i: int| 0 <= i < self.len() ==> self.child_pointers@[i] is Some
        &&& self.children().dom().finite()
        &&& self.children().dom().len() == self.len()
    }

    proof fn lemma_population(&self) {
    }

    fn lookup_child(&self, key_fragment: u8) -> (child: Option<OpaqueNodePtr<V>>) {
        match self.lookup_child_index(key_fragment) {
            Some(child_index) => self.child_pointers[child_index],
            None => None,
        }
    }

    fn write_child(&mut self, key_fragment: u8, child_pointer: OpaqueNodePtr<V>) {
        let num_children = self.header.num_children();
        let ghost keys = self.used_keys();
        let ghost children = self.used_children();
        match search_keys(&self.keys, num_children, key_fragment) {
            Ok(child_index) => {
                // overwrite existing key
                self.child_pointers[child_index] = Some(child_pointer);
                proof {
                    lemma_keyed_update(keys, children, child_index as int, child_pointer);
                    assert(self.used_children() =~= children.update(
                        child_index as int,
                        Some(child_pointer),
                    ));
                    lemma_position_unique(keys, child_index as int);
                }
            },
            Err(child_index) => {
                // add new key
                proof {
                    lemma_keyed_insert(keys, children, child_index as int, key_fragment, child_pointer);
                }
                shift_insert(&mut self.keys, num_children, child_index, key_fragment);
                shift_insert(
                    &mut self.child_pointers,
                    num_children,
                    child_index,
                    Some(child_pointer),
                );
                self.header.num_children += 1;
                proof {
                    assert(self.used_keys() =~= keys.insert(child_index as int, key_fragment));
                    assert(self.used_children() =~= children.insert(
                        child_index as int,
                        Some(child_pointer),
                    ));
                    assert forall|i: int| 0 <= i < self.len() implies self.child_pointers@[i]
                        is Some by {
                        assert(self.used_children()[i] == self.child_pointers@[i]);
                        if i < child_index {
                            assert(children[i] == old(self).child_pointers@[i]);
                        } else if i > child_index {
                            assert(children[i - 1] == old(self).child_pointers@[i - 1]);
                        }
                    }
                }
            },
        }
    }

    fn remove_child(&mut self, key_fragment: u8) -> (child: Option<OpaqueNodePtr<V>>) {
        let num_children = self.header.num_children();
        let ghost keys = self.used_keys();
        let ghost children = self.used_children();
        match self.lookup_child_index(key_fragment) {
            Some(child_index) => {
                let child = self.child_pointers[child_index];
                proof {
                    lemma_keyed_remove(keys, children, child_index as int);
                }
                shift_remove(&mut self.keys, num_children, child_index);
                shift_remove(&mut self.child_pointers, num_children, child_index);
                self.header.num_children -= 1;
                proof {
                    assert(self.used_keys() =~= keys.remove(child_index as int));
                    assert(self.used_children() =~= children.remove(child_index as int));
                    assert forall|i: int| 0 <= i < self.len() implies self.child_pointers@[i]
                        is Some by {
                        assert(self.used_children()[i] == self.child_pointers@[i]);
                        if i < child_index {
                            assert(children[i] == old(self).child_pointers@[i]);
                        } else {
                            assert(children[i + 1] == old(self).child_pointers@[i + 1]);
                        }
                    }
                }
                child
            },
            None => {
                assert(self.children() =~= old(self).children().remove(key_fragment));
                None
            },
        }
    }

    fn header(&self) -> (header: &Header) {
        &self.header
    }

    fn header_mut(&mut self) -> (header: &mut Header) {
        &mut self.header
    }

    fn set_header(&mut self, header: Header) {
        self.header = header;
        assert(self.used_keys() == old(self).used_keys());
        assert(self.used_children() == old(self).used_children());
    }

    fn is_full(&self) -> (full: bool) {
        self.header.num_children() == NodeType::Node16.upper_capacity()
    }

    fn first_child(&self) -> (child: Option<OpaqueNodePtr<V>>) {
        if self.header.num_children() == 0 {
            assert(self.children().dom() =~= Set::empty()) by {
                assert forall|key: u8| !self.used_keys().contains(key) by {
                    if self.used_keys().contains(key) {
                        let found = position_of(self.used_keys(), key);
                        assert(0 <= found < self.len());
                    }
                }
            }
            None
        } else {
            proof {
                let key = self.keys@[0];
                assert(self.used_keys()[0] == key);
                lemma_position_unique(self.used_keys(), 0);
                assert forall|other: u8| self.children().contains_key(other) implies key
                    <= other by {
                    let found = position_of(self.used_keys(), other);
                    assert(0 <= found < self.len() && self.used_keys()[found] == other);
                    if found > 0 {
                        assert(self.used_keys()[0] < self.used_keys()[found]);
                    }
                }
                assert(is_first_key(self.children(), key));
                assert(self.children()[key] == self.child_pointers@[0]->0);
            }
            self.child_pointers[0]
        }
    }

    fn last_child(&self) -> (child: Option<OpaqueNodePtr<V>>) {
        let num_children = self.header.num_children();
        if num_children == 0 {
            assert(self.children().dom() =~= Set::empty()) by {
                assert forall|key: u8| !self.used_keys().contains(key) by {
                    if self.used_keys().contains(key) {
                        let found = position_of(self.used_keys(), key);
                        assert(0 <= found < self.len());
                    }
                }
            }
            None
        } else {
            proof {
                let last = num_children as int - 1;
                let key = self.keys@[last];
                assert(self.used_keys()[last] == key);
                lemma_position_unique(self.used_keys(), last);
                assert forall|other: u8| self.children().contains_key(other) implies other
                    <= key by {
                    let found = position_of(self.used_keys(), other);
                    assert(0 <= found < self.len() && self.used_keys()[found] == other);
                    if found < last {
                        assert(self.used_keys()[found] < self.used_keys()[last]);
                    }
                }
                assert(is_last_key(self.children(), key));
                assert(self.children()[key] == self.child_pointers@[last]->0);
            }
            self.child_pointers[num_children - 1]
        }
    }

    fn entries(&self) -> (pairs: Vec<(u8, OpaqueNodePtr<V>)>) {
        let num_children = self.header.num_children();
        let mut pairs: Vec<(u8, OpaqueNodePtr<V>)> = Vec::new();
        let mut at: usize = 0;
        while at < num_children
            invariant
                self.wf(),
                at <= num_children == self.len(),
                pairs@.len() == at,
                forall|i: int|
                    0 <= i < at ==> (#[trigger] pairs@[i]).0 == self.keys@[i] && Some(pairs@[i].1)
                        == self.child_pointers@[i],
            decreases num_children - at,
        {
            match self.child_pointers[at] {
                Some(child) => {
                    pairs.push((self.keys[at], child));
                },
                None => {},
            }
            at += 1;
        }
        proof {
            let children = self.children();
            assert forall|i: int| 0 <= i < pairs@.len() implies children.contains_key(
                #[trigger] pairs@[i].0,
            ) && children[pairs@[i].0] == pairs@[i].1 by {
                assert(self.used_keys()[i] == pairs@[i].0);
                lemma_position_unique(self.used_keys(), i);
            }
            assert forall|i: int, j: int| 0 <= i < j < pairs@.len() implies pairs@[i].0
                < pairs@[j].0 by {
                assert(self.used_keys()[i] < self.used_keys()[j]);
            }
            assert forall|key: u8| children.contains_key(key) implies exists|i: int|
                0 <= i < pairs@.len() && #[trigger] pairs@[i].0 == key by {
                let found = position_of(self.used_keys(), key);
                assert(0 <= found < self.len() && self.used_keys()[found] == key);
                assert(pairs@[found].0 == key);
            }
        }
        pairs
    }
}

} // verus!

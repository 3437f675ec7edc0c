//! The inner node layout for seventeen to forty-eight children.

use crate::nodes::header::Header;
use crate::nodes::index::RestrictedNodeIndex;
use crate::nodes::inner::{is_first_key, is_last_key, lists_children, InnerNode};
use crate::nodes::inner256::InnerNode256;
use crate::nodes::inner16::InnerNode16;
use crate::heap::Slot;
use crate::nodes::node_type::NodeType;
use crate::nodes::pointer::{Node, OpaqueNodePtr};
use vstd::prelude::*;

verus! {

/// Node that references between 17 and 48 children
pub struct InnerNode48<V> {
    /// The common node fields.
    pub header: Header,
    /// An array that maps key bytes (as the index) to the index value in the
    /// `child_pointers` array.
    ///
    /// All the `child_indices` values are guaranteed to be
    /// `RestrictedNodeIndex<48>::empty()` when the node is constructed.
    pub child_indices: [RestrictedNodeIndex<48>; 256],
    /// For each element in this array, it is populated if there
    /// is a index in the `child_indices` array that points to it
    pub child_pointers: [Option<OpaqueNodePtr<V>>; 48],
}

impl<V> Node for InnerNode48<V> {
    type Value = V;

    const TYPE: NodeType = NodeType::Node48;

    open spec fn as_slot(self) -> Slot<V> {
        Slot::Node48(self)
    }

    open spec fn in_slot(slot: Slot<V>) -> Option<Self> {
        match slot {
            Slot::Node48(node) => Some(node),
            _ => None,
        }
    }

    proof fn lemma_slot(node: Self) {
    }

    fn into_slot(self) -> (slot: Slot<V>) {
        Slot::Node48(self)
    }

    fn from_slot(slot: Slot<V>) -> (node: Option<Self>) {
        match slot {
            Slot::Node48(node) => Some(node),
            _ => None,
        }
    }

    fn slot_mut(slot: &mut Slot<V>) -> (node: &mut Self) {
        match slot {
            Slot::Node48(node) => node,
            _ => vstd::pervasive::unreached(),
        }
    }

    fn slot_ref(slot: &Slot<V>) -> (node: Option<&Self>) {
        match slot {
            Slot::Node48(node) => Some(node),
            _ => None,
        }
    }
}

impl<V> Clone for InnerNode48<V> {
    fn clone(&self) -> (copy: Self)
        ensures
            copy.header@ == self.header@,
            copy.child_indices == self.child_indices,
            copy.child_pointers == self.child_pointers,
            self.wf() ==> copy.wf() && copy.children() == self.children(),
    {
        let copy = InnerNode48 {
            header: self.header.clone(),
            child_indices: self.child_indices,
            child_pointers: self.child_pointers,
        };
        proof {
            assert forall|key: u8| copy.place(key) == self.place(key) by {}
            assert(copy.children() =~= self.children());
        }
        copy
    }
}

/// The mapping from key byte to child that an array of places and an array
/// of children stand for: the child of a key byte is the child in the place
/// that the key byte has, and a key byte with the place 48 has no child.
pub open spec fn placed_children<P>(
    places: Seq<RestrictedNodeIndex<48>>,
    children: Seq<Option<P>>,
) -> Map<u8, P> {
    Map::new(
        |key: u8| place_of(places, key) != 48,
        |key: u8| children[place_of(places, key)]->0,
    )
}

/// The place of the child for a key byte among the places, or 48 where
/// there is none.
pub open spec fn place_of(places: Seq<RestrictedNodeIndex<48>>, key: u8) -> int {
    places[key as int].0 as int
}

/// Whether the places and the children fit each other: a place is 48 or
/// one of the first `len` places, where a child stands, and no two key
/// bytes have the same place.
pub open spec fn places_coherent<P>(
    places: Seq<RestrictedNodeIndex<48>>,
    children: Seq<Option<P>>,
    len: int,
) -> bool {
    &&& forall|key: u8| #[trigger] place_of(places, key) <= 48
    &&& forall|key: u8|
        #[trigger] place_of(places, key) != 48 ==> place_of(places, key) < len
            && children[place_of(places, key)] is Some
    &&& forall|key: u8, other: u8|
        place_of(places, key) != 48 && #[trigger] place_of(places, key) == #[trigger] place_of(
            places,
            other,
        ) ==> key == other
}

/// An iterator over all the children of a InnerNode48, from either end.
///
/// The key bytes from `front` up to `back` are those not yet passed.
pub struct InnerNode48Iter<'n, V> {
    /// The node whose children are listed.
    pub node: &'n InnerNode48<V>,
    /// The smallest key byte not yet passed from the front.
    pub front: usize,
    /// One more than the largest key byte not yet passed from the back.
    pub back: usize,
}

impl<'n, V> InnerNode48Iter<'n, V> {
    /// The node is coherent and the two ends have not crossed.
    pub open spec fn wf(&self) -> bool {
        &&& self.node.wf()
        &&& self.front <= self.back <= 256
    }

    /// The child with the smallest key byte not yet passed, with that key
    /// byte; `None` once every child has been passed.
    pub fn next(&mut self) -> (item: Option<(u8, OpaqueNodePtr<V>)>)
        requires
            old(self).wf(),
        ensures
            final(self).wf(),
            final(self).node == old(self).node,
            final(self).back == old(self).back,
            match item {
                Some((key, child)) => {
                    &&& old(self).front <= key < old(self).back
                    &&& final(self).front == key + 1
                    &&& old(self).node.children().contains_key(key)
                    &&& old(self).node.children()[key] == child
                    &&& forall|other: u8|
                        old(self).front <= other < key ==> !old(self).node.children().contains_key(
                            other,
                        )
                },
                None => {
                    &&& final(self).front == old(self).back
                    &&& forall|other: u8|
                        old(self).front <= other < old(self).back ==> !old(
                            self,
                        ).node.children().contains_key(other)
                },
            },
    {
        while self.front < self.back
            invariant
                self.wf(),
                self.node == old(self).node,
                self.back == old(self).back,
                old(self).front <= self.front,
                forall|other: u8|
                    old(self).front <= other < self.front ==> !old(self).node.children().contains_key(
                        other,
                    ),
            decreases self.back - self.front,
        {
            let key_fragment = self.front;
            let child_index = self.node.child_indices[key_fragment].to_u8();
            assert(self.node.place(key_fragment as u8) == child_index);
            self.front += 1;
            if child_index != 48 {
                match self.node.child_pointers[child_index as usize] {
                    Some(child) => {
                        return Some((key_fragment as u8, child));
                    },
                    None => {},
                }
            }
        }
        None
    }

    /// The child with the largest key byte not yet passed, with that key
    /// byte; `None` once every child has been passed.
    pub fn next_back(&mut self) -> (item: Option<(u8, OpaqueNodePtr<V>)>)
        requires
            old(self).wf(),
        ensures
            final(self).wf(),
            final(self).node == old(self).node,
            final(self).front == old(self).front,
            match item {
                Some((key, child)) => {
                    &&& old(self).front <= key < old(self).back
                    &&& final(self).back == key
                    &&& old(self).node.children().contains_key(key)
                    &&& old(self).node.children()[key] == child
                    &&& forall|other: u8|
                        key < other < old(self).back ==> !old(self).node.children().contains_key(
                            other,
                        )
                },
                None => {
                    &&& final(self).back == old(self).front
                    &&& forall|other: u8|
                        old(self).front <= other < old(self).back ==> !old(
                            self,
                        ).node.children().contains_key(other)
                },
            },
    {
        while self.front < self.back
            invariant
                self.wf(),
                self.node == old(self).node,
                self.front == old(self).front,
                self.back <= old(self).back,
                forall|other: u8|
                    self.back <= other < old(self).back ==> !old(self).node.children().contains_key(
                        other,
                    ),
            decreases self.back - self.front,
        {
            self.back -= 1;
            let key_fragment = self.back;
            let child_index = self.node.child_indices[key_fragment].to_u8();
            assert(self.node.place(key_fragment as u8) == child_index);
            if child_index != 48 {
                match self.node.child_pointers[child_index as usize] {
                    Some(child) => {
                        return Some((key_fragment as u8, child));
                    },
                    None => {},
                }
            }
        }
        None
    }
}

impl<V> InnerNode48<V> {
    /// The class of this layout.
    pub proof fn lemma_node_type()
        ensures
            <Self as Node>::TYPE == NodeType::Node48,
    {
    }

    /// The number of children.
    pub open spec fn len(&self) -> int {
        self.header.num_children as int
    }

    /// The place of the child for a key byte, or 48 where there is none.
    pub open spec fn place(&self, key: u8) -> int {
        place_of(self.child_indices@, key)
    }

    /// Create an empty `Node48`.
    pub fn empty() -> (node: Self)
        ensures
            node.wf(),
            node.children() == Map::<u8, OpaqueNodePtr<V>>::empty(),
            node.header@.num_children == 0,
            node.header@.prefix == Seq::<u8>::empty(),
    {
        let node = InnerNode48 {
            header: Header::default(),
            child_indices: [RestrictedNodeIndex::<48>::empty(); 256],
            child_pointers: [None; 48],
        };
        assert(node.children() =~= Map::<u8, OpaqueNodePtr<V>>::empty());
        node
    }

    /// The key byte whose child stands in the given place, if there is one.
    fn key_of_place(&self, place: usize) -> (key: Option<u8>)
        requires
            place < 48,
        ensures
            key is Some ==> place_of(self.child_indices@, key->0) == place,
            key is None ==> forall|other: u8| #[trigger] place_of(self.child_indices@, other) != place,
    {
        let mut at: usize = 0;
        while at < 256
            invariant
                at <= 256,
                place < 48,
                forall|other: u8| other < at ==> #[trigger] place_of(self.child_indices@, other) != place,
            decreases 256 - at,
        {
            if self.child_indices[at].to_u8() as usize == place {
                return Some(at as u8);
            }
            at += 1;
        }
        None
    }

    /// Return an iterator over all the children of this node with their
    /// associated key fragment
    pub fn iter(&self) -> (iter: InnerNode48Iter<'_, V>)
        requires
            self.wf(),
        ensures
            iter.wf(),
            iter.node == self,
            iter.front == 0,
            iter.back == 256,
    {
        InnerNode48Iter { node: self, front: 0, back: 256 }
    }

    /// Return the initialized portions of the child pointer array.
    pub fn initialized_child_pointers(&self) -> (portion: &[Option<OpaqueNodePtr<V>>])
        requires
            self.wf(),
        ensures
            portion@ == self.child_pointers@.take(self.len()),
    {
        vstd::slice::slice_subrange(
            self.child_pointers.as_slice(),
            0,
            self.header.num_children(),
        )
    }

    /// Shrink this node into the next smaller class, copying over children
    /// and prefix information. The children have to fit the smaller class.
    pub fn shrink(&self) -> (shrunk: InnerNode16<V>)
        requires
            self.wf(),
            self.header@.num_children <= 16,
        ensures
            shrunk.wf(),
            shrunk.children() == self.children(),
            shrunk.header@ == self.header@,
    {
        let pairs = self.entries();
        let mut shrunk = InnerNode16::empty();
        let mut header = self.header.clone();
        header.num_children = 0;
        shrunk.set_header(header);
        let mut at: usize = 0;
        proof {
            shrunk.lemma_population();
        }
        while at < pairs.len()
            invariant
                at <= pairs@.len() <= 16,
                lists_children(pairs@, self.children()),
                shrunk.wf(),
                shrunk.header@.prefix == self.header@.prefix,
                shrunk.header@.stored == self.header@.stored,
                shrunk.header@.num_children == at,
                forall|key: u8|
                    shrunk.children().contains_key(key) <==> exists|i: int|
                        0 <= i < at && #[trigger] pairs@[i].0 == key,
                forall|key: u8| #[trigger]
                    shrunk.children().contains_key(key) ==> shrunk.children()[key]
                        == self.children()[key],
            decreases pairs@.len() - at,
        {
            let (key, child) = pairs[at];
            let ghost before = shrunk.children();
            proof {
                InnerNode16::<V>::lemma_node_type();
                if before.contains_key(key) {
                    let i = choose|i: int| 0 <= i < at && #[trigger] pairs@[i].0 == key;
                    assert(pairs@[i].0 < pairs@[at as int].0);
                }
            }
            shrunk.write_child(key, child);
            proof {
                shrunk.lemma_population();
                assert(self.children()[pairs@[at as int].0] == pairs@[at as int].1);
                assert forall|other: u8|
                    shrunk.children().contains_key(other) <==> exists|i: int|
                        0 <= i < at + 1 && #[trigger] pairs@[i].0 == other by {
                    if other == key {
                        assert(pairs@[at as int].0 == key);
                    }
                    if before.contains_key(other) {
                        let i = choose|i: int| 0 <= i < at && #[trigger] pairs@[i].0 == other;
                        assert(pairs@[i].0 == other);
                    }
                }
            }
            at += 1;
        }
        proof {
            assert forall|key: u8|
                shrunk.children().contains_key(key) <==> self.children().contains_key(key) by {
                if shrunk.children().contains_key(key) {
                    let i = choose|i: int| 0 <= i < at && #[trigger] pairs@[i].0 == key;
                    assert(self.children().contains_key(pairs@[i].0));
                }
            }
            assert(shrunk.children() =~= self.children());
        }
        shrunk
    }

    /// Grow this node into the next larger class, copying over children and
    /// prefix information.
    ///
    /// The child of a key byte stands in the grown node in the place of
    /// that key byte, and the place of a key byte without a child is
    /// vacant.
    pub fn grow(&self) -> (grown: InnerNode256<V>)
        requires
            self.wf(),
        ensures
            grown.wf(),
            grown.children() == self.children(),
            grown.header@ == self.header@,
            forall|key: u8|
                #[trigger] grown.child_pointers@[key as int] == (if self.place(key) != 48 {
                    self.child_pointers@[self.place(key)]
                } else {
                    None
                }),
    {
        let header = self.header.clone();
        let mut child_pointers: [Option<OpaqueNodePtr<V>>; 256] = [None; 256];
        let mut key_fragment: usize = 0;
        while key_fragment < 256
            invariant
                self.wf(),
                key_fragment <= 256,
                forall|key: u8|
                    key < key_fragment ==> (child_pointers@[key as int] is Some
                        <==> self.children().contains_key(key)),
                forall|key: u8|
                    key < key_fragment && self.children().contains_key(key)
                        ==> child_pointers@[key as int] == Some(self.children()[key]),
                forall|key: u8| key >= key_fragment ==> child_pointers@[key as int] is None,
                forall|key: u8|
                    key < key_fragment ==> #[trigger] child_pointers@[key as int] == (if place_of(
                        self.child_indices@,
                        key,
                    ) != 48 {
                        self.child_pointers@[place_of(self.child_indices@, key)]
                    } else {
                        None
                    }),
            decreases 256 - key_fragment,
        {
            let child_index = self.child_indices[key_fragment].to_u8();
            assert(self.place(key_fragment as u8) == child_index);
            if child_index != 48 {
                child_pointers[key_fragment] = self.child_pointers[child_index as usize];
            }
            key_fragment += 1;
        }
        let grown = InnerNode256 { header, child_pointers };
        assert(grown.children() =~= self.children());
        grown
    }
}

impl<V> InnerNode for InnerNode48<V> {
    open spec fn children(&self) -> Map<u8, OpaqueNodePtr<V>> {
        placed_children(self.child_indices@, self.child_pointers@)
    }

    open spec fn header_of(&self) -> Header {
        self.header
    }

    open spec fn wf(&self) -> bool {
        &&& self.header.wf()
        &&& self.header.num_children <= 48
        &&& places_coherent(self.child_indices@, self.child_pointers@, self.len())
        &&& self.children().dom().finite()
        &&& self.children().dom().len() == self.len()
    }

    proof fn lemma_population(&self) {
    }

    fn lookup_child(&self, key_fragment: u8) -> (child: Option<OpaqueNodePtr<V>>) {
        let index = self.child_indices[key_fragment as usize].to_u8();
        assert(self.place(key_fragment) == index);
        if index != 48 {
            self.child_pointers[index as usize]
        } else {
            None
        }
    }

    /// A key byte that has a child keeps its place, where the new child is
    /// written. A key byte that has none takes the first place that is not in
    /// use, which is the place with the number of children as its index. No
    /// other key byte changes its place, and no other place changes its
    /// child.
    fn write_child(&mut self, key_fragment: u8, child_pointer: OpaqueNodePtr<V>)
        ensures
            place_of(old(self).child_indices@, key_fragment) == 48 ==> place_of(
                final(self).child_indices@,
                key_fragment,
            ) == old(self).header.num_children,
            place_of(old(self).child_indices@, key_fragment) != 48 ==> place_of(
                final(self).child_indices@,
                key_fragment,
            ) == place_of(old(self).child_indices@, key_fragment),
            forall|key: u8|
                key != key_fragment ==> #[trigger] final(self).child_indices@[key as int] == old(
                    self,
                ).child_indices@[key as int],
            final(self).child_pointers@ == old(self).child_pointers@.update(
                place_of(final(self).child_indices@, key_fragment),
                Some(child_pointer),
            ),
    {
        let key_fragment_idx = key_fragment as usize;
        let existing = self.child_indices[key_fragment_idx].to_u8();
        assert(place_of(self.child_indices@, key_fragment) == existing);
        let child_index = if existing == 48 {
            let child_index = self.header.num_children();
            self.child_indices[key_fragment_idx] = RestrictedNodeIndex(child_index as u8);
            self.header.num_children += 1;
            child_index
        } else {
            // overwrite existing
            existing as usize
        };
        self.child_pointers[child_index] = Some(child_pointer);
        proof {
            let now = self.child_indices@;
            let was = old(self).child_indices@;
            let written = old(self).children().insert(key_fragment, child_pointer);
            assert forall|key: u8| key != key_fragment implies place_of(now, key) == place_of(
                was,
                key,
            ) by {}
            assert forall|key: u8| #[trigger] place_of(now, key) != 48 implies place_of(now, key)
                < self.len() && self.child_pointers@[place_of(now, key)] is Some by {
                if key != key_fragment {
                    assert(place_of(was, key) != 48);
                }
            }
            assert forall|key: u8, other: u8|
                place_of(now, key) != 48 && #[trigger] place_of(now, key) == #[trigger] place_of(
                    now,
                    other,
                ) implies key == other by {
                if key != key_fragment {
                    assert(place_of(was, key) != 48);
                }
                if other != key_fragment {
                    assert(place_of(was, other) != 48);
                }
            }
            assert forall|key: u8| #[trigger]
                self.children().contains_key(key) implies self.children()[key] == written[key] by {
                if key != key_fragment {
                    assert(place_of(was, key) != 48);
                    assert(place_of(was, key) != place_of(was, key_fragment) || place_of(
                        was,
                        key_fragment,
                    ) == 48);
                }
            }
            assert(self.children() =~= written);
        }
    }

    fn remove_child(&mut self, key_fragment: u8) -> (child: Option<OpaqueNodePtr<V>>) {
        let key_fragment_idx = key_fragment as usize;
        let existing = self.child_indices[key_fragment_idx].to_u8();
        assert(place_of(self.child_indices@, key_fragment) == existing);
        if existing == 48 {
            assert(self.children() =~= old(self).children().remove(key_fragment));
            return None;
        }
        let child_index = existing as usize;
        let child = self.child_pointers[child_index];
        let last = self.header.num_children() - 1;
        self.child_indices[key_fragment_idx] = RestrictedNodeIndex::<48>::empty();
        let ghost moved: Option<u8> = None;
        let ghost emptied = self.child_indices@;
        if child_index != last {
            // keep the places in use together: the child in the last place moves down
            let found = self.key_of_place(last);
            proof {
                moved = found;
            }
            match found {
                Some(other) => {
                    assert(other != key_fragment);
                    assert(place_of(old(self).child_indices@, other) == last);
                    self.child_pointers[child_index] = self.child_pointers[last];
                    self.child_indices[other as usize] = RestrictedNodeIndex(child_index as u8);
                },
                None => {},
            }
        }
        self.child_pointers[last] = None;
        self.header.num_children -= 1;
        proof {
            let now = self.child_indices@;
            let was = old(self).child_indices@;
            let taken = old(self).children().remove(key_fragment);
            assert(place_of(now, key_fragment) == 48);
            assert forall|key: u8| key != key_fragment && Some(key) != moved implies place_of(
                now,
                key,
            ) == place_of(was, key) && place_of(now, key) != last by {
                assert(place_of(was, key) <= 48);
                assert(place_of(emptied, key) == place_of(was, key));
                if place_of(was, key) == last {
                    if child_index == last {
                        assert(place_of(was, key) == place_of(was, key_fragment));
                    } else if moved is Some {
                        assert(place_of(was, key) == place_of(was, moved->0));
                    }
                }
            }
            assert forall|key: u8| #[trigger] place_of(now, key) <= 48 by {
                assert(place_of(was, key) <= 48);
            }
            assert forall|key: u8| #[trigger] place_of(now, key) != 48 implies place_of(now, key)
                < self.len() && self.child_pointers@[place_of(now, key)] is Some by {
                assert(place_of(was, key) <= 48);
                if Some(key) == moved {
                    assert(place_of(now, key) == child_index);
                } else {
                    assert(key != key_fragment);
                    assert(place_of(was, key) != 48);
                    assert(place_of(was, key) < old(self).len());
                    assert(place_of(was, key) != place_of(was, key_fragment));
                }
            }
            assert forall|key: u8, other: u8|
                place_of(now, key) != 48 && #[trigger] place_of(now, key) == #[trigger] place_of(
                    now,
                    other,
                ) implies key == other by {
                assert(place_of(was, key) <= 48);
                assert(place_of(was, other) <= 48);
                if Some(key) == moved && Some(other) != moved {
                    assert(place_of(was, other) == place_of(was, key_fragment));
                } else if Some(key) != moved && Some(other) == moved {
                    assert(place_of(was, key) == place_of(was, key_fragment));
                } else if Some(key) != moved {
                    assert(place_of(was, key) == place_of(was, other));
                }
            }
            assert forall|key: u8| self.children().contains_key(key) <==> taken.contains_key(
                key,
            ) by {
                assert(place_of(was, key) <= 48);
            }
            assert forall|key: u8| #[trigger]
                self.children().contains_key(key) implies self.children()[key] == taken[key] by {
                assert(place_of(was, key) <= 48);
                if Some(key) != moved {
                    assert(place_of(was, key) != place_of(was, key_fragment));
                }
            }
            assert(self.children() =~= taken);
            let keys = old(self).children().dom();
            assert(keys.contains(key_fragment));
            assert(keys.remove(key_fragment).len() + 1 == keys.len());
        }
        child
    }

    fn header(&self) -> (header: &Header) {
        &self.header
    }

    fn header_mut(&mut self) -> (header: &mut Header) {
        &mut self.header
    }

    fn set_header(&mut self, header: Header) {
        self.header = header;
        assert forall|key: u8| self.place(key) == old(self).place(key) by {}
        assert(self.children() =~= old(self).children());
    }

    fn is_full(&self) -> (full: bool) {
        self.header.num_children() == NodeType::Node48.upper_capacity()
    }

    fn first_child(&self) -> (child: Option<OpaqueNodePtr<V>>) {
        let mut iter = self.iter();
        match iter.next() {
            Some((key, child)) => {
                assert(is_first_key(self.children(), key));
                Some(child)
            },
            None => {
                assert(self.children().dom() =~= Set::empty());
                None
            },
        }
    }

    fn last_child(&self) -> (child: Option<OpaqueNodePtr<V>>) {
        let mut iter = self.iter();
        match iter.next_back() {
            Some((key, child)) => {
                assert(is_last_key(self.children(), key));
                Some(child)
            },
            None => {
                assert(self.children().dom() =~= Set::empty());
                None
            },
        }
    }

    fn entries(&self) -> (pairs: Vec<(u8, OpaqueNodePtr<V>)>) {
        let mut pairs: Vec<(u8, OpaqueNodePtr<V>)> = Vec::new();
        let mut iter = self.iter();
        let ghost mut passed: Set<u8> = Set::empty();
        loop
            invariant
                self.wf(),
                iter.wf(),
                iter.node == self,
                iter.back == 256,
                forall|i: int|
                    0 <= i < pairs@.len() ==> self.children().contains_key(#[trigger] pairs@[i].0)
                        && self.children()[pairs@[i].0] == pairs@[i].1 && pairs@[i].0 < iter.front,
                forall|i: int, j: int| 0 <= i < j < pairs@.len() ==> pairs@[i].0 < pairs@[j].0,
                forall|key: u8|
                    key < iter.front && self.children().contains_key(key) ==> exists|i: int|
                        0 <= i < pairs@.len() && #[trigger] pairs@[i].0 == key,
                passed.finite(),
                passed.len() == pairs@.len(),
                forall|key: u8|
                    passed.contains(key) <==> key < iter.front && self.children().contains_key(key),
            decreases 256 - iter.front + (if iter.front < 256 { 1int } else { 0int }),
        {
            let ghost before = pairs@;
            match iter.next() {
                Some((key, child)) => {
                    pairs.push((key, child));
                    proof {
                        passed = passed.insert(key);
                        assert forall|other: u8|
                            other < iter.front && self.children().contains_key(
                                other,
                            ) implies exists|i: int|
                            0 <= i < pairs@.len() && #[trigger] pairs@[i].0 == other by {
                            if other == key {
                                assert(pairs@[before.len() as int].0 == key);
                            } else {
                                let i = choose|i: int|
                                    0 <= i < before.len() && #[trigger] before[i].0 == other;
                                assert(pairs@[i].0 == other);
                            }
                        }
                    }
                },
                None => {
                    proof {
                        assert(passed =~= self.children().dom());
                    }
                    return pairs;
                },
            }
        }
    }
}

} // verus!

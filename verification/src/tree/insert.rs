//! Insert: put a key with its value into the tree.

use crate::heap::{lemma_node_types, NodeHeap, Slot};
use crate::nodes::header::{is_common_prefix_len, Header};
use crate::nodes::inner::InnerNode;
use crate::nodes::inner4::InnerNode4;
use crate::nodes::leaf::LeafNode;
use crate::nodes::node_type::NodeType;
use crate::nodes::pointer::{NodePtr, OpaqueNodePtr};
use crate::tree::model::{one_starts_other, prefix_conflict, starts_with};
use vstd::prelude::*;

verus! {

/// What an insert gives back.
pub struct InsertResult<V> {
    /// The root of the tree after the insert.
    pub new_root: OpaqueNodePtr<V>,
    /// The value that the key had before the insert, if it had one.
    pub previous: Option<V>,
}

/// The error of an insert whose key starts with a key of the tree, or with
/// which a key of the tree starts: the tree holds values in leaves only, and
/// so cannot hold both keys.
pub struct InsertPrefixError {
    /// The key that was not inserted.
    pub key: Box<[u8]>,
}

impl<V> NodeHeap<V> {
    /// Whether the tree holds another key that starts with `key`, or that
    /// `key` starts with.
    pub open spec fn has_prefix_conflict(&self, key: Seq<u8>) -> bool {
        prefix_conflict(self.view(), key)
    }

    /// What an insert into the subtree at `path` starts from: the subtree is
    /// sound and holds every node recorded under `path`, the key starts with
    /// `path`, and every leaf whose key starts with the key, or with whose
    /// key the key starts, is recorded under `path`.
    pub open spec fn can_insert_at(
        &self,
        pointer: OpaqueNodePtr<V>,
        path: Seq<u8>,
        key: Seq<u8>,
    ) -> bool {
        &&& self.wf()
        &&& self.unique_keys()
        &&& self.sub_wf(pointer, path)
        &&& self.covers(pointer, path)
        &&& starts_with(key, path)
        &&& forall|address: int, other: Seq<u8>|
            #[trigger] self.is_leaf_with(address, other) && one_starts_other(other, key)
                ==> starts_with(self.path_of(address), path)
        &&& self.spare() >= 2
    }

    /// What an insert into the subtree at `path` leaves behind: a sound
    /// subtree under `node` that holds every node recorded under `path`, no
    /// change elsewhere, and the map with the value put in at the key.
    pub open spec fn inserted(
        &self,
        after: &Self,
        path: Seq<u8>,
        key: Seq<u8>,
        value: V,
        node: OpaqueNodePtr<V>,
        previous: Option<V>,
    ) -> bool {
        &&& after.wf()
        &&& after.sub_wf(node, path)
        &&& after.covers(node, path)
        &&& self.changed_under(after, path)
        &&& after.view() == self.view().insert(key, value)
        &&& after.unique_keys()
        &&& previous == (if self.view().contains_key(key) {
            Some(self.view()[key])
        } else {
            None::<V>
        })
        &&& !self.has_prefix_conflict(key)
        &&& after.live() <= self.live() + 2
        &&& after.spare() >= self.spare() - 2
        &&& previous is Some ==> after.live() == self.live()
        &&& previous is None ==> after.live() > self.live()
    }

    /// Put a new leaf with the key under the inner node that the pointer
    /// leads to, which has no child for the byte of the key that follows its
    /// prefix. A full node is grown first.
    fn add_leaf(
        &mut self,
        pointer: OpaqueNodePtr<V>,
        key: Box<[u8]>,
        at: usize,
        value: V,
        Ghost(path): Ghost<Seq<u8>>,
    ) -> (node: OpaqueNodePtr<V>)
        requires
            old(self).can_insert_at(pointer, path, key@),
            old(self).slot_at(pointer.address()).is_inner(),
            at == (path + old(self).slot_at(pointer.address()).prefix()).len(),
            at < key@.len(),
            starts_with(key@, path + old(self).slot_at(pointer.address()).prefix()),
            !old(self).slot_at(pointer.address()).children().contains_key(key@[at as int]),
        ensures
            old(self).inserted(final(self), path, key@, value, node, None),
    {
        let ghost before = *self;
        let ghost key_bytes = key@;
        let ghost old_slot = self.slot_at(pointer.address());
        let ghost trunk = path + old_slot.prefix();
        let key_byte = key[at];
        let ghost below = trunk.push(key_byte);
        proof {
            lemma_node_types::<V>();
            old_slot.lemma_slot_population();
            crate::heap::lemma_room_for_byte(old_slot.children(), key_byte);
            // no leaf stands in the way of the key
            assert forall|address: int, other: Seq<u8>|
                before.is_leaf_with(address, other) implies !one_starts_other(
                other,
                key_bytes,
            ) by {
                if one_starts_other(other, key_bytes) {
                    before.lemma_leaf_side(pointer, path, address);
                    assert(other[trunk.len() as int] == key_bytes[trunk.len() as int]);
                }
            }
        }
        let leaf_address = self.allocate(Slot::Leaf(LeafNode::new(key, value)));
        let leaf = OpaqueNodePtr::new(NodePtr::<LeafNode<V>>::new(leaf_address));
        let ghost with_leaf = *self;
        let node = if self.is_full(pointer) {
            self.grow(pointer)
        } else {
            pointer
        };
        let ghost grown = *self;
        self.write_child(node, key_byte, leaf);
        proof {
            self.paths@ = self.paths@.insert(leaf_address as int, below).insert(
                node.address(),
                path,
            );
            let slot = self.slot_at(node.address());
            assert(slot.prefix() == old_slot.prefix());
            assert(slot.children() == old_slot.children().insert(key_byte, leaf));
            slot.lemma_slot_population();
            // the other children are as they were
            assert forall|other_byte: u8| #[trigger]
                slot.children().contains_key(other_byte) implies self.sub_wf(
                slot.children()[other_byte],
                trunk.push(other_byte),
            ) by {
                if other_byte != key_byte {
                    let child = old_slot.children()[other_byte];
                    let side = trunk.push(other_byte);
                    assert(before.sub_wf(child, side));
                    assert forall|address: int|
                        before.is_live(address) && starts_with(
                            #[trigger] before.path_of(address),
                            side,
                        ) implies self.is_live(address) && self.slot_at(address)
                        == before.slot_at(address) && self.path_of(address) == before.path_of(
                        address,
                    ) by {
                        assert(address != pointer.address());
                        assert(address != leaf_address);
                        assert(address != node.address());
                        assert(with_leaf.is_live(address));
                        assert(grown.is_live(address));
                    }
                    before.lemma_frame(self, child, side);
                } else {
                    assert(starts_with(key_bytes, below)) by {
                        assert forall|i: int| 0 <= i < below.len() implies key_bytes[i]
                            == below[i] by {
                            if i < trunk.len() {
                                assert(key_bytes[i] == trunk[i]);
                            }
                        }
                    }
                    assert(self.sub_wf(leaf, below));
                }
            }
            assert(self.sub_wf(node, path));
            // every node recorded under the path is found from the node
            assert forall|address: int|
                self.is_live(address) && starts_with(
                    #[trigger] self.path_of(address),
                    path,
                ) implies self.descend(node, path, self.path_of(address)) == Some(address) by {
                let there = self.path_of(address);
                if address == node.address() {
                } else if address == leaf_address {
                    assert(self.descend(leaf, below, there) == Some(address));
                } else {
                    assert(grown.is_live(address));
                    assert(with_leaf.is_live(address));
                    assert(before.is_live(address));
                    assert(address != pointer.address());
                    before.lemma_node_side(pointer, path, address);
                    let other_byte = there[trunk.len() as int];
                    let child = old_slot.children()[other_byte];
                    let side = trunk.push(other_byte);
                    assert forall|inner: int|
                        before.is_live(inner) && starts_with(
                            #[trigger] before.path_of(inner),
                            side,
                        ) implies self.is_live(inner) && self.slot_at(inner) == before.slot_at(
                        inner,
                    ) && self.path_of(inner) == before.path_of(inner) by {
                        assert(inner != pointer.address());
                        assert(inner != leaf_address);
                        assert(inner != node.address());
                        assert(with_leaf.is_live(inner));
                        assert(grown.is_live(inner));
                    }
                    before.lemma_frame(self, child, side);
                    assert(self.descend(child, side, there) == before.descend(child, side, there));
                }
            }
            // nothing changes elsewhere
            assert(before.changed_under(self, path)) by {
                assert forall|address: int|
                    before.is_live(address) && !starts_with(
                        #[trigger] before.path_of(address),
                        path,
                    ) implies self.is_live(address) && self.slot_at(address) == before.slot_at(
                    address,
                ) && self.path_of(address) == before.path_of(address) by {
                    assert(address != pointer.address());
                    assert(address != leaf_address);
                    assert(address != node.address());
                    assert(with_leaf.is_live(address));
                    assert(grown.is_live(address));
                }
                assert forall|address: int|
                    self.is_live(address) && !before.is_live(address) implies starts_with(
                    #[trigger] self.path_of(address),
                    path,
                ) by {
                    if address != leaf_address && address != node.address() {
                        assert(grown.is_live(address));
                        assert(with_leaf.is_live(address));
                    }
                }
            }
            // the map
            assert(before.same_leaves_but(self, Some(key_bytes))) by {
                assert forall|address: int, other: Seq<u8>|
                    Some(other) != Some(key_bytes) implies (#[trigger] self.is_leaf_with(
                    address,
                    other,
                ) <==> before.is_leaf_with(address, other)) by {
                    if address != leaf_address && address != node.address() && address
                        != pointer.address() {
                        assert(grown.is_live(address) == with_leaf.is_live(address));
                        assert(with_leaf.is_live(address) == before.is_live(address));
                    }
                }
                assert forall|address: int, other: Seq<u8>|
                    Some(other) != Some(key_bytes) && #[trigger] before.is_leaf_with(
                        address,
                        other,
                    ) implies self.slot_at(address)->Leaf_0.value == before.slot_at(
                    address,
                )->Leaf_0.value by {
                    assert(address != pointer.address());
                    assert(with_leaf.is_live(address));
                }
            }
            assert forall|other: int| self.is_leaf_with(other, key_bytes) implies other
                == leaf_address by {
                if other != leaf_address && other != node.address() && other != pointer.address() {
                    assert(grown.is_live(other) == with_leaf.is_live(other));
                    assert(before.is_leaf_with(other, key_bytes));
                    assert(one_starts_other(key_bytes, key_bytes));
                }
            }
            before.lemma_view_insert(self, key_bytes, value, leaf_address as int);
            assert(!before.view().contains_key(key_bytes)) by {
                if before.view().contains_key(key_bytes) {
                    assert(before.is_leaf_with(before.leaf_with(key_bytes), key_bytes));
                    assert(one_starts_other(key_bytes, key_bytes));
                }
            }
            assert(!before.has_prefix_conflict(key_bytes)) by {
                if before.has_prefix_conflict(key_bytes) {
                    let other = choose|other: Seq<u8>|
                        before.view().contains_key(other) && other != key_bytes
                            && one_starts_other(other, key_bytes);
                    assert(before.is_leaf_with(before.leaf_with(other), other));
                }
            }
        }
        node
    }

    /// Insert at a leaf. A leaf with the same key takes the value and gives
    /// its own back. A leaf whose key starts with the key, or with whose key
    /// the key starts, stops the insert. Any other leaf becomes one of the
    /// two children of a new inner node, whose prefix is what the two keys
    /// share from `depth` on.
    fn insert_at_leaf(
        &mut self,
        pointer: OpaqueNodePtr<V>,
        key: Box<[u8]>,
        depth: usize,
        value: V,
        Ghost(path): Ghost<Seq<u8>>,
    ) -> (result: Result<(OpaqueNodePtr<V>, Option<V>), InsertPrefixError>)
        requires
            old(self).can_insert_at(pointer, path, key@),
            old(self).slot_at(pointer.address()) is Leaf,
            path.len() == depth,
        ensures
            match result {
                Ok((node, previous)) => old(self).inserted(
                    final(self),
                    path,
                    key@,
                    value,
                    node,
                    previous,
                ),
                Err(error) => {
                    &&& *final(self) == *old(self)
                    &&& error.key@ == key@
                    &&& old(self).has_prefix_conflict(key@)
                },
            },
    {
        let ghost before = *self;
        let ghost key_bytes = key@;
        proof {
            lemma_node_types::<V>();
            // the leaf is the one node recorded under the path
            assert forall|address: int|
                before.is_live(address) && starts_with(
                    #[trigger] before.path_of(address),
                    path,
                ) implies address == pointer.address() by {
                assert(before.descend(pointer, path, before.path_of(address)) == Some(address));
            }
        }
        let leaf = self.leaf_at(pointer);
        let leaf_key = leaf.key_bytes();
        let ghost old_key = leaf_key@;
        let leaf_len = leaf_key.len();
        let mut shared: usize = 0;
        while depth + shared < key.len() && depth + shared < leaf_len && key[depth + shared]
            == leaf_key[depth + shared]
            invariant
                depth + shared <= key@.len(),
                depth + shared <= leaf_key@.len(),
                leaf_len == leaf_key@.len(),
                forall|i: int| depth <= i < depth + shared ==> key@[i] == leaf_key@[i],
            decreases key@.len() - depth - shared,
        {
            shared += 1;
        }
        let at = depth + shared;
        proof {
            assert forall|i: int| 0 <= i < at implies key_bytes[i] == old_key[i] by {
                if i < depth {
                    assert(key_bytes[i] == path[i]);
                    assert(old_key[i] == path[i]);
                }
            }
            assert(before.is_leaf_with(pointer.address(), old_key));
            assert(before.view().contains_key(old_key));
        }
        if at == key.len() && at == leaf_len {
            assert(key_bytes =~= old_key);
            let previous = self.replace_value(pointer, value);
            proof {
                assert(self.sub_wf(pointer, path));
                assert forall|address: int|
                    self.is_live(address) && starts_with(
                        #[trigger] self.path_of(address),
                        path,
                    ) implies self.descend(pointer, path, self.path_of(address)) == Some(
                    address,
                ) by {
                    if address != pointer.address() {
                        assert(crate::heap::index_of(address) != crate::heap::index_of(
                            pointer.address(),
                        ));
                        assert(before.is_live(address));
                        assert(starts_with(before.path_of(address), path));
                    }
                    assert(self.path_of(pointer.address()) == path);
                }
                assert(before.changed_under(self, path)) by {
                    assert forall|address: int|
                        before.is_live(address) && !starts_with(
                            #[trigger] before.path_of(address),
                            path,
                        ) implies self.is_live(address) && self.slot_at(address)
                        == before.slot_at(address) && self.path_of(address) == before.path_of(
                        address,
                    ) by {
                        assert(crate::heap::index_of(address) != crate::heap::index_of(
                            pointer.address(),
                        ));
                    }
                    assert forall|address: int|
                        self.is_live(address) && !before.is_live(address) implies starts_with(
                        #[trigger] self.path_of(address),
                        path,
                    ) by {
                        if address != pointer.address() {
                            assert(crate::heap::index_of(address) != crate::heap::index_of(
                                pointer.address(),
                            ));
                        }
                    }
                }
                assert(before.same_leaves_but(self, Some(key_bytes)));
                assert forall|other: int| self.is_leaf_with(other, key_bytes) implies other
                    == pointer.address() by {
                    assert(before.is_leaf_with(other, key_bytes));
                }
                before.lemma_view_insert(self, key_bytes, value, pointer.address());
                assert(before.is_leaf_with(before.leaf_with(key_bytes), key_bytes));
                assert(!before.has_prefix_conflict(key_bytes)) by {
                    if before.has_prefix_conflict(key_bytes) {
                        let other = choose|other: Seq<u8>|
                            before.view().contains_key(other) && other != key_bytes
                                && one_starts_other(other, key_bytes);
                        assert(before.is_leaf_with(before.leaf_with(other), other));
                    }
                }
            }
            Ok((pointer, Some(previous)))
        } else if at == key.len() || at == leaf_len {
            proof {
                assert(one_starts_other(old_key, key_bytes));
                assert(old_key != key_bytes);
            }
            Err(InsertPrefixError { key })
        } else {
            let old_byte = leaf_key[at];
            let ghost trunk = path + key_bytes.subrange(depth as int, depth + shared);
            let ghost below = trunk.push(old_byte);
            proof {
                // no leaf stands in the way of the key
                assert forall|address: int, other: Seq<u8>|
                    before.is_leaf_with(address, other) implies !one_starts_other(
                    other,
                    key_bytes,
                ) by {
                    if one_starts_other(other, key_bytes) {
                        assert(address == pointer.address());
                        assert(other[at as int] == key_bytes[at as int]);
                    }
                }
                assert(!before.view().contains_key(key_bytes)) by {
                    if before.view().contains_key(key_bytes) {
                        assert(before.is_leaf_with(before.leaf_with(key_bytes), key_bytes));
                        assert(one_starts_other(key_bytes, key_bytes));
                    }
                }
                assert(!before.has_prefix_conflict(key_bytes)) by {
                    if before.has_prefix_conflict(key_bytes) {
                        let other = choose|other: Seq<u8>|
                            before.view().contains_key(other) && other != key_bytes
                                && one_starts_other(other, key_bytes);
                        assert(before.is_leaf_with(before.leaf_with(other), other));
                    }
                }
                self.paths@ = self.paths@.insert(pointer.address(), below);
                assert(starts_with(old_key, below)) by {
                    assert forall|i: int| 0 <= i < below.len() implies old_key[i] == below[i] by {
                        if i < at {
                            assert(key_bytes[i] == old_key[i]);
                        }
                    }
                }
                assert(self.sub_wf(pointer, below));
                assert forall|address: int|
                    self.is_live(address) && starts_with(
                        #[trigger] self.path_of(address),
                        below,
                    ) implies self.descend(pointer, below, self.path_of(address)) == Some(
                    address,
                ) by {
                    if address != pointer.address() {
                        let there = before.path_of(address);
                        assert(starts_with(there, path)) by {
                            assert forall|i: int| 0 <= i < path.len() implies there[i]
                                == path[i] by {
                                assert(below[i] == path[i]);
                            }
                        }
                    }
                }
                assert forall|address: int|
                    self.is_live(address) && starts_with(
                        #[trigger] self.path_of(address),
                        path,
                    ) implies starts_with(self.path_of(address), below) by {
                    if address != pointer.address() {
                        assert(before.is_live(address));
                        assert(starts_with(before.path_of(address), path));
                    }
                }
                assert(before.same_leaves_but(self, None));
                before.lemma_view_same(self);
            }
            let ghost moved = *self;
            let node = self.branch(pointer, key, depth, shared, old_byte, value, Ghost(path));
            proof {
                assert(before.changed_under(self, path)) by {
                    assert forall|address: int|
                        before.is_live(address) && !starts_with(
                            #[trigger] before.path_of(address),
                            path,
                        ) implies self.is_live(address) && self.slot_at(address)
                        == before.slot_at(address) && self.path_of(address) == before.path_of(
                        address,
                    ) by {
                        assert(moved.is_live(address));
                        assert(address != pointer.address());
                        assert(self.path_of(address) == moved.path_of(address));
                    }
                    assert forall|address: int|
                        before.is_live(address) && self.is_live(address) && starts_with(
                            before.path_of(address),
                            path,
                        ) implies starts_with(#[trigger] self.path_of(address), path) by {
                        assert(address == pointer.address());
                        assert(moved.is_live(address));
                        assert(self.path_of(address) == moved.path_of(address));
                        assert forall|i: int| 0 <= i < path.len() implies below[i] == path[i] by {
                            assert(trunk[i] == path[i]);
                        }
                    }
                }
            }
            Ok((node, None))
        }
    }

    /// Insert at an inner node whose prefix the key leaves after `matched`
    /// bytes. A new inner node takes the place of the inner node, with the
    /// bytes on which the prefix and the key agree as its prefix; the inner
    /// node becomes its child for the next byte of the prefix, and keeps the
    /// bytes behind that one as its own prefix; a new leaf with the key
    /// becomes its child for the next byte of the key.
    fn split_prefix(
        &mut self,
        pointer: OpaqueNodePtr<V>,
        key: Box<[u8]>,
        depth: usize,
        matched: usize,
        value: V,
        Ghost(path): Ghost<Seq<u8>>,
    ) -> (node: OpaqueNodePtr<V>)
        requires
            old(self).can_insert_at(pointer, path, key@),
            old(self).slot_at(pointer.address()).is_inner(),
            path.len() == depth,
            depth <= key@.len(),
            is_common_prefix_len(
                old(self).slot_at(pointer.address()).prefix(),
                key@.skip(depth as int),
                matched as int,
            ),
            matched < old(self).slot_at(pointer.address()).prefix().len(),
            depth + matched < key@.len(),
        ensures
            old(self).inserted(final(self), path, key@, value, node, None),
    {
        let ghost before = *self;
        let ghost key_bytes = key@;
        let ghost old_slot = self.slot_at(pointer.address());
        let ghost prefix = old_slot.prefix();
        let ghost whole = path + prefix;
        let ghost trunk = path + key_bytes.subrange(depth as int, depth + matched);
        proof {
            lemma_node_types::<V>();
            old_slot.lemma_slot_population();
        }
        let old_byte = self.prefix_byte(pointer, matched, depth, Ghost(path));
        let ghost below = trunk.push(old_byte);
        let old_header = self.header_at(pointer);
        let num_children = old_header.num_children;
        let header = if matched + 1 <= old_header.read_prefix().len() {
            let mut header = old_header.clone();
            header.ltrim_prefix(matched + 1);
            header
        } else {
            let tail = self.prefix_tail(pointer, matched + 1, depth, Ghost(path));
            let mut header = Header::empty();
            header.write_prefix(tail.as_slice());
            header.num_children = num_children;
            header
        };
        assert(header@.prefix =~= prefix.skip(matched + 1));
        self.set_header(pointer, header);
        proof {
            self.paths@ = self.paths@.insert(pointer.address(), below);
        }
        let ghost moved = *self;
        proof {
            let slot = moved.slot_at(pointer.address());
            assert(key_bytes.skip(depth as int)[matched as int] == key_bytes[depth + matched]);
            assert forall|i: int| 0 <= i < trunk.len() implies trunk[i] == whole[i] by {
                if i >= depth {
                    assert(key_bytes.skip(depth as int)[i - depth] == key_bytes[i]);
                }
            }
            assert(below + slot.prefix() =~= whole);
            assert forall|address: int| before.is_live(address) && address != pointer.address()
                implies moved.is_live(address) && moved.slot_at(address) == before.slot_at(address)
                && #[trigger] moved.path_of(address) == before.path_of(address) by {
                assert(crate::heap::index_of(address) != crate::heap::index_of(pointer.address()));
            }
            assert forall|address: int| moved.is_live(address) implies before.is_live(address) by {
                if address != pointer.address() {
                    assert(crate::heap::index_of(address) != crate::heap::index_of(
                        pointer.address(),
                    ));
                }
            }
            // the children are as they were
            assert forall|key_byte: u8| #[trigger]
                slot.children().contains_key(key_byte) implies moved.sub_wf(
                slot.children()[key_byte],
                whole.push(key_byte),
            ) && (forall|target: Seq<u8>| #[trigger]
                moved.descend(slot.children()[key_byte], whole.push(key_byte), target)
                    == before.descend(slot.children()[key_byte], whole.push(key_byte), target)) by {
                let side = whole.push(key_byte);
                assert forall|address: int|
                    before.is_live(address) && starts_with(
                        #[trigger] before.path_of(address),
                        side,
                    ) implies moved.is_live(address) && moved.slot_at(address) == before.slot_at(
                    address,
                ) && moved.path_of(address) == before.path_of(address) by {
                    assert(address != pointer.address());
                }
                before.lemma_frame(&moved, slot.children()[key_byte], side);
            }
            assert(moved.sub_wf(pointer, below));
            assert forall|address: int|
                moved.is_live(address) && starts_with(
                    #[trigger] moved.path_of(address),
                    path,
                ) implies starts_with(moved.path_of(address), below) && moved.descend(
                pointer,
                below,
                moved.path_of(address),
            ) == Some(address) by {
                let there = moved.path_of(address);
                if address != pointer.address() {
                    assert(before.is_live(address));
                    before.lemma_node_side(pointer, path, address);
                    let key_byte = there[whole.len() as int];
                    assert forall|i: int| 0 <= i < below.len() implies there[i] == below[i] by {
                        assert(there[i] == whole[i]);
                    }
                    assert(moved.descend(
                        slot.children()[key_byte],
                        whole.push(key_byte),
                        there,
                    ) == before.descend(slot.children()[key_byte], whole.push(key_byte), there));
                }
            }
            assert(moved.covers(pointer, below)) by {
                assert forall|address: int|
                    moved.is_live(address) && starts_with(
                        #[trigger] moved.path_of(address),
                        below,
                    ) implies moved.descend(pointer, below, moved.path_of(address)) == Some(
                    address,
                ) by {
                    let there = moved.path_of(address);
                    assert forall|i: int| 0 <= i < path.len() implies there[i] == path[i] by {
                        assert(below[i] == path[i]);
                    }
                }
            }
            // no leaf stands in the way of the key
            assert forall|address: int, other: Seq<u8>|
                before.is_leaf_with(address, other) implies !one_starts_other(
                other,
                key_bytes,
            ) by {
                if one_starts_other(other, key_bytes) {
                    before.lemma_leaf_side(pointer, path, address);
                    assert(other[depth + matched] == whole[depth + matched]);
                    assert(other[depth + matched] == key_bytes[depth + matched]);
                }
            }
            assert(!before.view().contains_key(key_bytes)) by {
                if before.view().contains_key(key_bytes) {
                    assert(before.is_leaf_with(before.leaf_with(key_bytes), key_bytes));
                    assert(one_starts_other(key_bytes, key_bytes));
                }
            }
            assert(!before.has_prefix_conflict(key_bytes)) by {
                if before.has_prefix_conflict(key_bytes) {
                    let other = choose|other: Seq<u8>|
                        before.view().contains_key(other) && other != key_bytes
                            && one_starts_other(other, key_bytes);
                    assert(before.is_leaf_with(before.leaf_with(other), other));
                }
            }
            assert(before.same_leaves_but(&moved, None));
            before.lemma_view_same(&moved);
            assert forall|address: int| !moved.is_leaf_with(address, key_bytes) by {
                if moved.is_leaf_with(address, key_bytes) {
                    assert(before.is_leaf_with(address, key_bytes));
                    assert(one_starts_other(key_bytes, key_bytes));
                }
            }
        }
        let node = self.branch(pointer, key, depth, matched, old_byte, value, Ghost(path));
        proof {
            assert(before.changed_under(self, path)) by {
                assert forall|address: int|
                    before.is_live(address) && !starts_with(
                        #[trigger] before.path_of(address),
                        path,
                    ) implies self.is_live(address) && self.slot_at(address) == before.slot_at(
                    address,
                ) && self.path_of(address) == before.path_of(address) by {
                    assert(address != pointer.address());
                    assert(moved.is_live(address));
                    assert(self.path_of(address) == moved.path_of(address));
                }
                assert forall|address: int|
                    self.is_live(address) && !before.is_live(address) implies starts_with(
                    #[trigger] self.path_of(address),
                    path,
                ) by {
                    assert(!moved.is_live(address));
                }
                assert forall|address: int|
                    before.is_live(address) && self.is_live(address) && starts_with(
                        before.path_of(address),
                        path,
                    ) implies starts_with(#[trigger] self.path_of(address), path) by {
                    assert(moved.is_live(address));
                    assert(self.path_of(address) == moved.path_of(address));
                    if address == pointer.address() {
                        assert forall|i: int| 0 <= i < path.len() implies below[i] == path[i] by {
                            assert(trunk[i] == path[i]);
                        }
                    }
                }
            }
        }
        node
    }

    /// Insert into the subtree that the pointer leads to, which the first
    /// `depth` bytes of the key lead to.
    fn insert_at(
        &mut self,
        pointer: OpaqueNodePtr<V>,
        key: Box<[u8]>,
        depth: usize,
        value: V,
        Ghost(path): Ghost<Seq<u8>>,
    ) -> (result: Result<(OpaqueNodePtr<V>, Option<V>), InsertPrefixError>)
        requires
            old(self).can_insert_at(pointer, path, key@),
            path.len() == depth,
        ensures
            match result {
                Ok((node, previous)) => old(self).inserted(
                    final(self),
                    path,
                    key@,
                    value,
                    node,
                    previous,
                ),
                Err(error) => {
                    &&& *final(self) == *old(self)
                    &&& error.key@ == key@
                    &&& old(self).has_prefix_conflict(key@)
                },
            },
        decreases key@.len() - depth,
    {
        match pointer.node_type() {
            NodeType::Leaf => {
                return self.insert_at_leaf(pointer, key, depth, value, Ghost(path));
            },
            _ => {},
        }
        let ghost before = *self;
        let ghost key_bytes = key@;
        let ghost old_slot = self.slot_at(pointer.address());
        let ghost prefix = old_slot.prefix();
        let ghost trunk = path + prefix;
        proof {
            old_slot.lemma_slot_population();
        }
        let matched = self.match_whole_prefix(pointer, &key, depth, Ghost(path));
        let prefix_size = self.header_at(pointer).prefix_size();
        proof {
            assert forall|i: int| 0 <= i < depth + matched implies key_bytes[i] == trunk[i] by {
                if i >= depth {
                    assert(key_bytes.skip(depth as int)[i - depth] == key_bytes[i]);
                } else {
                    assert(key_bytes[i] == path[i]);
                }
            }
        }
        if depth + matched == key.len() {
            proof {
                let leaf = before.lemma_leaf_under(pointer, path);
                let other = before.slot_at(leaf)->Leaf_0.key@;
                let there = before.path_of(leaf);
                assert(before.is_leaf_with(leaf, other));
                assert(before.view().contains_key(other));
                assert(there.len() > trunk.len());
                assert(starts_with(other, key_bytes)) by {
                    assert forall|i: int| 0 <= i < key_bytes.len() implies other[i]
                        == key_bytes[i] by {
                        assert(other[i] == there[i]);
                        assert(there[i] == trunk[i]);
                    }
                }
                assert(other != key_bytes);
                assert(one_starts_other(other, key_bytes));
                assert(before.has_prefix_conflict(key_bytes));
            }
            return Err(InsertPrefixError { key });
        }
        if matched < prefix_size {
            let node = self.split_prefix(pointer, key, depth, matched, value, Ghost(path));
            return Ok((node, None));
        }
        let at = depth + prefix_size;
        let key_byte = key[at];
        let ghost below = trunk.push(key_byte);
        let found = self.lookup_child(pointer, key_byte);
        let child = match found {
            Some(child) => child,
            None => {
                let node = self.add_leaf(pointer, key, at, value, Ghost(path));
                return Ok((node, None));
            },
        };
        proof {
            before.lemma_child_covers(pointer, path, key_byte);
            assert(starts_with(key_bytes, below));
            assert forall|address: int, other: Seq<u8>| #[trigger]
                before.is_leaf_with(address, other) && one_starts_other(
                    other,
                    key_bytes,
                ) implies starts_with(before.path_of(address), below) by {
                before.lemma_leaf_side(pointer, path, address);
                assert(other[trunk.len() as int] == key_bytes[trunk.len() as int]);
            }
        }
        let (new_child, previous) = match self.insert_at(child, key, at + 1, value, Ghost(below)) {
            Ok(done) => done,
            Err(error) => {
                return Err(error);
            },
        };
        let ghost mid = *self;
        if new_child.0 != child.0 {
            self.write_child(pointer, key_byte, new_child);
        }
        proof {
            crate::nodes::pointer::lemma_opaque_ptr_word(new_child, child);
            let slot = self.slot_at(pointer.address());
            assert(mid.slot_at(pointer.address()) == old_slot);
            assert(slot.children() =~= old_slot.children().insert(key_byte, new_child));
            assert(slot.prefix() == prefix);
            slot.lemma_slot_population();
            assert(slot.header()@.num_children == old_slot.header()@.num_children) by {
                assert(slot.children().dom() =~= old_slot.children().dom());
            }
            assert forall|address: int| mid.is_live(address) && address != pointer.address()
                implies self.is_live(address) && self.slot_at(address) == mid.slot_at(address)
                && #[trigger] self.path_of(address) == mid.path_of(address) by {
                assert(crate::heap::index_of(address) != crate::heap::index_of(pointer.address()));
            }
            assert forall|address: int| self.is_live(address) implies mid.is_live(address) by {
                if address != pointer.address() {
                    assert(crate::heap::index_of(address) != crate::heap::index_of(
                        pointer.address(),
                    ));
                }
            }
            // the subtree of the child
            assert forall|address: int|
                mid.is_live(address) && starts_with(
                    #[trigger] mid.path_of(address),
                    below,
                ) implies self.is_live(address) && self.slot_at(address) == mid.slot_at(address)
                && self.path_of(address) == mid.path_of(address) by {
                assert(address != pointer.address());
            }
            mid.lemma_frame(self, new_child, below);
            // the subtrees of the other children
            assert forall|other_byte: u8|
                other_byte != key_byte && #[trigger] old_slot.children().contains_key(
                    other_byte,
                ) implies self.sub_wf(old_slot.children()[other_byte], trunk.push(other_byte)) && (
            forall|target: Seq<u8>| #[trigger]
                self.descend(old_slot.children()[other_byte], trunk.push(other_byte), target)
                    == before.descend(
                    old_slot.children()[other_byte],
                    trunk.push(other_byte),
                    target,
                )) by {
                let side = trunk.push(other_byte);
                assert forall|address: int|
                    before.is_live(address) && starts_with(
                        #[trigger] before.path_of(address),
                        side,
                    ) implies self.is_live(address) && self.slot_at(address) == before.slot_at(
                    address,
                ) && self.path_of(address) == before.path_of(address) by {
                    let there = before.path_of(address);
                    assert(there[trunk.len() as int] == side[trunk.len() as int]);
                    assert(!starts_with(there, below)) by {
                        if starts_with(there, below) {
                            assert(there[trunk.len() as int] == below[trunk.len() as int]);
                        }
                    }
                    assert(address != pointer.address());
                    assert(mid.is_live(address));
                }
                before.lemma_frame(self, old_slot.children()[other_byte], side);
            }
            assert(self.sub_wf(pointer, path));
            assert forall|address: int|
                self.is_live(address) && starts_with(
                    #[trigger] self.path_of(address),
                    path,
                ) implies self.descend(pointer, path, self.path_of(address)) == Some(address) by {
                let there = self.path_of(address);
                if address == pointer.address() {
                } else if starts_with(mid.path_of(address), below) {
                    assert(mid.descend(new_child, below, there) == Some(address));
                    assert(self.descend(new_child, below, there) == mid.descend(
                        new_child,
                        below,
                        there,
                    ));
                    assert(there[trunk.len() as int] == below[trunk.len() as int]);
                    assert(starts_with(there, trunk)) by {
                        assert forall|i: int| 0 <= i < trunk.len() implies there[i]
                            == trunk[i] by {
                            assert(below[i] == trunk[i]);
                        }
                    }
                } else {
                    assert(mid.is_live(address));
                    assert(before.is_live(address));
                    assert(!starts_with(before.path_of(address), below));
                    assert(mid.path_of(address) == before.path_of(address));
                    before.lemma_node_side(pointer, path, address);
                    let other_byte = there[trunk.len() as int];
                    assert(other_byte != key_byte) by {
                        if other_byte == key_byte {
                            assert(trunk.push(other_byte) =~= below);
                        }
                    }
                    assert(old_slot.children().contains_key(other_byte));
                    assert(self.descend(
                        old_slot.children()[other_byte],
                        trunk.push(other_byte),
                        there,
                    ) == before.descend(
                        old_slot.children()[other_byte],
                        trunk.push(other_byte),
                        there,
                    ));
                }
            }
            assert(before.changed_under(self, path)) by {
                assert forall|i: int| 0 <= i < path.len() implies below[i] == path[i] by {
                    assert(trunk[i] == path[i]);
                }
                assert forall|address: int|
                    before.is_live(address) && !starts_with(
                        #[trigger] before.path_of(address),
                        path,
                    ) implies self.is_live(address) && self.slot_at(address) == before.slot_at(
                    address,
                ) && self.path_of(address) == before.path_of(address) by {
                    let there = before.path_of(address);
                    assert(!starts_with(there, below)) by {
                        if starts_with(there, below) {
                            assert forall|i: int| 0 <= i < path.len() implies there[i]
                                == path[i] by {
                                assert(there[i] == below[i]);
                            }
                        }
                    }
                    assert(address != pointer.address());
                    assert(mid.is_live(address));
                }
                assert forall|address: int|
                    self.is_live(address) && !before.is_live(address) implies starts_with(
                    #[trigger] self.path_of(address),
                    path,
                ) by {
                    assert(mid.is_live(address));
                    let there = mid.path_of(address);
                    assert(starts_with(there, below));
                    assert forall|i: int| 0 <= i < path.len() implies there[i] == path[i] by {
                        assert(there[i] == below[i]);
                    }
                }
                assert forall|address: int|
                    before.is_live(address) && self.is_live(address) && starts_with(
                        before.path_of(address),
                        path,
                    ) implies starts_with(#[trigger] self.path_of(address), path) by {
                    assert(mid.is_live(address));
                    if starts_with(before.path_of(address), below) {
                        let there = mid.path_of(address);
                        assert(starts_with(there, below));
                        assert forall|i: int| 0 <= i < path.len() implies there[i]
                            == path[i] by {
                            assert(there[i] == below[i]);
                        }
                    }
                }
            }
            assert(mid.same_leaves_but(self, None)) by {
                assert forall|address: int, other: Seq<u8>|
                    #[trigger] self.is_leaf_with(address, other) <==> mid.is_leaf_with(
                        address,
                        other,
                    ) by {
                    if address != pointer.address() && crate::nodes::pointer::is_node_address(
                        address,
                    ) {
                        assert(crate::heap::index_of(address) != crate::heap::index_of(
                            pointer.address(),
                        ));
                    }
                }
            }
            mid.lemma_view_same(self);
        }
        Ok((pointer, previous))
    }

    /// Insert a key with its value into the tree with the given root.
    ///
    /// A key that the tree holds keeps its leaf, which takes the new value
    /// and gives the value it held back. Any other key gets a new leaf:
    /// under the inner node that the key leads to, which is grown before
    /// the leaf is written where it is full; or under a new inner node,
    /// where the key leaves the prefix of an inner node or meets a leaf
    /// with another key. The insert is refused, and changes nothing, where
    /// the tree holds another key that starts with the key, or with which
    /// the key starts. It allocates two nodes at most.
    pub fn insert(&mut self, root: Option<OpaqueNodePtr<V>>, key: Box<[u8]>, value: V) -> (result:
        Result<InsertResult<V>, InsertPrefixError>)
        requires
            old(self).holds_tree(root),
            old(self).spare() >= 2,
        ensures
            result is Err <==> old(self).has_prefix_conflict(key@),
            match result {
                Ok(done) => {
                    &&& final(self).holds_tree(Some(done.new_root))
                    &&& final(self).view() == old(self).view().insert(key@, value)
                    &&& done.previous == (if old(self).view().contains_key(key@) {
                        Some(old(self).view()[key@])
                    } else {
                        None::<V>
                    })
                    &&& final(self).live() <= old(self).live() + 2
                    &&& done.previous is Some ==> final(self).live() == old(self).live()
                    &&& done.previous is None ==> final(self).live() > old(self).live()
                },
                Err(error) => {
                    &&& *final(self) == *old(self)
                    &&& error.key@ == key@
                },
            },
    {
        let ghost before = *self;
        let ghost key_bytes = key@;
        proof {
            self.lemma_unique_keys(root);
            lemma_node_types::<V>();
        }
        match root {
            None => {
                let leaf_address = self.allocate(Slot::Leaf(LeafNode::new(key, value)));
                let leaf = OpaqueNodePtr::new(NodePtr::<LeafNode<V>>::new(leaf_address));
                proof {
                    self.paths@ = self.paths@.insert(leaf_address as int, Seq::empty());
                    assert(self.sub_wf(leaf, Seq::empty()));
                    assert forall|address: int| self.is_live(address) implies address
                        == leaf_address by {
                        if address != leaf_address {
                            assert(before.is_live(address));
                        }
                    }
                    assert(before.same_leaves_but(self, Some(key_bytes)));
                    before.lemma_view_insert(self, key_bytes, value, leaf_address as int);
                    assert(!before.view().contains_key(key_bytes)) by {
                        if before.view().contains_key(key_bytes) {
                            assert(before.is_leaf_with(before.leaf_with(key_bytes), key_bytes));
                        }
                    }
                    assert(!before.has_prefix_conflict(key_bytes)) by {
                        if before.has_prefix_conflict(key_bytes) {
                            let other = choose|other: Seq<u8>|
                                before.view().contains_key(other) && other != key_bytes
                                    && one_starts_other(other, key_bytes);
                            assert(before.is_leaf_with(before.leaf_with(other), other));
                        }
                    }
                }
                Ok(InsertResult { new_root: leaf, previous: None })
            },
            Some(root) => {
                match self.insert_at(root, key, 0, value, Ghost(Seq::empty())) {
                    Ok((new_root, previous)) => {
                        proof {
                            assert forall|address: int| self.is_live(address) implies self.descend(
                                new_root,
                                Seq::empty(),
                                #[trigger] self.path_of(address),
                            ) == Some(address) by {
                                assert(starts_with(self.path_of(address), Seq::empty()));
                            }
                        }
                        Ok(InsertResult { new_root, previous })
                    },
                    Err(error) => Err(error),
                }
            },
        }
    }

    /// Put a new inner node above the subtree that the pointer leads to. The
    /// new node has the sub-tree as one child and a new leaf with the key as
    /// the other, and as its prefix the `shared` bytes of the key from
    /// `depth` on.
    fn branch(
        &mut self,
        pointer: OpaqueNodePtr<V>,
        key: Box<[u8]>,
        depth: usize,
        shared: usize,
        old_byte: u8,
        value: V,
        Ghost(path): Ghost<Seq<u8>>,
    ) -> (node: OpaqueNodePtr<V>)
        requires
            old(self).wf(),
            old(self).unique_keys(),
            path.len() == depth,
            depth + shared < key@.len(),
            starts_with(key@, path),
            key@[depth + shared] != old_byte,
            old(self).sub_wf(
                pointer,
                (path + key@.subrange(depth as int, depth + shared)).push(old_byte),
            ),
            old(self).covers(
                pointer,
                (path + key@.subrange(depth as int, depth + shared)).push(old_byte),
            ),
            forall|address: int|
                old(self).is_live(address) && starts_with(
                    #[trigger] old(self).path_of(address),
                    path,
                ) ==> starts_with(
                    old(self).path_of(address),
                    (path + key@.subrange(depth as int, depth + shared)).push(old_byte),
                ),
            forall|address: int| !old(self).is_leaf_with(address, key@),
            old(self).spare() >= 2,
        ensures
            final(self).wf(),
            final(self).sub_wf(node, path),
            final(self).covers(node, path),
            forall|address: int|
                old(self).is_live(address) ==> {
                    &&& final(self).is_live(address)
                    &&& final(self).slot_at(address) == old(self).slot_at(address)
                    &&& #[trigger] final(self).path_of(address) == old(self).path_of(address)
                },
            forall|address: int|
                final(self).is_live(address) && !old(self).is_live(address) ==> starts_with(
                    #[trigger] final(self).path_of(address),
                    path,
                ),
            final(self).view() == old(self).view().insert(key@, value),
            final(self).unique_keys(),
            final(self).live() == old(self).live() + 2,
            final(self).spare() == old(self).spare() - 2,
    {
        let ghost before = *self;
        let ghost key_bytes = key@;
        let ghost trunk = path + key_bytes.subrange(depth as int, depth + shared);
        let ghost below = trunk.push(old_byte);
        let new_byte = key[depth + shared];
        let mut node = InnerNode4::empty();
        let shared_bytes = vstd::slice::slice_subrange(&key, depth, depth + shared);
        node.header.write_prefix(shared_bytes);
        assert(node.header@.prefix =~= key_bytes.subrange(depth as int, depth + shared));
        assert(node.used_keys() =~= Seq::<u8>::empty());
        assert(node.used_children() =~= Seq::<Option<OpaqueNodePtr<V>>>::empty());
        assert(node.children() =~= Map::<u8, OpaqueNodePtr<V>>::empty());
        proof {
            lemma_node_types::<V>();
        }
        let leaf_address = self.allocate(Slot::Leaf(LeafNode::new(key, value)));
        let leaf = OpaqueNodePtr::new(NodePtr::<LeafNode<V>>::new(leaf_address));
        node.write_child(old_byte, pointer);
        node.write_child(new_byte, leaf);
        proof {
            node.lemma_population();
            assert(node.children().dom() =~= set![old_byte, new_byte]);
        }
        let ghost with_leaf = *self;
        let node_address = self.allocate(Slot::Node4(node));
        let above = OpaqueNodePtr::new(NodePtr::<InnerNode4<V>>::new(node_address));
        proof {
            self.paths@ = self.paths@.insert(leaf_address as int, trunk.push(new_byte)).insert(
                node_address as int,
                path,
            );
            let slot = self.slot_at(node_address as int);
            assert(slot.prefix() == key_bytes.subrange(depth as int, depth + shared));
            assert(slot.children() =~= Map::<u8, OpaqueNodePtr<V>>::empty().insert(
                old_byte,
                pointer,
            ).insert(new_byte, leaf));
            // the old subtree is as it was
            assert forall|address: int|
                before.is_live(address) && starts_with(
                    #[trigger] before.path_of(address),
                    below,
                ) implies self.is_live(address) && self.slot_at(address) == before.slot_at(address)
                && self.path_of(address) == before.path_of(address) by {}
            before.lemma_frame(self, pointer, below);
            // the new leaf
            assert(starts_with(key_bytes, trunk.push(new_byte))) by {
                assert forall|i: int| 0 <= i < trunk.push(new_byte).len() implies key_bytes[i]
                    == trunk.push(new_byte)[i] by {}
            }
            assert(self.sub_wf(leaf, trunk.push(new_byte)));
            assert(self.sub_wf(above, path));
            // every node is found from the new node
            assert forall|address: int|
                self.is_live(address) && starts_with(
                    #[trigger] self.path_of(address),
                    path,
                ) implies self.descend(above, path, self.path_of(address)) == Some(address) by {
                let target = self.path_of(address);
                if address == node_address {
                } else if address == leaf_address {
                    assert(self.descend(leaf, trunk.push(new_byte), target) == Some(address));
                } else {
                    assert(before.is_live(address));
                    assert(starts_with(before.path_of(address), below));
                    assert(before.descend(pointer, below, target) == Some(address));
                    assert(self.descend(pointer, below, target) == before.descend(
                        pointer,
                        below,
                        target,
                    ));
                    assert(target[trunk.len() as int] == below[trunk.len() as int]);
                    assert(starts_with(target, trunk)) by {
                        assert forall|i: int| 0 <= i < trunk.len() implies target[i]
                            == trunk[i] by {
                            assert(below[i] == trunk[i]);
                        }
                    }
                }
            }
            // the map
            assert(before.same_leaves_but(self, Some(key_bytes)));
            assert forall|other: int| self.is_leaf_with(other, key_bytes) implies other
                == leaf_address by {
                if other != leaf_address && other != node_address {
                    assert(with_leaf.is_live(other));
                    assert(before.is_live(other));
                    assert(before.is_leaf_with(other, key_bytes));
                }
            }
            before.lemma_view_insert(self, key_bytes, value, leaf_address as int);
        }
        above
    }
}

} // verus!

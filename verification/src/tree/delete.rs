//! Delete: take a key with its value out of the tree.

use crate::heap::{lemma_node_types, NodeHeap, Slot};
use crate::nodes::header::Header;
use crate::nodes::inner::is_first_key;
use crate::nodes::node_type::NodeType;
use crate::nodes::pointer::OpaqueNodePtr;
use crate::tree::model::starts_with;
use vstd::prelude::*;

verus! {

/// What a delete gives back.
pub struct DeleteResult<V> {
    /// The root of the tree after the delete. A tree that has lost its last
    /// key has none.
    pub new_root: Option<OpaqueNodePtr<V>>,
    /// The key that was deleted, with the value that it had, if the tree
    /// held the key.
    pub removed: Option<(Box<[u8]>, V)>,
}

impl<V> NodeHeap<V> {
    /// The children of the inner node that the pointer leads to are sound
    /// subtrees, each of which holds every node recorded under its path, and
    /// every node recorded under `path` but the inner node itself is
    /// recorded under the path of one of the children.
    pub open spec fn sound_children(&self, pointer: OpaqueNodePtr<V>, path: Seq<u8>) -> bool {
        self.sound_children_of(pointer, path, self.slot_at(pointer.address()).children())
    }

    /// The same of the children that `children` names, which the inner node
    /// is about to have.
    pub open spec fn sound_children_of(
        &self,
        pointer: OpaqueNodePtr<V>,
        path: Seq<u8>,
        children: Map<u8, OpaqueNodePtr<V>>,
    ) -> bool {
        let slot = self.slot_at(pointer.address());
        let trunk = path + slot.prefix();
        &&& self.wf()
        &&& self.holds_inner(pointer)
        &&& self.path_of(pointer.address()) == path
        &&& trunk.len() < usize::MAX
        &&& forall|key_byte: u8| #[trigger]
            children.contains_key(key_byte) ==> self.sub_wf(
                children[key_byte],
                trunk.push(key_byte),
            ) && self.covers(children[key_byte], trunk.push(key_byte))
        &&& forall|address: int|
            self.is_live(address) && address != pointer.address() && starts_with(
                #[trigger] self.path_of(address),
                path,
            ) ==> {
                &&& trunk.len() < self.path_of(address).len()
                &&& starts_with(self.path_of(address), trunk)
                &&& children.contains_key(self.path_of(address)[trunk.len() as int])
            }
    }

    /// An inner node with sound children that holds as many children as its
    /// class asks for is the top of a sound subtree, which holds every node
    /// recorded under its path.
    pub proof fn lemma_sound_node(&self, pointer: OpaqueNodePtr<V>, path: Seq<u8>)
        requires
            self.sound_children(pointer, path),
            self.slot_at(pointer.address()).header()@.num_children
                >= pointer.class()->0.min_children(),
        ensures
            self.sub_wf(pointer, path),
            self.covers(pointer, path),
    {
        let slot = self.slot_at(pointer.address());
        let trunk = path + slot.prefix();
        assert(self.sub_wf(pointer, path));
        assert forall|address: int|
            self.is_live(address) && starts_with(
                #[trigger] self.path_of(address),
                path,
            ) implies self.descend(pointer, path, self.path_of(address)) == Some(address) by {
            let there = self.path_of(address);
            if address != pointer.address() {
                let key_byte = there[trunk.len() as int];
                let below = trunk.push(key_byte);
                assert(starts_with(there, below));
                assert(self.covers(slot.children()[key_byte], below));
            }
        }
    }

    /// The top of a sound subtree that holds every node recorded under its
    /// path has sound children.
    pub proof fn lemma_sound_children(&self, pointer: OpaqueNodePtr<V>, path: Seq<u8>)
        requires
            self.wf(),
            self.sub_wf(pointer, path),
            self.covers(pointer, path),
            self.slot_at(pointer.address()).is_inner(),
        ensures
            self.sound_children(pointer, path),
    {
        let slot = self.slot_at(pointer.address());
        let trunk = path + slot.prefix();
        assert forall|key_byte: u8| #[trigger]
            slot.children().contains_key(key_byte) implies self.sub_wf(
            slot.children()[key_byte],
            trunk.push(key_byte),
        ) && self.covers(slot.children()[key_byte], trunk.push(key_byte)) by {
            self.lemma_child_covers(pointer, path, key_byte);
        }
        assert forall|address: int|
            self.is_live(address) && address != pointer.address() && starts_with(
                #[trigger] self.path_of(address),
                path,
            ) implies trunk.len() < self.path_of(address).len() && starts_with(
            self.path_of(address),
            trunk,
        ) && slot.children().contains_key(self.path_of(address)[trunk.len() as int]) by {
            self.lemma_node_side(pointer, path, address);
        }
    }

    /// Whether `after` is this heap but for the node that the pointer leads
    /// to, which may have moved to `node`, and which leads to the children
    /// that `children` names, behind the same prefix.
    pub open spec fn node_replaced(
        &self,
        after: &Self,
        pointer: OpaqueNodePtr<V>,
        node: OpaqueNodePtr<V>,
        path: Seq<u8>,
        children: Map<u8, OpaqueNodePtr<V>>,
    ) -> bool {
        &&& after.wf()
        &&& after.holds_inner(node)
        &&& after.path_of(node.address()) == path
        &&& after.slot_at(node.address()).children() == children
        &&& after.slot_at(node.address()).prefix() == self.slot_at(pointer.address()).prefix()
        &&& node.address() == pointer.address() || !self.is_live(node.address())
        &&& node.address() != pointer.address() ==> !after.is_live(pointer.address())
        &&& forall|address: int|
            address != pointer.address() && address != node.address() ==> after.is_live(address)
                == self.is_live(address)
        &&& forall|address: int|
            address != pointer.address() && address != node.address() && self.is_live(address) ==> {
                &&& after.slot_at(address) == self.slot_at(address)
                &&& #[trigger] after.path_of(address) == self.path_of(address)
            }
    }

    /// A node that is replaced by a node with the children that were found
    /// sound, behind the same prefix, has sound children, and nothing
    /// changes outside of the subtree.
    pub proof fn lemma_node_replaced(
        &self,
        after: &Self,
        pointer: OpaqueNodePtr<V>,
        node: OpaqueNodePtr<V>,
        path: Seq<u8>,
        children: Map<u8, OpaqueNodePtr<V>>,
    )
        requires
            self.sound_children_of(pointer, path, children),
            self.node_replaced(after, pointer, node, path, children),
        ensures
            after.sound_children(node, path),
            self.changed_under(after, path),
            self.same_leaves_but(after, None),
    {
        let slot = self.slot_at(pointer.address());
        let trunk = path + slot.prefix();
        assert forall|key_byte: u8| #[trigger] children.contains_key(key_byte) implies after.sub_wf(
            children[key_byte],
            trunk.push(key_byte),
        ) && after.covers(children[key_byte], trunk.push(key_byte)) by {
            let side = trunk.push(key_byte);
            let child = children[key_byte];
            assert forall|address: int|
                self.is_live(address) && starts_with(
                    #[trigger] self.path_of(address),
                    side,
                ) implies after.is_live(address) && after.slot_at(address) == self.slot_at(address)
                && after.path_of(address) == self.path_of(address) by {
                assert(address != pointer.address());
                assert(address != node.address());
                assert(after.is_live(address));
                assert(after.path_of(address) == self.path_of(address));
                assert(after.slot_at(address) == self.slot_at(address));
            }
            self.lemma_frame(after, child, side);
            assert forall|address: int|
                after.is_live(address) && starts_with(
                    #[trigger] after.path_of(address),
                    side,
                ) implies after.descend(child, side, after.path_of(address)) == Some(address) by {
                assert(address != node.address());
                assert(address != pointer.address());
                assert(self.is_live(address));
                assert(self.path_of(address) == after.path_of(address));
                assert(self.descend(child, side, self.path_of(address)) == Some(address));
            }
        }
        assert forall|address: int|
            after.is_live(address) && address != node.address() && starts_with(
                #[trigger] after.path_of(address),
                path,
            ) implies trunk.len() < after.path_of(address).len() && starts_with(
            after.path_of(address),
            trunk,
        ) && children.contains_key(after.path_of(address)[trunk.len() as int]) by {
            assert(address != pointer.address());
            assert(self.is_live(address));
            assert(self.path_of(address) == after.path_of(address));
        }
        assert(self.changed_under(after, path)) by {
            assert forall|address: int|
                self.is_live(address) && !starts_with(
                    #[trigger] self.path_of(address),
                    path,
                ) implies after.is_live(address) && after.slot_at(address) == self.slot_at(address)
                && after.path_of(address) == self.path_of(address) by {
                assert(address != pointer.address());
                assert(address != node.address());
                assert(after.is_live(address));
                assert(after.path_of(address) == self.path_of(address));
                assert(after.slot_at(address) == self.slot_at(address));
            }
            assert forall|address: int|
                self.is_live(address) && after.is_live(address) && starts_with(
                    self.path_of(address),
                    path,
                ) implies starts_with(#[trigger] after.path_of(address), path) by {
                if address != node.address() {
                    assert(address != pointer.address());
                    assert(self.path_of(address) == after.path_of(address));
                }
            }
        }
        assert(self.same_leaves_but(after, None)) by {
            assert forall|address: int, key: Seq<u8>|
                #[trigger] after.is_leaf_with(address, key) <==> self.is_leaf_with(
                    address,
                    key,
                ) by {
                if address != pointer.address() && address != node.address() {
                    assert(after.is_live(address) == self.is_live(address));
                    if self.is_live(address) {
                        assert(after.path_of(address) == self.path_of(address));
                    }
                }
            }
            assert forall|address: int, key: Seq<u8>| #[trigger]
                self.is_leaf_with(address, key) implies after.slot_at(address)->Leaf_0.value
                == self.slot_at(address)->Leaf_0.value by {
                assert(address != pointer.address());
                assert(address != node.address());
                assert(after.path_of(address) == self.path_of(address));
            }
        }
    }

    /// What a change inside the subtree at `path` leaves behind when it
    /// takes no key out and puts none in: a sound subtree under `node` that
    /// holds every node recorded under `path`, no change elsewhere, and the
    /// same map.
    pub open spec fn rearranged(&self, after: &Self, path: Seq<u8>, node: OpaqueNodePtr<V>) -> bool {
        &&& after.wf()
        &&& after.sub_wf(node, path)
        &&& after.covers(node, path)
        &&& self.changed_under(after, path)
        &&& self.same_leaves_but(after, None)
        &&& after.live() <= self.live()
        &&& after.spare() >= self.spare()
    }

    /// Bring an inner node that has lost a child, and still has two or
    /// more, back into the range of its class: a node with no more children
    /// than the next smaller class has room for is shrunk into that class.
    fn settle(&mut self, pointer: OpaqueNodePtr<V>, Ghost(path): Ghost<Seq<u8>>) -> (node:
        OpaqueNodePtr<V>)
        requires
            old(self).sound_children(pointer, path),
            old(self).slot_at(pointer.address()).header()@.num_children >= 2,
            old(self).slot_at(pointer.address()).header()@.num_children + 1
                >= pointer.class()->0.min_children(),
        ensures
            old(self).rearranged(final(self), path, node),
    {
        let ghost before = *self;
        let ghost children = self.slot_at(pointer.address()).children();
        proof {
            lemma_node_types::<V>();
            self.slot_at(pointer.address()).lemma_slot_population();
        }
        let num_children = self.header_at(pointer).num_children();
        let shrinks = match pointer.node_type() {
            NodeType::Node16 => num_children <= NodeType::Node4.upper_capacity(),
            NodeType::Node48 => num_children <= NodeType::Node16.upper_capacity(),
            NodeType::Node256 => num_children <= NodeType::Node48.upper_capacity(),
            _ => false,
        };
        let node = if shrinks {
            self.shrink(pointer)
        } else {
            pointer
        };
        proof {
            self.paths@ = self.paths@.insert(node.address(), path);
            assert(before.node_replaced(self, pointer, node, path, children));
            before.lemma_node_replaced(self, pointer, node, path, children);
            self.lemma_sound_node(node, path);
        }
        node
    }

    /// Put the one child of an inner node in the place of the inner node,
    /// which is released. A child that is an inner node takes the prefix of
    /// the inner node and the key byte that led to the child in front of
    /// its own prefix.
    fn collapse(
        &mut self,
        pointer: OpaqueNodePtr<V>,
        depth: usize,
        Ghost(path): Ghost<Seq<u8>>,
    ) -> (node: OpaqueNodePtr<V>)
        requires
            old(self).sound_children(pointer, path),
            old(self).slot_at(pointer.address()).header()@.num_children == 1,
            path.len() == depth,
        ensures
            old(self).rearranged(final(self), path, node),
            final(self).live() == old(self).live() - 1,
    {
        let ghost before = *self;
        let ghost old_slot = self.slot_at(pointer.address());
        let ghost trunk = path + old_slot.prefix();
        proof {
            lemma_node_types::<V>();
            old_slot.lemma_slot_population();
            assert(old_slot.children().dom().len() != 0);
        }
        let child = match self.first_child(pointer) {
            Some(child) => child,
            None => {
                proof {
                    assert(old_slot.children().dom() =~= Set::empty());
                }
                return vstd::pervasive::unreached();
            },
        };
        let ghost key_byte = choose|key: u8|
            is_first_key(old_slot.children(), key) && old_slot.children()[key] == child;
        let ghost side = trunk.push(key_byte);
        proof {
            // the one child
            assert forall|other: u8| old_slot.children().contains_key(other) implies other
                == key_byte by {
                if other != key_byte {
                    let fewer = old_slot.children().dom().remove(key_byte);
                    assert(fewer.len() == 0);
                    assert(fewer.contains(other));
                }
            }
            assert(before.sub_wf(child, side));
            assert(before.covers(child, side));
            assert(child.address() != pointer.address()) by {
                assert(before.path_of(child.address()) == side);
            }
        }
        let parent_len = self.header_at(pointer).prefix_size();
        let _ = self.release(pointer.0 - pointer.0 % 8);
        let ghost released = *self;
        proof {
            assert forall|address: int|
                before.is_live(address) && starts_with(
                    #[trigger] before.path_of(address),
                    side,
                ) implies released.is_live(address) && released.slot_at(address)
                == before.slot_at(address) && released.path_of(address) == before.path_of(
                address,
            ) by {
                assert(address != pointer.address());
            }
            before.lemma_frame(&released, child, side);
        }
        match child.node_type() {
            NodeType::Leaf => {
                proof {
                    self.paths@ = self.paths@.insert(child.address(), path);
                    let key = self.slot_at(child.address())->Leaf_0.key@;
                    assert forall|i: int| 0 <= i < path.len() implies key[i] == path[i] by {
                        assert(key[i] == side[i]);
                        assert(trunk[i] == path[i]);
                    }
                    assert(self.sub_wf(child, path));
                    assert forall|address: int|
                        self.is_live(address) && starts_with(
                            #[trigger] self.path_of(address),
                            path,
                        ) implies self.descend(child, path, self.path_of(address)) == Some(
                        address,
                    ) by {
                        if address != child.address() {
                            assert(before.is_live(address));
                            assert(before.path_of(address) == self.path_of(address));
                            let there = before.path_of(address);
                            assert(there[trunk.len() as int] == key_byte);
                            assert(starts_with(there, side));
                            assert(before.descend(child, side, there) == Some(address));
                        }
                    }
                }
            },
            _ => {
                let child_header = self.header_at(child);
                let child_len = child_header.prefix_size();
                let num_children = child_header.num_children;
                let ghost child_slot = self.slot_at(child.address());
                let ghost whole = side + child_slot.prefix();
                proof {
                    child_slot.lemma_slot_population();
                }
                let leaf = self.leaf_at(self.minimum_leaf(child, Ghost(side)));
                let leaf_key = leaf.key_bytes();
                let bytes = vstd::slice::slice_to_vec(
                    vstd::slice::slice_subrange(
                        leaf_key,
                        depth,
                        depth + parent_len + 1 + child_len,
                    ),
                );
                let mut header = Header::empty();
                header.write_prefix(bytes.as_slice());
                header.num_children = num_children;
                proof {
                    assert forall|i: int| 0 <= i < bytes@.len() implies bytes@[i] == whole[depth
                        + i] by {
                        assert(leaf_key@[depth + i] == whole[depth + i]);
                    }
                    assert(path + header@.prefix =~= whole);
                }
                self.set_header(child, header);
                proof {
                    self.paths@ = self.paths@.insert(child.address(), path);
                    let slot = self.slot_at(child.address());
                    assert(path + slot.prefix() == whole);
                    assert forall|address: int|
                        released.is_live(address) && address != child.address() implies self.is_live(
                            address,
                        ) && self.slot_at(address) == released.slot_at(address)
                        && #[trigger] self.path_of(address) == released.path_of(address) by {
                        assert(crate::heap::index_of(address) != crate::heap::index_of(
                            child.address(),
                        ));
                    }
                    assert forall|address: int| self.is_live(address) implies released.is_live(
                        address,
                    ) by {
                        if address != child.address() {
                            assert(crate::heap::index_of(address) != crate::heap::index_of(
                                child.address(),
                            ));
                        }
                    }
                    assert forall|address: int|
                        released.is_live(address) && starts_with(
                            #[trigger] released.path_of(address),
                            side,
                        ) implies released.descend(child, side, released.path_of(address))
                        == Some(address) by {
                        assert(before.is_live(address));
                        assert(before.descend(child, side, before.path_of(address)) == Some(
                            address,
                        ));
                    }
                    released.lemma_sound_children(child, side);
                    // the children of the child are as they were
                    assert forall|below_byte: u8| #[trigger]
                        slot.children().contains_key(below_byte) implies self.sub_wf(
                        slot.children()[below_byte],
                        whole.push(below_byte),
                    ) && self.covers(slot.children()[below_byte], whole.push(below_byte)) by {
                        let deep = whole.push(below_byte);
                        let grandchild = slot.children()[below_byte];
                        assert(released.sub_wf(grandchild, deep));
                        assert(released.covers(grandchild, deep));
                        assert forall|address: int|
                            released.is_live(address) && starts_with(
                                #[trigger] released.path_of(address),
                                deep,
                            ) implies self.is_live(address) && self.slot_at(address)
                            == released.slot_at(address) && self.path_of(address)
                            == released.path_of(address) by {
                            assert(address != child.address());
                        }
                        released.lemma_frame(self, grandchild, deep);
                        assert forall|address: int|
                            self.is_live(address) && starts_with(
                                #[trigger] self.path_of(address),
                                deep,
                            ) implies self.descend(grandchild, deep, self.path_of(address))
                            == Some(address) by {
                            assert(address != child.address());
                            assert(released.is_live(address));
                            assert(released.path_of(address) == self.path_of(address));
                            assert(released.descend(
                                grandchild,
                                deep,
                                released.path_of(address),
                            ) == Some(address));
                        }
                    }
                    assert forall|address: int|
                        self.is_live(address) && address != child.address() && starts_with(
                            #[trigger] self.path_of(address),
                            path,
                        ) implies whole.len() < self.path_of(address).len() && starts_with(
                        self.path_of(address),
                        whole,
                    ) && slot.children().contains_key(
                        self.path_of(address)[whole.len() as int],
                    ) by {
                        assert(released.is_live(address));
                        assert(before.is_live(address));
                        let there = before.path_of(address);
                        assert(released.path_of(address) == there);
                        assert(there[trunk.len() as int] == key_byte);
                        assert(starts_with(there, side));
                    }
                    assert(self.sound_children(child, path));
                    self.lemma_sound_node(child, path);
                }
            },
        }
        proof {
            assert(before.changed_under(self, path)) by {
                assert forall|address: int|
                    before.is_live(address) && !starts_with(
                        #[trigger] before.path_of(address),
                        path,
                    ) implies self.is_live(address) && self.slot_at(address) == before.slot_at(
                    address,
                ) && self.path_of(address) == before.path_of(address) by {
                    assert(address != pointer.address());
                    assert(address != child.address()) by {
                        if address == child.address() {
                            assert forall|i: int| 0 <= i < path.len() implies side[i]
                                == path[i] by {
                                assert(trunk[i] == path[i]);
                            }
                        }
                    }
                    assert(released.is_live(address));
                    if crate::nodes::pointer::is_node_address(address) {
                        assert(crate::heap::index_of(address) != crate::heap::index_of(
                            child.address(),
                        ));
                    }
                }
                assert forall|address: int|
                    self.is_live(address) && !before.is_live(address) implies starts_with(
                    #[trigger] self.path_of(address),
                    path,
                ) by {
                    if address != child.address() {
                        assert(crate::heap::index_of(address) != crate::heap::index_of(
                            child.address(),
                        ));
                        assert(released.is_live(address));
                    }
                }
                assert forall|address: int|
                    before.is_live(address) && self.is_live(address) && starts_with(
                        before.path_of(address),
                        path,
                    ) implies starts_with(#[trigger] self.path_of(address), path) by {
                    if address != child.address() {
                        assert(address != pointer.address());
                        assert(crate::heap::index_of(address) != crate::heap::index_of(
                            child.address(),
                        ));
                    }
                }
            }
            assert(before.same_leaves_but(self, None)) by {
                assert forall|address: int, key: Seq<u8>|
                    #[trigger] self.is_leaf_with(address, key) <==> before.is_leaf_with(
                        address,
                        key,
                    ) by {
                    if crate::nodes::pointer::is_node_address(address) && address
                        != pointer.address() && address != child.address() {
                        assert(crate::heap::index_of(address) != crate::heap::index_of(
                            child.address(),
                        ));
                        assert(released.is_live(address) == before.is_live(address));
                    }
                }
                assert forall|address: int, key: Seq<u8>| #[trigger]
                    before.is_leaf_with(address, key) implies self.slot_at(address)->Leaf_0.value
                    == before.slot_at(address)->Leaf_0.value by {
                    assert(address != pointer.address());
                    if address != child.address() {
                        assert(crate::heap::index_of(address) != crate::heap::index_of(
                            child.address(),
                        ));
                    }
                }
            }
        }
        child
    }

    /// Take a child that has lost its last leaf out of the inner node that
    /// the pointer leads to. An inner node that is left with one child
    /// gives its place to that child; one that is left with fewer children
    /// than its class asks for is shrunk.
    fn detach(
        &mut self,
        pointer: OpaqueNodePtr<V>,
        key_byte: u8,
        depth: usize,
        Ghost(path): Ghost<Seq<u8>>,
    ) -> (node: OpaqueNodePtr<V>)
        requires
            old(self).sound_children_of(
                pointer,
                path,
                old(self).slot_at(pointer.address()).children().remove(key_byte),
            ),
            old(self).slot_at(pointer.address()).children().contains_key(key_byte),
            old(self).slot_at(pointer.address()).header()@.num_children
                >= pointer.class()->0.min_children(),
            path.len() == depth,
        ensures
            old(self).rearranged(final(self), path, node),
    {
        let ghost before = *self;
        let ghost old_slot = self.slot_at(pointer.address());
        let ghost children = old_slot.children().remove(key_byte);
        proof {
            lemma_node_types::<V>();
            old_slot.lemma_slot_population();
        }
        let _ = self.remove_child(pointer, key_byte);
        let ghost removed = *self;
        proof {
            self.slot_at(pointer.address()).lemma_slot_population();
            assert forall|address: int| before.is_live(address) && address != pointer.address()
                implies removed.is_live(address) && removed.slot_at(address) == before.slot_at(
                address,
            ) && #[trigger] removed.path_of(address) == before.path_of(address) by {
                assert(crate::heap::index_of(address) != crate::heap::index_of(pointer.address()));
            }
            assert forall|address: int| address != pointer.address() implies removed.is_live(
                address,
            ) == before.is_live(address) by {
                if crate::nodes::pointer::is_node_address(address) {
                    assert(crate::heap::index_of(address) != crate::heap::index_of(
                        pointer.address(),
                    ));
                }
            }
            assert(before.node_replaced(&removed, pointer, pointer, path, children));
            before.lemma_node_replaced(&removed, pointer, pointer, path, children);
        }
        let node = if self.header_at(pointer).num_children() == 1 {
            self.collapse(pointer, depth, Ghost(path))
        } else {
            self.settle(pointer, Ghost(path))
        };
        proof {
            lemma_rearranged_twice(&before, &removed, self, path);
        }
        node
    }

    /// What a delete in the subtree at `path` starts from: the subtree is
    /// sound and holds every node recorded under `path`, and the leaf with
    /// the key, if there is one, is recorded under `path`.
    pub open spec fn can_delete_at(
        &self,
        pointer: OpaqueNodePtr<V>,
        path: Seq<u8>,
        key: Seq<u8>,
    ) -> bool {
        &&& self.wf()
        &&& self.unique_keys()
        &&& self.sub_wf(pointer, path)
        &&& self.covers(pointer, path)
        &&& forall|address: int|
            self.is_leaf_with(address, key) ==> starts_with(#[trigger] self.path_of(address), path)
    }

    /// What a delete that found the key in the subtree at `path` leaves
    /// behind: the map without the key, no change elsewhere, and under
    /// `path` either a sound subtree that holds every node recorded under
    /// `path`, or no node at all.
    pub open spec fn deleted(
        &self,
        after: &Self,
        path: Seq<u8>,
        key: Seq<u8>,
        node: Option<OpaqueNodePtr<V>>,
        value: V,
    ) -> bool {
        &&& after.wf()
        &&& self.view().contains_key(key)
        &&& value == self.view()[key]
        &&& after.view() == self.view().remove(key)
        &&& after.unique_keys()
        &&& self.changed_under(after, path)
        &&& after.live() < self.live()
        &&& after.spare() > self.spare()
        &&& match node {
            Some(node) => after.sub_wf(node, path) && after.covers(node, path),
            None => forall|address: int|
                after.is_live(address) ==> !starts_with(#[trigger] after.path_of(address), path),
        }
    }

    /// Delete in the subtree that the pointer leads to, which the first
    /// `depth` bytes of the key lead to.
    fn delete_at(
        &mut self,
        pointer: OpaqueNodePtr<V>,
        key: &[u8],
        depth: usize,
        Ghost(path): Ghost<Seq<u8>>,
    ) -> (result: (Option<OpaqueNodePtr<V>>, Option<(Box<[u8]>, V)>))
        requires
            old(self).can_delete_at(pointer, path, key@),
            path.len() == depth,
            depth <= key@.len(),
        ensures
            match result.1 {
                None => {
                    &&& *final(self) == *old(self)
                    &&& result.0 == Some(pointer)
                    &&& !old(self).view().contains_key(key@)
                },
                Some((removed_key, value)) => {
                    &&& removed_key@ == key@
                    &&& old(self).deleted(final(self), path, key@, result.0, value)
                },
            },
        decreases key@.len() - depth,
    {
        let ghost before = *self;
        proof {
            lemma_node_types::<V>();
        }
        match pointer.node_type() {
            NodeType::Leaf => {
                if !self.leaf_at(pointer).matches_key(key) {
                    proof {
                        if before.view().contains_key(key@) {
                            let address = before.leaf_with(key@);
                            assert(before.is_leaf_with(address, key@));
                            assert(before.descend(pointer, path, before.path_of(address)) == Some(
                                address,
                            ));
                        }
                    }
                    return (Some(pointer), None);
                }
                let slot = self.release(pointer.0 - pointer.0 % 8);
                proof {
                    assert(before.is_leaf_with(pointer.address(), key@));
                    assert(before.is_leaf_with(before.leaf_with(key@), key@));
                    assert(before.same_leaves_but(self, Some(key@)));
                    assert forall|other: int| !self.is_leaf_with(other, key@) by {
                        if self.is_leaf_with(other, key@) {
                            assert(before.is_leaf_with(other, key@));
                        }
                    }
                    before.lemma_view_remove(self, key@);
                    assert forall|address: int| self.is_live(address) implies !starts_with(
                        #[trigger] self.path_of(address),
                        path,
                    ) by {
                        if starts_with(self.path_of(address), path) {
                            assert(before.is_live(address));
                            assert(before.descend(pointer, path, before.path_of(address)) == Some(
                                address,
                            ));
                        }
                    }
                }
                return match slot {
                    Slot::Leaf(leaf) => (None, Some((leaf.key, leaf.value))),
                    _ => vstd::pervasive::unreached(),
                };
            },
            _ => {},
        }
        let ghost old_slot = self.slot_at(pointer.address());
        let ghost trunk = path + old_slot.prefix();
        proof {
            old_slot.lemma_slot_population();
            before.lemma_sound_children(pointer, path);
        }
        let header = self.header_at(pointer);
        let rest = vstd::slice::slice_subrange(key, depth, key.len());
        let matched = header.match_prefix(rest);
        let stored_len = header.read_prefix().len();
        let prefix_size = header.prefix_size();
        proof {
            // where the leaf with the key has to be, if there is one
            assert forall|address: int| before.is_leaf_with(address, key@) implies starts_with(
                key@,
                trunk,
            ) && trunk.len() < key@.len() && old_slot.children().contains_key(
                key@[trunk.len() as int],
            ) && starts_with(
                #[trigger] before.path_of(address),
                trunk.push(key@[trunk.len() as int]),
            ) by {
                before.lemma_leaf_side(pointer, path, address);
            }
            if before.view().contains_key(key@) {
                let address = before.leaf_with(key@);
                assert(before.is_leaf_with(address, key@));
                before.lemma_leaf_side(pointer, path, address);
                let stored = header@.stored;
                assert(stored =~= header@.prefix.subrange(0, stored.len() as int));
                assert(rest@ =~= key@.skip(depth as int));
                assert forall|i: int| 0 <= i < stored.len() implies stored[i] == rest@[i] by {
                    assert(stored[i] == header@.prefix[i]);
                    assert(trunk[depth + i] == header@.prefix[i]);
                    assert(key@[depth + i] == trunk[depth + i]);
                }
            }
        }
        if matched < stored_len || key.len() - depth <= prefix_size {
            return (Some(pointer), None);
        }
        let at = depth + prefix_size;
        let key_byte = key[at];
        let ghost below = trunk.push(key_byte);
        let child = match self.lookup_child(pointer, key_byte) {
            Some(child) => child,
            None => {
                return (Some(pointer), None);
            },
        };
        proof {
            before.lemma_child_covers(pointer, path, key_byte);
        }
        let (new_child, removed) = self.delete_at(child, key, at + 1, Ghost(below));
        let (removed_key, value) = match removed {
            Some(pair) => pair,
            None => {
                return (Some(pointer), None);
            },
        };
        let ghost mid = *self;
        let ghost children = match new_child {
            Some(node) => old_slot.children().insert(key_byte, node),
            None => old_slot.children().remove(key_byte),
        };
        proof {
            assert forall|i: int| 0 <= i < path.len() implies below[i] == path[i] by {
                assert(trunk[i] == path[i]);
            }
            assert(mid.slot_at(pointer.address()) == old_slot);
            // the children that were not touched, and the child that was
            assert forall|other_byte: u8| #[trigger]
                children.contains_key(other_byte) implies mid.sub_wf(
                children[other_byte],
                trunk.push(other_byte),
            ) && mid.covers(children[other_byte], trunk.push(other_byte)) by {
                if other_byte != key_byte {
                    let side = trunk.push(other_byte);
                    let other = old_slot.children()[other_byte];
                    assert(before.sub_wf(other, side) && before.covers(other, side));
                    assert forall|address: int|
                        before.is_live(address) && starts_with(
                            #[trigger] before.path_of(address),
                            side,
                        ) implies mid.is_live(address) && mid.slot_at(address)
                        == before.slot_at(address) && mid.path_of(address) == before.path_of(
                        address,
                    ) by {
                        let there = before.path_of(address);
                        assert(there[trunk.len() as int] == side[trunk.len() as int]);
                        assert(!starts_with(there, below)) by {
                            if starts_with(there, below) {
                                assert(there[trunk.len() as int] == below[trunk.len() as int]);
                            }
                        }
                    }
                    before.lemma_frame(&mid, other, side);
                    assert forall|address: int|
                        mid.is_live(address) && starts_with(
                            #[trigger] mid.path_of(address),
                            side,
                        ) implies mid.descend(other, side, mid.path_of(address)) == Some(
                        address,
                    ) by {
                        let there = mid.path_of(address);
                        assert(there[trunk.len() as int] == side[trunk.len() as int]);
                        assert(!starts_with(there, below)) by {
                            if starts_with(there, below) {
                                assert(there[trunk.len() as int] == below[trunk.len() as int]);
                            }
                        }
                        assert(before.is_live(address));
                        assert(!starts_with(before.path_of(address), below));
                        assert(before.path_of(address) == there);
                        assert(before.descend(other, side, there) == Some(address));
                    }
                }
            }
            assert forall|address: int|
                mid.is_live(address) && address != pointer.address() && starts_with(
                    #[trigger] mid.path_of(address),
                    path,
                ) implies trunk.len() < mid.path_of(address).len() && starts_with(
                mid.path_of(address),
                trunk,
            ) && children.contains_key(mid.path_of(address)[trunk.len() as int]) by {
                let there = mid.path_of(address);
                if starts_with(there, below) {
                    assert(there[trunk.len() as int] == below[trunk.len() as int]);
                    assert forall|i: int| 0 <= i < trunk.len() implies there[i] == trunk[i] by {
                        assert(below[i] == trunk[i]);
                    }
                } else {
                    assert(before.is_live(address));
                    assert(!starts_with(before.path_of(address), below));
                    assert(before.path_of(address) == there);
                    assert(there[trunk.len() as int] != key_byte) by {
                        if there[trunk.len() as int] == key_byte {
                            assert(starts_with(there, below));
                        }
                    }
                }
            }
            assert(mid.sound_children_of(pointer, path, children));
        }
        let node = match new_child {
            Some(node) => {
                if node.0 != child.0 {
                    self.write_child(pointer, key_byte, node);
                }
                proof {
                    crate::nodes::pointer::lemma_opaque_ptr_word(node, child);
                    let slot = self.slot_at(pointer.address());
                    assert(slot.children() =~= children);
                    slot.lemma_slot_population();
                    assert(slot.children().dom() =~= old_slot.children().dom());
                    assert forall|address: int| mid.is_live(address) && address != pointer.address()
                        implies self.is_live(address) && self.slot_at(address) == mid.slot_at(
                        address,
                    ) && #[trigger] self.path_of(address) == mid.path_of(address) by {
                        assert(crate::heap::index_of(address) != crate::heap::index_of(
                            pointer.address(),
                        ));
                    }
                    assert forall|address: int| address != pointer.address() implies self.is_live(
                        address,
                    ) == mid.is_live(address) by {
                        if crate::nodes::pointer::is_node_address(address) {
                            assert(crate::heap::index_of(address) != crate::heap::index_of(
                                pointer.address(),
                            ));
                        }
                    }
                    assert(mid.node_replaced(self, pointer, pointer, path, children));
                    mid.lemma_node_replaced(self, pointer, pointer, path, children);
                    self.lemma_sound_node(pointer, path);
                }
                pointer
            },
            None => self.detach(pointer, key_byte, depth, Ghost(path)),
        };
        proof {
            // the change in the child and the change in the node, one after the other
            assert(before.changed_under(&mid, path)) by {
                assert forall|address: int|
                    before.is_live(address) && !starts_with(
                        #[trigger] before.path_of(address),
                        path,
                    ) implies mid.is_live(address) && mid.slot_at(address) == before.slot_at(
                    address,
                ) && mid.path_of(address) == before.path_of(address) by {
                    let there = before.path_of(address);
                    assert(!starts_with(there, below)) by {
                        if starts_with(there, below) {
                            assert forall|i: int| 0 <= i < path.len() implies there[i]
                                == path[i] by {
                                assert(there[i] == below[i]);
                            }
                        }
                    }
                }
                assert forall|address: int|
                    mid.is_live(address) && !before.is_live(address) implies starts_with(
                    #[trigger] mid.path_of(address),
                    path,
                ) by {
                    let there = mid.path_of(address);
                    assert(starts_with(there, below));
                    assert forall|i: int| 0 <= i < path.len() implies there[i] == path[i] by {
                        assert(there[i] == below[i]);
                    }
                }
                assert forall|address: int|
                    before.is_live(address) && mid.is_live(address) && starts_with(
                        before.path_of(address),
                        path,
                    ) implies starts_with(#[trigger] mid.path_of(address), path) by {
                    if starts_with(before.path_of(address), below) {
                        let there = mid.path_of(address);
                        assert(starts_with(there, below));
                        assert forall|i: int| 0 <= i < path.len() implies there[i]
                            == path[i] by {
                            assert(there[i] == below[i]);
                        }
                    }
                }
            }
            lemma_changed_twice(&before, &mid, self, path);
            mid.lemma_view_same(self);
        }
        (Some(node), Some((removed_key, value)))
    }

    /// Delete a key from the tree with the given root, and give back the key
    /// with the value that it had.
    ///
    /// The leaf with the key is released and taken out of its inner node. An
    /// inner node that is left with one child gives its place to that child
    /// and is released; one that is left with fewer children than its class
    /// asks for is put into the next smaller class. A tree that does not
    /// hold the key is left as it is.
    pub fn delete(&mut self, root: Option<OpaqueNodePtr<V>>, key: &[u8]) -> (result: DeleteResult<
        V,
    >)
        requires
            old(self).holds_tree(root),
        ensures
            final(self).holds_tree(result.new_root),
            final(self).view() == old(self).view().remove(key@),
            result.removed is Some <==> old(self).view().contains_key(key@),
            match result.removed {
                Some((removed_key, value)) => {
                    &&& removed_key@ == key@
                    &&& value == old(self).view()[key@]
                    &&& final(self).live() < old(self).live()
                },
                None => *final(self) == *old(self) && result.new_root == root,
            },
    {
        let ghost before = *self;
        proof {
            self.lemma_unique_keys(root);
        }
        let root = match root {
            Some(root) => root,
            None => {
                proof {
                    if before.view().contains_key(key@) {
                        assert(before.is_leaf_with(before.leaf_with(key@), key@));
                    }
                    assert(before.view().remove(key@) =~= before.view());
                }
                return DeleteResult { new_root: None, removed: None };
            },
        };
        proof {
            assert forall|address: int| self.is_live(address) && starts_with(
                #[trigger] self.path_of(address),
                Seq::empty(),
            ) implies self.descend(root, Seq::empty(), self.path_of(address)) == Some(address) by {}
        }
        let (new_root, removed) = self.delete_at(root, key, 0, Ghost(Seq::empty()));
        proof {
            match removed {
                Some(_) => {
                    match new_root {
                        Some(node) => {
                            assert forall|address: int| self.is_live(address) implies self.descend(
                                node,
                                Seq::empty(),
                                #[trigger] self.path_of(address),
                            ) == Some(address) by {
                                assert(starts_with(self.path_of(address), Seq::empty()));
                            }
                        },
                        None => {
                            assert forall|address: int| !self.is_live(address) by {
                                assert(starts_with(self.path_of(address), Seq::empty()));
                            }
                        },
                    }
                },
                None => {
                    assert(before.view().remove(key@) =~= before.view());
                },
            }
        }
        DeleteResult { new_root, removed }
    }
}

/// Two changes under one path, one after the other, are a change under
/// that path.
pub proof fn lemma_changed_twice<V>(
    before: &NodeHeap<V>,
    mid: &NodeHeap<V>,
    after: &NodeHeap<V>,
    path: Seq<u8>,
)
    requires
        before.changed_under(mid, path),
        mid.changed_under(after, path),
    ensures
        before.changed_under(after, path),
{
    assert forall|address: int|
        before.is_live(address) && !starts_with(
            #[trigger] before.path_of(address),
            path,
        ) implies after.is_live(address) && after.slot_at(address) == before.slot_at(address)
        && after.path_of(address) == before.path_of(address) by {
        assert(mid.is_live(address));
        assert(mid.path_of(address) == before.path_of(address));
    }
    assert forall|address: int|
        after.is_live(address) && !before.is_live(address) implies starts_with(
        #[trigger] after.path_of(address),
        path,
    ) by {
        if mid.is_live(address) {
            assert(starts_with(mid.path_of(address), path));
        }
    }
    assert forall|address: int|
        before.is_live(address) && after.is_live(address) && starts_with(
            before.path_of(address),
            path,
        ) implies starts_with(#[trigger] after.path_of(address), path) by {
        if mid.is_live(address) {
            assert(starts_with(mid.path_of(address), path));
        }
    }
}

/// Two changes under one path that keep the leaves, one after the other,
/// are a change under that path that keeps the leaves.
pub proof fn lemma_rearranged_twice<V>(
    before: &NodeHeap<V>,
    mid: &NodeHeap<V>,
    after: &NodeHeap<V>,
    path: Seq<u8>,
)
    requires
        before.changed_under(mid, path),
        mid.changed_under(after, path),
        before.same_leaves_but(mid, None),
        mid.same_leaves_but(after, None),
    ensures
        before.changed_under(after, path),
        before.same_leaves_but(after, None),
{
    assert forall|address: int|
        before.is_live(address) && !starts_with(
            #[trigger] before.path_of(address),
            path,
        ) implies after.is_live(address) && after.slot_at(address) == before.slot_at(address)
        && after.path_of(address) == before.path_of(address) by {
        assert(mid.is_live(address));
        assert(mid.path_of(address) == before.path_of(address));
    }
    assert forall|address: int|
        after.is_live(address) && !before.is_live(address) implies starts_with(
        #[trigger] after.path_of(address),
        path,
    ) by {
        if mid.is_live(address) {
            assert(starts_with(mid.path_of(address), path));
        }
    }
    assert forall|address: int|
        before.is_live(address) && after.is_live(address) && starts_with(
            before.path_of(address),
            path,
        ) implies starts_with(#[trigger] after.path_of(address), path) by {
        if mid.is_live(address) {
            assert(starts_with(mid.path_of(address), path));
        }
    }
    assert forall|address: int, key: Seq<u8>|
        #[trigger] after.is_leaf_with(address, key) <==> before.is_leaf_with(address, key) by {
        assert(mid.is_leaf_with(address, key) <==> before.is_leaf_with(address, key));
    }
    assert forall|address: int, key: Seq<u8>| #[trigger]
        before.is_leaf_with(address, key) implies after.slot_at(address)->Leaf_0.value
        == before.slot_at(address)->Leaf_0.value by {
        assert(mid.is_leaf_with(address, key));
    }
}

} // verus!

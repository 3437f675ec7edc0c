//! What it means for a heap to hold a tree, and which map the tree stands
//! for.

use crate::heap::{NodeHeap, Slot};
use crate::nodes::pointer::OpaqueNodePtr;
use vstd::prelude::*;

verus! {

/// Whether `whole` starts with the bytes of `prefix`.
pub open spec fn starts_with(whole: Seq<u8>, prefix: Seq<u8>) -> bool {
    &&& prefix.len() <= whole.len()
    &&& forall|i: int| 0 <= i < prefix.len() ==> whole[i] == prefix[i]
}

/// Whether one of the two keys starts with the other.
pub open spec fn one_starts_other(left: Seq<u8>, right: Seq<u8>) -> bool {
    starts_with(left, right) || starts_with(right, left)
}

/// Whether the map holds another key that starts with `key`, or that `key`
/// starts with.
pub open spec fn prefix_conflict<V>(map: Map<Seq<u8>, V>, key: Seq<u8>) -> bool {
    exists|other: Seq<u8>| map.contains_key(other) && other != key && one_starts_other(other, key)
}

impl<V> NodeHeap<V> {
    /// Whether a leaf with the given key lives at the address.
    pub open spec fn is_leaf_with(&self, address: int, key: Seq<u8>) -> bool {
        &&& self.is_live(address)
        &&& self.slot_at(address) is Leaf
        &&& self.slot_at(address)->Leaf_0.key@ == key
    }

    /// The address of a leaf with the given key.
    pub open spec fn leaf_with(&self, key: Seq<u8>) -> int {
        choose|address: int| self.is_leaf_with(address, key)
    }

    /// The map that the heap stands for: the keys of the leaves that live in
    /// it, each with the value of its leaf.
    pub open spec fn view(&self) -> Map<Seq<u8>, V> {
        Map::new(
            |key: Seq<u8>| exists|address: int| self.is_leaf_with(address, key),
            |key: Seq<u8>| self.slot_at(self.leaf_with(key))->Leaf_0.value,
        )
    }

    /// No two leaves that live in the heap have the same key.
    pub open spec fn unique_keys(&self) -> bool {
        forall|first: int, second: int, key: Seq<u8>|
            self.is_leaf_with(first, key) && self.is_leaf_with(second, key) ==> first == second
    }

    /// The pointer leads to a subtree that is sound where `path` are the key
    /// bytes that lead to it.
    ///
    /// Every node of the subtree is of the class that its pointer is tagged
    /// with and is recorded at the key bytes that lead to it. The key of a
    /// leaf starts with those bytes. An inner node is coherent and holds at
    /// least as many children as its class asks for, which is never fewer
    /// than two; the child for a key byte is a sound subtree at the path,
    /// the prefix of the inner node, and that key byte.
    pub open spec fn sub_wf(&self, pointer: OpaqueNodePtr<V>, path: Seq<u8>) -> bool
        decreases usize::MAX - path.len(),
    {
        &&& path.len() <= usize::MAX
        &&& self.holds(pointer)
        &&& self.path_of(pointer.address()) == path
        &&& match self.slot_at(pointer.address()) {
            Slot::Vacant => false,
            Slot::Leaf(leaf) => starts_with(leaf.key@, path),
            slot => {
                let trunk = path + slot.prefix();
                &&& slot.node_wf()
                &&& slot.header()@.num_children >= pointer.class()->0.min_children()
                &&& trunk.len() < usize::MAX
                &&& forall|key_byte: u8| #[trigger]
                    slot.children().contains_key(key_byte) ==> self.sub_wf(
                        slot.children()[key_byte],
                        trunk.push(key_byte),
                    )
            },
        }
    }

    /// The address of the node that the key bytes `target` lead to, starting
    /// at a node that the key bytes `path` lead to.
    pub open spec fn descend(
        &self,
        pointer: OpaqueNodePtr<V>,
        path: Seq<u8>,
        target: Seq<u8>,
    ) -> Option<int>
        decreases usize::MAX - path.len(),
    {
        let slot = self.slot_at(pointer.address());
        let trunk = path + slot.prefix();
        if path.len() > usize::MAX {
            None
        } else if path == target {
            Some(pointer.address())
        } else if slot.is_inner() && trunk.len() < usize::MAX && trunk.len() < target.len()
            && starts_with(target, trunk) && slot.children().contains_key(target[trunk.len() as int]) {
            self.descend(
                slot.children()[target[trunk.len() as int]],
                trunk.push(target[trunk.len() as int]),
                target,
            )
        } else {
            None
        }
    }

    /// Every node that lives in the heap and is recorded at key bytes that
    /// start with `path` is found from the pointer by those key bytes.
    pub open spec fn covers(&self, pointer: OpaqueNodePtr<V>, path: Seq<u8>) -> bool {
        forall|address: int|
            self.is_live(address) && starts_with(#[trigger] self.path_of(address), path)
                ==> self.descend(pointer, path, self.path_of(address)) == Some(address)
    }

    /// The heap holds the tree with the given root and nothing else.
    ///
    /// With no root no node lives in the heap. With a root the tree under it
    /// is sound, and every node that lives in the heap is found from the
    /// root by the key bytes it is recorded at.
    pub open spec fn holds_tree(&self, root: Option<OpaqueNodePtr<V>>) -> bool {
        &&& self.wf()
        &&& match root {
            None => forall|address: int| !self.is_live(address),
            Some(root) => {
                &&& self.sub_wf(root, Seq::empty())
                &&& forall|address: int|
                    self.is_live(address) ==> self.descend(
                        root,
                        Seq::empty(),
                        #[trigger] self.path_of(address),
                    ) == Some(address)
            },
        }
    }

    /// What is known of a node that key bytes lead to in a sound subtree: it
    /// lives in the heap, is recorded at those key bytes, which start with
    /// the path of the subtree, and is itself the top of a sound subtree.
    pub proof fn lemma_descend(
        &self,
        pointer: OpaqueNodePtr<V>,
        path: Seq<u8>,
        target: Seq<u8>,
    )
        requires
            self.sub_wf(pointer, path),
            self.descend(pointer, path, target) is Some,
        ensures
            self.is_live(self.descend(pointer, path, target)->0),
            self.path_of(self.descend(pointer, path, target)->0) == target,
            starts_with(target, path),
            exists|found: OpaqueNodePtr<V>|
                found.address() == self.descend(pointer, path, target)->0 && self.sub_wf(
                    found,
                    target,
                ),
        decreases usize::MAX - path.len(),
    {
        if path == target {
            assert(pointer.address() == self.descend(pointer, path, target)->0 && self.sub_wf(
                pointer,
                target,
            ));
        } else {
            let slot = self.slot_at(pointer.address());
            let trunk = path + slot.prefix();
            let key_byte = target[trunk.len() as int];
            assert(slot.children().contains_key(key_byte));
            self.lemma_descend(slot.children()[key_byte], trunk.push(key_byte), target);
            assert forall|i: int| 0 <= i < path.len() implies target[i] == path[i] by {
                assert(trunk.push(key_byte)[i] == path[i]);
            }
        }
    }

    /// Two heaps that agree on every node recorded at key bytes that start
    /// with `path` agree on the subtree at `path`: it is sound in both, and
    /// the same key bytes lead to the same nodes.
    pub proof fn lemma_frame(&self, after: &Self, pointer: OpaqueNodePtr<V>, path: Seq<u8>)
        requires
            self.sub_wf(pointer, path),
            forall|address: int|
                self.is_live(address) && starts_with(#[trigger] self.path_of(address), path) ==> {
                    &&& after.is_live(address)
                    &&& after.slot_at(address) == self.slot_at(address)
                    &&& after.path_of(address) == self.path_of(address)
                },
        ensures
            after.sub_wf(pointer, path),
            forall|target: Seq<u8>| #[trigger]
                after.descend(pointer, path, target) == self.descend(pointer, path, target),
        decreases usize::MAX - path.len(),
    {
        let slot = self.slot_at(pointer.address());
        assert(starts_with(self.path_of(pointer.address()), path));
        assert(after.slot_at(pointer.address()) == slot);
        if slot.is_inner() {
            let trunk = path + slot.prefix();
            assert forall|key_byte: u8| #[trigger]
                slot.children().contains_key(key_byte) implies after.sub_wf(
                slot.children()[key_byte],
                trunk.push(key_byte),
            ) && (forall|target: Seq<u8>| #[trigger]
                after.descend(slot.children()[key_byte], trunk.push(key_byte), target)
                    == self.descend(slot.children()[key_byte], trunk.push(key_byte), target)) by {
                let below = trunk.push(key_byte);
                assert forall|address: int|
                    self.is_live(address) && starts_with(
                        #[trigger] self.path_of(address),
                        below,
                    ) implies after.is_live(address) && after.slot_at(address) == self.slot_at(
                    address,
                ) && after.path_of(address) == self.path_of(address) by {
                    let there = self.path_of(address);
                    assert forall|i: int| 0 <= i < path.len() implies there[i] == path[i] by {
                        assert(below[i] == path[i]);
                    }
                }
                self.lemma_frame(after, slot.children()[key_byte], below);
            }
            assert forall|target: Seq<u8>| #[trigger]
                after.descend(pointer, path, target) == self.descend(pointer, path, target) by {
                if path != target && trunk.len() < target.len() && starts_with(target, trunk)
                    && slot.children().contains_key(target[trunk.len() as int]) {
                    let key_byte = target[trunk.len() as int];
                    assert(after.descend(
                        slot.children()[key_byte],
                        trunk.push(key_byte),
                        target,
                    ) == self.descend(slot.children()[key_byte], trunk.push(key_byte), target));
                }
            }
        }
    }

    /// In a sound subtree, two leaves whose keys start the same way as far as
    /// one key goes are found along the same children: leaves with one key
    /// are one leaf.
    pub proof fn lemma_one_leaf_per_key(
        &self,
        pointer: OpaqueNodePtr<V>,
        path: Seq<u8>,
        first: int,
        second: int,
        key: Seq<u8>,
    )
        requires
            self.sub_wf(pointer, path),
            self.descend(pointer, path, self.path_of(first)) == Some(first),
            self.descend(pointer, path, self.path_of(second)) == Some(second),
            self.is_leaf_with(first, key),
            self.is_leaf_with(second, key),
        ensures
            first == second,
        decreases usize::MAX - path.len(),
    {
        let slot = self.slot_at(pointer.address());
        self.lemma_descend(pointer, path, self.path_of(first));
        self.lemma_descend(pointer, path, self.path_of(second));
        self.lemma_leaf_path(pointer, path, first);
        self.lemma_leaf_path(pointer, path, second);
        if slot.is_inner() {
            let trunk = path + slot.prefix();
            let key_byte = key[trunk.len() as int];
            assert(self.path_of(first) != path);
            assert(self.path_of(second) != path);
            assert(self.path_of(first)[trunk.len() as int] == key_byte);
            assert(self.path_of(second)[trunk.len() as int] == key_byte);
            self.lemma_one_leaf_per_key(
                slot.children()[key_byte],
                trunk.push(key_byte),
                first,
                second,
                key,
            );
        }
    }

    /// The key of a leaf in a sound subtree starts with the key bytes that
    /// the leaf is recorded at.
    pub proof fn lemma_leaf_path(&self, pointer: OpaqueNodePtr<V>, path: Seq<u8>, leaf: int)
        requires
            self.sub_wf(pointer, path),
            self.descend(pointer, path, self.path_of(leaf)) == Some(leaf),
            self.slot_at(leaf) is Leaf,
        ensures
            starts_with(self.slot_at(leaf)->Leaf_0.key@, self.path_of(leaf)),
            starts_with(self.path_of(leaf), path),
    {
        self.lemma_descend(pointer, path, self.path_of(leaf));
        let found = choose|found: OpaqueNodePtr<V>|
            found.address() == leaf && self.sub_wf(found, self.path_of(leaf));
        assert(self.sub_wf(found, self.path_of(leaf)));
    }

    /// Whether `after` has the leaves of this heap, each with its key and its
    /// value, but for the leaves with the key `but`.
    pub open spec fn same_leaves_but(&self, after: &Self, but: Option<Seq<u8>>) -> bool {
        &&& forall|address: int, key: Seq<u8>|
            Some(key) != but ==> (#[trigger] after.is_leaf_with(address, key)
                <==> self.is_leaf_with(address, key))
        &&& forall|address: int, key: Seq<u8>|
            Some(key) != but && #[trigger] self.is_leaf_with(address, key) ==> after.slot_at(
                address,
            )->Leaf_0.value == self.slot_at(address)->Leaf_0.value
    }

    /// Heaps with the same leaves stand for the same map.
    pub proof fn lemma_view_same(&self, after: &Self)
        requires
            self.unique_keys(),
            self.same_leaves_but(after, None),
        ensures
            after.view() == self.view(),
            after.unique_keys(),
    {
        assert forall|key: Seq<u8>| #[trigger]
            after.view().contains_key(key) <==> self.view().contains_key(key) by {
            if after.view().contains_key(key) {
                assert(self.is_leaf_with(after.leaf_with(key), key));
            }
            if self.view().contains_key(key) {
                assert(after.is_leaf_with(self.leaf_with(key), key));
            }
        }
        assert forall|key: Seq<u8>| #[trigger] after.view().contains_key(key) implies after.view()[key]
            == self.view()[key] by {
            assert(self.is_leaf_with(after.leaf_with(key), key));
            assert(self.is_leaf_with(self.leaf_with(key), key));
        }
        assert(after.view() =~= self.view());
        assert forall|first: int, second: int, key: Seq<u8>|
            after.is_leaf_with(first, key) && after.is_leaf_with(second, key) implies first
            == second by {
            assert(self.is_leaf_with(first, key) && self.is_leaf_with(second, key));
        }
    }

    /// A heap that differs in the one leaf with the key `key`, which now
    /// holds `value`, stands for the map with `value` put in at `key`.
    pub proof fn lemma_view_insert(&self, after: &Self, key: Seq<u8>, value: V, leaf: int)
        requires
            self.unique_keys(),
            self.same_leaves_but(after, Some(key)),
            after.is_leaf_with(leaf, key),
            after.slot_at(leaf)->Leaf_0.value == value,
            forall|other: int| after.is_leaf_with(other, key) ==> other == leaf,
        ensures
            after.view() == self.view().insert(key, value),
            after.unique_keys(),
    {
        let expected = self.view().insert(key, value);
        assert forall|other: Seq<u8>| #[trigger]
            after.view().contains_key(other) <==> expected.contains_key(other) by {
            if other != key {
                if after.view().contains_key(other) {
                    assert(self.is_leaf_with(after.leaf_with(other), other));
                }
                if self.view().contains_key(other) {
                    assert(after.is_leaf_with(self.leaf_with(other), other));
                }
            }
        }
        assert forall|other: Seq<u8>| #[trigger]
            after.view().contains_key(other) implies after.view()[other] == expected[other] by {
            if other != key {
                assert(self.is_leaf_with(after.leaf_with(other), other));
                assert(self.is_leaf_with(self.leaf_with(other), other));
            } else {
                assert(after.is_leaf_with(after.leaf_with(key), key));
            }
        }
        assert(after.view() =~= expected);
        assert forall|first: int, second: int, other: Seq<u8>|
            after.is_leaf_with(first, other) && after.is_leaf_with(second, other) implies first
            == second by {
            if other != key {
                assert(self.is_leaf_with(first, other) && self.is_leaf_with(second, other));
            }
        }
    }

    /// A heap that differs in the one leaf with the key `key`, which has
    /// left it, stands for the map with `key` taken out.
    pub proof fn lemma_view_remove(&self, after: &Self, key: Seq<u8>)
        requires
            self.unique_keys(),
            self.same_leaves_but(after, Some(key)),
            forall|other: int| !after.is_leaf_with(other, key),
        ensures
            after.view() == self.view().remove(key),
            after.unique_keys(),
    {
        let expected = self.view().remove(key);
        assert forall|other: Seq<u8>| #[trigger]
            after.view().contains_key(other) <==> expected.contains_key(other) by {
            if other != key {
                if after.view().contains_key(other) {
                    assert(self.is_leaf_with(after.leaf_with(other), other));
                }
                if self.view().contains_key(other) {
                    assert(after.is_leaf_with(self.leaf_with(other), other));
                }
            }
        }
        assert forall|other: Seq<u8>| #[trigger]
            after.view().contains_key(other) implies after.view()[other] == expected[other] by {
            assert(self.is_leaf_with(after.leaf_with(other), other));
            assert(self.is_leaf_with(self.leaf_with(other), other));
        }
        assert(after.view() =~= expected);
        assert forall|first: int, second: int, other: Seq<u8>|
            after.is_leaf_with(first, other) && after.is_leaf_with(second, other) implies first
            == second by {
            if other != key {
                assert(self.is_leaf_with(first, other) && self.is_leaf_with(second, other));
            }
        }
    }

    /// What a change to the subtree at `path` leaves alone: the nodes that
    /// are recorded elsewhere stay as they are, the nodes that come to live
    /// are recorded under `path`, and the nodes under `path` that stay are
    /// still recorded under it.
    pub open spec fn changed_under(&self, after: &Self, path: Seq<u8>) -> bool {
        &&& forall|address: int|
            self.is_live(address) && !starts_with(#[trigger] self.path_of(address), path) ==> {
                &&& after.is_live(address)
                &&& after.slot_at(address) == self.slot_at(address)
                &&& after.path_of(address) == self.path_of(address)
            }
        &&& forall|address: int|
            after.is_live(address) && !self.is_live(address) ==> starts_with(
                #[trigger] after.path_of(address),
                path,
            )
        &&& forall|address: int|
            self.is_live(address) && after.is_live(address) && starts_with(
                self.path_of(address),
                path,
            ) ==> starts_with(#[trigger] after.path_of(address), path)
    }

    /// Every inner node of a sound subtree has a leaf under it, and the key
    /// of every leaf under it starts with the path and the prefix of the
    /// inner node.
    pub proof fn lemma_leaf_under(&self, pointer: OpaqueNodePtr<V>, path: Seq<u8>) -> (leaf: int)
        requires
            self.sub_wf(pointer, path),
        ensures
            self.is_live(leaf),
            self.slot_at(leaf) is Leaf,
            self.descend(pointer, path, self.path_of(leaf)) == Some(leaf),
            starts_with(self.slot_at(leaf)->Leaf_0.key@, self.path_of(leaf)),
            starts_with(self.path_of(leaf), path),
            self.slot_at(pointer.address()).is_inner() ==> starts_with(
                self.path_of(leaf),
                path + self.slot_at(pointer.address()).prefix(),
            ) && self.path_of(leaf).len() > (path + self.slot_at(
                pointer.address(),
            ).prefix()).len(),
        decreases usize::MAX - path.len(),
    {
        let slot = self.slot_at(pointer.address());
        if slot.is_inner() {
            let trunk = path + slot.prefix();
            let children = slot.children();
            slot.lemma_slot_population();
            assert(children.dom().len() >= 2);
            assert(children.dom().len() != 0);
            let key_byte = children.dom().choose();
            assert(children.contains_key(key_byte)) by {
                if children.dom() =~= Set::empty() {
                    assert(children.dom().len() == 0);
                }
            }
            let below = trunk.push(key_byte);
            let leaf = self.lemma_leaf_under(children[key_byte], below);
            let there = self.path_of(leaf);
            assert forall|i: int| 0 <= i < trunk.len() implies there[i] == trunk[i] by {
                assert(below[i] == trunk[i]);
            }
            assert forall|i: int| 0 <= i < path.len() implies there[i] == path[i] by {
                assert(trunk[i] == path[i]);
            }
            assert(there[trunk.len() as int] == below[trunk.len() as int]);
            leaf
        } else {
            pointer.address()
        }
    }

    /// In the subtree of an inner node, a leaf lies under the child for the
    /// byte of its key that follows the path and the prefix of the node.
    pub proof fn lemma_leaf_side(&self, pointer: OpaqueNodePtr<V>, path: Seq<u8>, leaf: int)
        requires
            self.sub_wf(pointer, path),
            self.covers(pointer, path),
            self.slot_at(pointer.address()).is_inner(),
            self.is_live(leaf),
            self.slot_at(leaf) is Leaf,
            starts_with(self.path_of(leaf), path),
        ensures
            ({
                let slot = self.slot_at(pointer.address());
                let trunk = path + slot.prefix();
                let key = self.slot_at(leaf)->Leaf_0.key@;
                &&& trunk.len() < key.len()
                &&& starts_with(key, trunk)
                &&& slot.children().contains_key(key[trunk.len() as int])
                &&& starts_with(self.path_of(leaf), trunk.push(key[trunk.len() as int]))
                &&& self.descend(
                    slot.children()[key[trunk.len() as int]],
                    trunk.push(key[trunk.len() as int]),
                    self.path_of(leaf),
                ) == Some(leaf)
            }),
    {
        let slot = self.slot_at(pointer.address());
        let trunk = path + slot.prefix();
        let key = self.slot_at(leaf)->Leaf_0.key@;
        let there = self.path_of(leaf);
        assert(self.descend(pointer, path, there) == Some(leaf));
        self.lemma_leaf_path(pointer, path, leaf);
        assert(there != path);
        let key_byte = there[trunk.len() as int];
        assert(key[trunk.len() as int] == key_byte);
        let below = trunk.push(key_byte);
        self.lemma_descend(slot.children()[key_byte], below, there);
        assert forall|i: int| 0 <= i < trunk.len() implies key[i] == trunk[i] by {
            assert(there[i] == trunk[i]);
        }
    }

    /// In the subtree of an inner node, a node other than the inner node
    /// lies under the child for the byte of its path that follows the path
    /// and the prefix of the inner node.
    pub proof fn lemma_node_side(&self, pointer: OpaqueNodePtr<V>, path: Seq<u8>, address: int)
        requires
            self.sub_wf(pointer, path),
            self.covers(pointer, path),
            self.slot_at(pointer.address()).is_inner(),
            self.is_live(address),
            address != pointer.address(),
            starts_with(self.path_of(address), path),
        ensures
            ({
                let slot = self.slot_at(pointer.address());
                let trunk = path + slot.prefix();
                let there = self.path_of(address);
                &&& trunk.len() < there.len()
                &&& starts_with(there, trunk)
                &&& slot.children().contains_key(there[trunk.len() as int])
                &&& starts_with(there, trunk.push(there[trunk.len() as int]))
                &&& self.descend(
                    slot.children()[there[trunk.len() as int]],
                    trunk.push(there[trunk.len() as int]),
                    there,
                ) == Some(address)
            }),
    {
        let slot = self.slot_at(pointer.address());
        let trunk = path + slot.prefix();
        let there = self.path_of(address);
        assert(self.descend(pointer, path, there) == Some(address));
        assert(there != path);
        let key_byte = there[trunk.len() as int];
        let below = trunk.push(key_byte);
        self.lemma_descend(slot.children()[key_byte], below, there);
    }

    /// The subtree under a child of an inner node holds every node that is
    /// recorded under the path of the child.
    pub proof fn lemma_child_covers(&self, pointer: OpaqueNodePtr<V>, path: Seq<u8>, key_byte: u8)
        requires
            self.sub_wf(pointer, path),
            self.covers(pointer, path),
            self.slot_at(pointer.address()).is_inner(),
            self.slot_at(pointer.address()).children().contains_key(key_byte),
        ensures
            self.sub_wf(
                self.slot_at(pointer.address()).children()[key_byte],
                (path + self.slot_at(pointer.address()).prefix()).push(key_byte),
            ),
            self.covers(
                self.slot_at(pointer.address()).children()[key_byte],
                (path + self.slot_at(pointer.address()).prefix()).push(key_byte),
            ),
    {
        let slot = self.slot_at(pointer.address());
        let trunk = path + slot.prefix();
        let below = trunk.push(key_byte);
        let child = slot.children()[key_byte];
        assert forall|address: int|
            self.is_live(address) && starts_with(
                #[trigger] self.path_of(address),
                below,
            ) implies self.descend(child, below, self.path_of(address)) == Some(address) by {
            let there = self.path_of(address);
            assert(starts_with(there, path)) by {
                assert forall|i: int| 0 <= i < path.len() implies there[i] == path[i] by {
                    assert(below[i] == path[i]);
                }
            }
            assert(address != pointer.address());
            self.lemma_node_side(pointer, path, address);
            assert(there[trunk.len() as int] == below[trunk.len() as int]);
        }
    }

    /// A heap that holds a tree holds no two leaves with the same key.
    pub proof fn lemma_unique_keys(&self, root: Option<OpaqueNodePtr<V>>)
        requires
            self.holds_tree(root),
        ensures
            self.unique_keys(),
    {
        assert forall|first: int, second: int, key: Seq<u8>|
            self.is_leaf_with(first, key) && self.is_leaf_with(second, key) implies first
            == second by {
            self.lemma_one_leaf_per_key(root->0, Seq::empty(), first, second, key);
        }
    }
}

} // verus!

//! Reading the whole prefix of an inner node, stored or not.
//!
//! The bytes of a prefix that its header has no room for are the same in
//! the key of every leaf under the node, and are read from the leaf that is
//! found by taking the first child at every step.

use crate::heap::{lemma_node_types, NodeHeap, Slot};
use crate::nodes::header::is_common_prefix_len;
use crate::nodes::inner::is_first_key;
use crate::nodes::node_type::NodeType;
use crate::nodes::pointer::OpaqueNodePtr;
use crate::tree::model::starts_with;
use vstd::prelude::*;

verus! {

impl<V> NodeHeap<V> {
    /// The leaf with the smallest key in the subtree that the pointer leads
    /// to.
    pub(crate) fn minimum_leaf(&self, pointer: OpaqueNodePtr<V>, Ghost(path): Ghost<Seq<u8>>) -> (leaf:
        OpaqueNodePtr<V>)
        requires
            self.wf(),
            self.sub_wf(pointer, path),
        ensures
            self.holds(leaf),
            leaf.class() == Some(NodeType::Leaf),
            self.slot_at(leaf.address()) is Leaf,
            starts_with(self.slot_at(leaf.address())->Leaf_0.key@, path),
            self.descend(pointer, path, self.path_of(leaf.address())) == Some(leaf.address()),
            self.slot_at(pointer.address()).is_inner() ==> {
                let trunk = path + self.slot_at(pointer.address()).prefix();
                &&& starts_with(self.slot_at(leaf.address())->Leaf_0.key@, trunk)
                &&& self.slot_at(leaf.address())->Leaf_0.key@.len() > trunk.len()
            },
    {
        let mut current = pointer;
        let ghost mut here = path;
        let ghost top = path + self.slot_at(pointer.address()).prefix();
        loop
            invariant
                self.wf(),
                self.sub_wf(pointer, path),
                self.sub_wf(current, here),
                starts_with(here, path),
                top == path + self.slot_at(pointer.address()).prefix(),
                current != pointer ==> starts_with(here, top) && here.len() > top.len(),
                current == pointer ==> here == path,
                forall|target: Seq<u8>| #[trigger]
                    self.descend(current, here, target) is Some ==> self.descend(
                        pointer,
                        path,
                        target,
                    ) == self.descend(current, here, target),
            decreases usize::MAX - here.len(),
        {
            match current.node_type() {
                NodeType::Leaf => {
                    proof {
                        let key = self.slot_at(current.address())->Leaf_0.key@;
                        assert forall|i: int| 0 <= i < path.len() implies key[i] == path[i] by {
                            assert(here[i] == path[i]);
                        }
                        if current != pointer {
                            assert forall|i: int| 0 <= i < top.len() implies key[i] == top[i] by {
                                assert(here[i] == top[i]);
                            }
                        }
                        assert(self.descend(current, here, here) == Some(current.address()));
                    }
                    return current;
                },
                _ => {
                    let ghost slot = self.slot_at(current.address());
                    let ghost trunk = here + slot.prefix();
                    proof {
                        slot.lemma_slot_population();
                        assert(slot.children().dom().len() != 0);
                    }
                    match self.first_child(current) {
                        Some(child) => {
                            proof {
                                let key_byte = choose|key: u8|
                                    is_first_key(slot.children(), key) && slot.children()[key]
                                        == child;
                                let below = trunk.push(key_byte);
                                assert(self.sub_wf(child, below));
                                assert forall|i: int| 0 <= i < path.len() implies below[i]
                                    == path[i] by {
                                    assert(here[i] == path[i]);
                                }
                                if current != pointer {
                                    assert forall|i: int| 0 <= i < top.len() implies below[i]
                                        == top[i] by {
                                        assert(here[i] == top[i]);
                                    }
                                }
                                assert(child != pointer) by {
                                    if child == pointer {
                                        assert(self.path_of(pointer.address()) == below);
                                    }
                                }
                                assert forall|target: Seq<u8>| #[trigger]
                                    self.descend(child, below, target) is Some implies self.descend(
                                    pointer,
                                    path,
                                    target,
                                ) == self.descend(child, below, target) by {
                                    self.lemma_descend(child, below, target);
                                    assert(target[trunk.len() as int] == below[trunk.len() as int]);
                                    assert(starts_with(target, trunk)) by {
                                        assert forall|i: int|
                                            0 <= i < trunk.len() implies target[i] == trunk[i] by {
                                            assert(below[i] == trunk[i]);
                                        }
                                    }
                                    assert(self.descend(current, here, target) == self.descend(
                                        child,
                                        below,
                                        target,
                                    ));
                                }
                                here = below;
                            }
                            current = child;
                        },
                        None => {
                            proof {
                                // a node with two children or more has a first child
                                assert(slot.children().dom() =~= Set::empty());
                            }
                            return vstd::pervasive::unreached();
                        },
                    }
                },
            }
        }
    }

    /// The leaf with the smallest key in the sound subtree that the pointer
    /// leads to, where the heap holds a tree.
    pub fn minimum_leaf_of(&self, pointer: OpaqueNodePtr<V>) -> (leaf: OpaqueNodePtr<V>)
        requires
            self.wf(),
            self.sub_wf(pointer, self.path_of(pointer.address())),
        ensures
            self.holds(leaf),
            leaf.class() == Some(NodeType::Leaf),
            self.slot_at(leaf.address()) is Leaf,
            self.descend(
                pointer,
                self.path_of(pointer.address()),
                self.path_of(leaf.address()),
            ) == Some(leaf.address()),
    {
        self.minimum_leaf(pointer, Ghost(self.path_of(pointer.address())))
    }

    /// The number of leading bytes on which the whole prefix of the inner
    /// node that the pointer leads to agrees with the key from `depth` on.
    pub(crate) fn match_whole_prefix(
        &self,
        pointer: OpaqueNodePtr<V>,
        key: &[u8],
        depth: usize,
        Ghost(path): Ghost<Seq<u8>>,
    ) -> (matched: usize)
        requires
            self.wf(),
            self.sub_wf(pointer, path),
            self.slot_at(pointer.address()).is_inner(),
            path.len() == depth,
            depth <= key@.len(),
        ensures
            is_common_prefix_len(
                self.slot_at(pointer.address()).prefix(),
                key@.skip(depth as int),
                matched as int,
            ),
    {
        proof {
            self.slot_at(pointer.address()).lemma_slot_population();
        }
        let header = self.header_at(pointer);
        let rest = vstd::slice::slice_subrange(key, depth, key.len());
        assert(rest@ =~= key@.skip(depth as int));
        let stored_len = header.read_prefix().len();
        let prefix_size = header.prefix_size();
        let matched = header.match_prefix(rest);
        let ghost prefix = header@.prefix;
        let ghost stored = header@.stored;
        proof {
            assert forall|i: int| 0 <= i < stored.len() implies stored[i] == prefix[i] by {
                assert(stored =~= prefix.subrange(0, stored.len() as int));
            }
        }
        if matched < stored_len || stored_len == prefix_size {
            proof {
                if matched < prefix.len() && matched < rest@.len() {
                    assert(stored[matched as int] == prefix[matched as int]);
                }
            }
            return matched;
        }
        let leaf = self.leaf_at(self.minimum_leaf(pointer, Ghost(path)));
        let leaf_key = leaf.key_bytes();
        let leaf_key_len = leaf_key.len();
        let ghost trunk = path + prefix;
        let mut matched = matched;
        while matched < prefix_size && depth + matched < key.len() && key[depth + matched]
            == leaf_key[depth + matched]
            invariant
                stored_len <= matched <= prefix_size,
                prefix_size == prefix.len(),
                depth + prefix_size < leaf_key@.len(),
                leaf_key@.len() == leaf_key_len,
                depth + matched <= key@.len(),
                depth == path.len(),
                depth <= key@.len(),
                trunk == path + prefix,
                starts_with(leaf_key@, trunk),
                rest@ == key@.skip(depth as int),
                forall|i: int| 0 <= i < matched ==> prefix[i] == rest@[i],
            decreases prefix_size - matched,
        {
            proof {
                assert(leaf_key@[depth + matched] == trunk[depth + matched]);
                assert(trunk[depth + matched] == prefix[matched as int]);
                assert(rest@[matched as int] == key@[depth + matched]);
            }
            matched += 1;
        }
        proof {
            if matched < prefix.len() && matched < rest@.len() {
                assert(leaf_key@[depth + matched] == trunk[depth + matched]);
                assert(trunk[depth + matched] == prefix[matched as int]);
                assert(rest@[matched as int] == key@[depth + matched]);
            }
        }
        matched
    }

    /// One byte of the whole prefix of the inner node that the pointer leads
    /// to.
    pub(crate) fn prefix_byte(
        &self,
        pointer: OpaqueNodePtr<V>,
        index: usize,
        depth: usize,
        Ghost(path): Ghost<Seq<u8>>,
    ) -> (byte: u8)
        requires
            self.wf(),
            self.sub_wf(pointer, path),
            self.slot_at(pointer.address()).is_inner(),
            path.len() == depth,
            index < self.slot_at(pointer.address()).prefix().len(),
        ensures
            byte == self.slot_at(pointer.address()).prefix()[index as int],
    {
        let header = self.header_at(pointer);
        let stored = header.read_prefix();
        let ghost prefix = header@.prefix;
        if index < stored.len() {
            assert(header@.stored =~= prefix.subrange(0, stored@.len() as int));
            stored[index]
        } else {
            let leaf = self.leaf_at(self.minimum_leaf(pointer, Ghost(path)));
            let leaf_key = leaf.key_bytes();
            let ghost trunk = path + prefix;
            assert(leaf_key@[depth + index] == trunk[depth + index]);
            leaf_key[depth + index]
        }
    }

    /// The bytes of the whole prefix of the inner node that the pointer leads
    /// to, from the given index on.
    pub(crate) fn prefix_tail(
        &self,
        pointer: OpaqueNodePtr<V>,
        from: usize,
        depth: usize,
        Ghost(path): Ghost<Seq<u8>>,
    ) -> (tail: Vec<u8>)
        requires
            self.wf(),
            self.sub_wf(pointer, path),
            self.slot_at(pointer.address()).is_inner(),
            path.len() == depth,
            from <= self.slot_at(pointer.address()).prefix().len(),
        ensures
            tail@ == self.slot_at(pointer.address()).prefix().skip(from as int),
    {
        let header = self.header_at(pointer);
        let prefix_size = header.prefix_size();
        let ghost prefix = header@.prefix;
        let leaf = self.leaf_at(self.minimum_leaf(pointer, Ghost(path)));
        let leaf_key = leaf.key_bytes();
        let ghost trunk = path + prefix;
        let bytes = vstd::slice::slice_subrange(leaf_key, depth + from, depth + prefix_size);
        let tail = vstd::slice::slice_to_vec(bytes);
        proof {
            assert forall|i: int| 0 <= i < tail@.len() implies tail@[i] == prefix.skip(
                from as int,
            )[i] by {
                assert(leaf_key@[depth + from + i] == trunk[depth + from + i]);
            }
            assert(tail@ =~= prefix.skip(from as int));
        }
        tail
    }
}

} // verus!

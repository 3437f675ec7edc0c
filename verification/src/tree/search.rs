//! Search: from the root to the leaf that holds a key.

use crate::heap::{lemma_node_types, NodeHeap, Slot};
use crate::nodes::leaf::LeafNode;
use crate::nodes::node_type::NodeType;
use crate::nodes::pointer::{NodePtr, OpaqueNodePtr};
use crate::tree::model::starts_with;
use vstd::prelude::*;

verus! {

impl<V> NodeHeap<V> {
    /// Search in the tree with the given root for the leaf that holds the
    /// given key.
    ///
    /// At an inner node the stored bytes of the prefix are compared with the
    /// key, the bytes of the prefix that are not stored are passed over, and
    /// the next byte of the key picks the child. The leaf that is reached is
    /// the answer if its key is the whole key.
    pub fn search(&self, root: Option<OpaqueNodePtr<V>>, key: &[u8]) -> (found: Option<
        NodePtr<LeafNode<V>>,
    >)
        requires
            self.holds_tree(root),
        ensures
            found is Some <==> self.view().contains_key(key@),
            found is Some ==> {
                &&& found->0.wf()
                &&& self.is_leaf_with(found->0.address(), key@)
                &&& self.slot_at(found->0.address())->Leaf_0.value == self.view()[key@]
            },
    {
        let mut current = match root {
            Some(root) => root,
            None => {
                return None;
            },
        };
        let mut depth: usize = 0;
        let ghost mut path: Seq<u8> = Seq::empty();
        proof {
            self.lemma_unique_keys(root);
        }
        loop
            invariant
                self.wf(),
                self.unique_keys(),
                self.sub_wf(current, path),
                path.len() == depth,
                depth <= key@.len(),
                forall|address: int|
                    self.is_leaf_with(address, key@) ==> self.descend(
                        current,
                        path,
                        #[trigger] self.path_of(address),
                    ) == Some(address),
            decreases key@.len() - depth,
        {
            match current.node_type() {
                NodeType::Leaf => {
                    let leaf = self.leaf_at(current);
                    if leaf.matches_key(key) {
                        proof {
                            lemma_node_types::<V>();
                            assert(self.is_leaf_with(current.address(), key@));
                            assert(self.is_leaf_with(self.leaf_with(key@), key@));
                        }
                        return current.cast::<LeafNode<V>>();
                    } else {
                        proof {
                            if exists|address: int| self.is_leaf_with(address, key@) {
                                let address = choose|address: int|
                                    self.is_leaf_with(address, key@);
                                assert(self.descend(current, path, self.path_of(address)) == Some(
                                    address,
                                ));
                            }
                        }
                        return None;
                    }
                },
                _ => {
                    let header = self.header_at(current);
                    let rest = vstd::slice::slice_subrange(key, depth, key.len());
                    let matched = header.match_prefix(rest);
                    let ghost slot = self.slot_at(current.address());
                    let ghost trunk = path + slot.prefix();
                    proof {
                        assert forall|address: int|
                            self.is_leaf_with(address, key@) implies starts_with(key@, trunk)
                            && trunk.len() < key@.len() && slot.children().contains_key(
                            key@[trunk.len() as int],
                        ) && self.descend(
                            slot.children()[key@[trunk.len() as int]],
                            trunk.push(key@[trunk.len() as int]),
                            self.path_of(address),
                        ) == Some(address) by {
                            let there = self.path_of(address);
                            self.lemma_leaf_path(current, path, address);
                            assert(there != path);
                            assert(key@[trunk.len() as int] == there[trunk.len() as int]);
                        }
                    }
                    if matched < header.read_prefix().len() {
                        proof {
                            if exists|address: int| self.is_leaf_with(address, key@) {
                                let address = choose|address: int|
                                    self.is_leaf_with(address, key@);
                                assert(starts_with(key@, trunk));
                                let stored = header@.stored;
                                assert forall|i: int| 0 <= i < stored.len() implies stored[i]
                                    == rest@[i] by {
                                    assert(stored[i] == header@.prefix[i]);
                                    assert(trunk[depth + i] == header@.prefix[i]);
                                }
                            }
                        }
                        return None;
                    }
                    let prefix_size = header.prefix_size();
                    if key.len() - depth <= prefix_size {
                        return None;
                    }
                    let key_byte = key[depth + prefix_size];
                    match self.lookup_child(current, key_byte) {
                        Some(child) => {
                            proof {
                                path = trunk.push(key_byte);
                            }
                            depth = depth + prefix_size + 1;
                            current = child;
                        },
                        None => {
                            return None;
                        },
                    }
                },
            }
        }
    }
}

} // verus!

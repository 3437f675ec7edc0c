//! Tree destruction: every node of a tree is released, children before
//! their parents.

use crate::heap::{lemma_node_types, NodeHeap};
use crate::nodes::inner::lists_children;
use crate::nodes::node_type::NodeType;
use crate::nodes::pointer::OpaqueNodePtr;
use crate::tree::model::starts_with;
use vstd::prelude::*;

verus! {

impl<V> NodeHeap<V> {
    /// Whether `after` is this heap without the nodes recorded under `path`
    /// whose paths go on behind `lead` with a byte smaller than `upto`.
    pub open spec fn released_behind(
        &self,
        after: &Self,
        lead: Seq<u8>,
        upto: nat,
    ) -> bool {
        &&& after.wf()
        &&& after.paths == self.paths
        &&& forall|address: int|
            #[trigger] after.is_live(address) <==> self.is_live(address) && !(starts_with(
                self.path_of(address),
                lead,
            ) && lead.len() < self.path_of(address).len() && self.path_of(address)[lead.len() as int]
                < upto)
        &&& forall|address: int|
            after.is_live(address) ==> #[trigger] after.slot_at(address) == self.slot_at(address)
    }

    /// Whether `after` is this heap without the nodes recorded under `path`.
    pub open spec fn released_under(&self, after: &Self, path: Seq<u8>) -> bool {
        &&& after.wf()
        &&& after.paths == self.paths
        &&& forall|address: int|
            #[trigger] after.is_live(address) <==> self.is_live(address) && !starts_with(
                self.path_of(address),
                path,
            )
        &&& forall|address: int|
            after.is_live(address) ==> #[trigger] after.slot_at(address) == self.slot_at(address)
    }

    /// A child with a key byte not yet passed is as it was before the
    /// children with smaller key bytes were released.
    pub proof fn lemma_child_intact(
        &self,
        mid: &Self,
        pointer: OpaqueNodePtr<V>,
        path: Seq<u8>,
        key_byte: u8,
        passed: nat,
    )
        requires
            self.sub_wf(pointer, path),
            self.covers(pointer, path),
            self.slot_at(pointer.address()).is_inner(),
            self.released_behind(mid, path + self.slot_at(pointer.address()).prefix(), passed),
            passed <= key_byte,
            self.slot_at(pointer.address()).children().contains_key(key_byte),
        ensures
            mid.sub_wf(
                self.slot_at(pointer.address()).children()[key_byte],
                (path + self.slot_at(pointer.address()).prefix()).push(key_byte),
            ),
            mid.covers(
                self.slot_at(pointer.address()).children()[key_byte],
                (path + self.slot_at(pointer.address()).prefix()).push(key_byte),
            ),
    {
        let slot = self.slot_at(pointer.address());
        let trunk = path + slot.prefix();
        let below = trunk.push(key_byte);
        let child = slot.children()[key_byte];
        self.lemma_child_covers(pointer, path, key_byte);
        assert forall|address: int|
            self.is_live(address) && starts_with(
                #[trigger] self.path_of(address),
                below,
            ) implies mid.is_live(address) && mid.slot_at(address) == self.slot_at(address)
            && mid.path_of(address) == self.path_of(address) by {
            let there = self.path_of(address);
            assert(there[trunk.len() as int] == below[trunk.len() as int]);
        }
        self.lemma_frame(mid, child, below);
        assert forall|address: int|
            mid.is_live(address) && starts_with(
                #[trigger] mid.path_of(address),
                below,
            ) implies mid.descend(child, below, mid.path_of(address)) == Some(address) by {
            assert(self.is_live(address));
            assert(self.descend(child, below, self.path_of(address)) == Some(address));
        }
    }

    /// Once the child for a key byte is released, every node under the
    /// children with key bytes up to that one is released, where the inner
    /// node has no child between the key bytes passed before and that one.
    pub proof fn lemma_released_step(
        &self,
        mid: &Self,
        after: &Self,
        pointer: OpaqueNodePtr<V>,
        path: Seq<u8>,
        key_byte: u8,
        passed: nat,
    )
        requires
            self.sub_wf(pointer, path),
            self.covers(pointer, path),
            self.slot_at(pointer.address()).is_inner(),
            self.released_behind(mid, path + self.slot_at(pointer.address()).prefix(), passed),
            passed <= key_byte,
            forall|other: u8|
                passed <= other < key_byte ==> !self.slot_at(
                    pointer.address(),
                ).children().contains_key(other),
            mid.released_under(
                after,
                (path + self.slot_at(pointer.address()).prefix()).push(key_byte),
            ),
        ensures
            self.released_behind(
                after,
                path + self.slot_at(pointer.address()).prefix(),
                (key_byte + 1) as nat,
            ),
    {
        let slot = self.slot_at(pointer.address());
        let trunk = path + slot.prefix();
        let below = trunk.push(key_byte);
        assert forall|address: int|
            #[trigger] after.is_live(address) <==> self.is_live(address) && !(starts_with(
                self.path_of(address),
                trunk,
            ) && trunk.len() < self.path_of(address).len() && self.path_of(
                address,
            )[trunk.len() as int] < key_byte + 1) by {
            let there = self.path_of(address);
            assert(mid.path_of(address) == there);
            if self.is_live(address) && starts_with(there, trunk) && trunk.len() < there.len() {
                let byte = there[trunk.len() as int];
                if byte == key_byte {
                    assert(starts_with(there, below));
                } else {
                    assert(!starts_with(there, below)) by {
                        if starts_with(there, below) {
                            assert(there[trunk.len() as int] == below[trunk.len() as int]);
                        }
                    }
                    if passed <= byte < key_byte {
                        assert(address != pointer.address());
                        assert(starts_with(there, path)) by {
                            assert forall|i: int| 0 <= i < path.len() implies there[i]
                                == path[i] by {
                                assert(trunk[i] == path[i]);
                            }
                        }
                        self.lemma_node_side(pointer, path, address);
                    }
                }
            } else if starts_with(there, below) {
                assert forall|i: int| 0 <= i < trunk.len() implies there[i] == trunk[i] by {
                    assert(below[i] == trunk[i]);
                }
            }
        }
        assert forall|address: int| after.is_live(address) implies #[trigger] after.slot_at(
            address,
        ) == self.slot_at(address) by {
            assert(mid.path_of(address) == self.path_of(address));
            assert(mid.is_live(address));
            assert(after.slot_at(address) == mid.slot_at(address));
            assert(mid.slot_at(address) == self.slot_at(address));
        }
    }

    /// Once every child of an inner node is released, the inner node is
    /// the one node under its path that is left.
    pub proof fn lemma_released_all(
        &self,
        emptied: &Self,
        pointer: OpaqueNodePtr<V>,
        path: Seq<u8>,
        passed: nat,
    )
        requires
            self.sub_wf(pointer, path),
            self.covers(pointer, path),
            self.slot_at(pointer.address()).is_inner(),
            self.released_behind(emptied, path + self.slot_at(pointer.address()).prefix(), passed),
            forall|other: u8|
                passed <= other ==> !self.slot_at(pointer.address()).children().contains_key(other),
        ensures
            emptied.is_live(pointer.address()),
            forall|address: int|
                address != pointer.address() ==> (#[trigger] emptied.is_live(address)
                    <==> self.is_live(address) && !starts_with(self.path_of(address), path)),
    {
        let slot = self.slot_at(pointer.address());
        let trunk = path + slot.prefix();
        assert(self.path_of(pointer.address()) == path);
        assert forall|address: int| address != pointer.address() implies (#[trigger] emptied.is_live(
            address,
        ) <==> self.is_live(address) && !starts_with(self.path_of(address), path)) by {
            let there = self.path_of(address);
            let behind = starts_with(there, trunk) && trunk.len() < there.len()
                && there[trunk.len() as int] < passed;
            assert(emptied.is_live(address) <==> self.is_live(address) && !behind);
            if self.is_live(address) {
                if starts_with(there, path) {
                    self.lemma_node_side(pointer, path, address);
                    let byte = there[trunk.len() as int];
                    assert(slot.children().contains_key(byte));
                    assert(byte < passed);
                    assert(behind);
                } else {
                    assert(!starts_with(there, trunk)) by {
                        if starts_with(there, trunk) {
                            assert forall|i: int| 0 <= i < path.len() implies there[i]
                                == path[i] by {
                                assert(trunk[i] == path[i]);
                            }
                        }
                    }
                    assert(!behind);
                }
            } else {
                assert(!emptied.is_live(address));
            }
        }
    }

    /// Release every node of the subtree that the pointer leads to.
    fn deallocate_at(&mut self, pointer: OpaqueNodePtr<V>, Ghost(path): Ghost<Seq<u8>>)
        requires
            old(self).wf(),
            old(self).sub_wf(pointer, path),
            old(self).covers(pointer, path),
        ensures
            old(self).released_under(final(self), path),
        decreases usize::MAX - path.len(),
    {
        let ghost before = *self;
        proof {
            lemma_node_types::<V>();
        }
        match pointer.node_type() {
            NodeType::Leaf => {
                let _ = self.release(pointer.0 - pointer.0 % 8);
                proof {
                    assert forall|address: int|
                        #[trigger] self.is_live(address) <==> before.is_live(address)
                            && !starts_with(before.path_of(address), path) by {
                        if before.is_live(address) && starts_with(before.path_of(address), path) {
                            assert(before.descend(pointer, path, before.path_of(address)) == Some(
                                address,
                            ));
                        }
                    }
                }
                return ;
            },
            _ => {},
        }
        let ghost slot = self.slot_at(pointer.address());
        let ghost trunk = path + slot.prefix();
        let pairs = self.child_entries(pointer);
        let mut at: usize = 0;
        let ghost mut passed: nat = 0;
        while at < pairs.len()
            invariant
                before.wf(),
                before.sub_wf(pointer, path),
                before.covers(pointer, path),
                slot == before.slot_at(pointer.address()),
                slot.is_inner(),
                trunk == path + slot.prefix(),
                lists_children(pairs@, slot.children()),
                at <= pairs@.len(),
                passed <= 256,
                at > 0 ==> passed == pairs@[at - 1].0 + 1,
                at == 0 ==> passed == 0,
                before.released_behind(self, trunk, passed),
            decreases pairs@.len() - at,
        {
            let (key_byte, child) = pairs[at];
            let ghost mid = *self;
            proof {
                assert(slot.children().contains_key(pairs@[at as int].0));
                if at > 0 {
                    assert(pairs@[at - 1].0 < pairs@[at as int].0);
                }
                before.lemma_child_intact(&mid, pointer, path, key_byte, passed);
            }
            self.deallocate_at(child, Ghost(trunk.push(key_byte)));
            proof {
                assert forall|other: u8| passed <= other < key_byte implies !slot.children().contains_key(
                    other,
                ) by {
                    if slot.children().contains_key(other) {
                        let i = choose|i: int|
                            0 <= i < pairs@.len() && #[trigger] pairs@[i].0 == other;
                        if i < at {
                            if i < at - 1 {
                                assert(pairs@[i].0 < pairs@[at - 1].0);
                            }
                        } else if i > at {
                            assert(pairs@[at as int].0 < pairs@[i].0);
                        }
                    }
                }
                before.lemma_released_step(&mid, self, pointer, path, key_byte, passed);
                passed = (key_byte + 1) as nat;
            }
            at += 1;
        }
        let ghost emptied = *self;
        proof {
            assert forall|other: u8| passed <= other implies !slot.children().contains_key(
                other,
            ) by {
                if slot.children().contains_key(other) {
                    let i = choose|i: int| 0 <= i < pairs@.len() && #[trigger] pairs@[i].0
                        == other;
                    if i < at - 1 {
                        assert(pairs@[i].0 < pairs@[at - 1].0);
                    }
                }
            }
            before.lemma_released_all(&emptied, pointer, path, passed);
        }
        let _ = self.release(pointer.0 - pointer.0 % 8);
        proof {
            assert forall|address: int|
                #[trigger] self.is_live(address) <==> before.is_live(address) && !starts_with(
                    before.path_of(address),
                    path,
                ) by {
                if address != pointer.address() {
                    assert(self.is_live(address) == emptied.is_live(address));
                    assert(emptied.is_live(address) <==> before.is_live(address) && !starts_with(
                        before.path_of(address),
                        path,
                    ));
                } else {
                    assert(before.path_of(address) == path);
                }
            }
            assert forall|address: int| self.is_live(address) implies #[trigger] self.slot_at(
                address,
            ) == before.slot_at(address) by {
                assert(emptied.is_live(address));
                assert(self.slot_at(address) == emptied.slot_at(address));
                assert(emptied.slot_at(address) == before.slot_at(address));
            }
        }
    }

    /// Release every node of the tree with the given root, children before
    /// their parents. No node lives in the heap afterwards.
    pub fn deallocate_tree(&mut self, root: Option<OpaqueNodePtr<V>>)
        requires
            old(self).holds_tree(root),
        ensures
            final(self).holds_tree(None),
            final(self).live() == 0,
            final(self).view() == Map::<Seq<u8>, V>::empty(),
    {
        match root {
            Some(root) => {
                proof {
                    assert forall|address: int|
                        self.is_live(address) && starts_with(
                            #[trigger] self.path_of(address),
                            Seq::empty(),
                        ) implies self.descend(root, Seq::empty(), self.path_of(address)) == Some(
                        address,
                    ) by {}
                }
                self.deallocate_at(root, Ghost(Seq::empty()));
                proof {
                    assert forall|address: int| !self.is_live(address) by {
                        assert(starts_with(old(self).path_of(address), Seq::empty()));
                    }
                }
            },
            None => {},
        }
        proof {
            self.lemma_no_live();
            assert(self.view() =~= Map::<Seq<u8>, V>::empty()) by {
                assert forall|key: Seq<u8>| !self.view().contains_key(key) by {
                    if self.view().contains_key(key) {
                        assert(self.is_leaf_with(self.leaf_with(key), key));
                    }
                }
            }
        }
    }
}

} // verus!

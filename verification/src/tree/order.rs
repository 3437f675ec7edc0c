//! The order of a traversal: the keys of the leaves come in the order of
//! byte strings, each key of the tree once.

use crate::heap::NodeHeap;
use crate::nodes::pointer::OpaqueNodePtr;
use crate::tree::model::starts_with;
use crate::tree::traverse::{
    leaf_keys, lemma_leaf_keys_concat, lex_ascending, lex_less, lex_less_at, Visit,
};
use vstd::prelude::*;

verus! {

/// The one step of a leaf gives the key of the leaf; the one step of an
/// inner node gives no key.
pub proof fn lemma_leaf_keys_one(step: Visit)
    ensures
        leaf_keys(seq![step]) == (match step {
            Visit::Leaf(key) => seq![key],
            Visit::Inner(_, _, _) => Seq::<Seq<u8>>::empty(),
        }),
{
    let steps = seq![step];
    assert(steps.drop_last() =~= Seq::<Visit>::empty());
    assert(leaf_keys(steps.drop_last()) =~= Seq::<Seq<u8>>::empty());
    assert(steps.last() == step);
    let tail = match step {
        Visit::Leaf(key) => seq![key],
        Visit::Inner(_, _, _) => Seq::<Seq<u8>>::empty(),
    };
    assert(Seq::<Seq<u8>>::empty() + tail =~= tail);
}

/// Two keys that agree up to a place where the first has the smaller byte
/// are in the order of byte strings.
pub proof fn lemma_lex_less_behind(left: Seq<u8>, right: Seq<u8>, lead: Seq<u8>)
    requires
        starts_with(left, lead),
        starts_with(right, lead),
        lead.len() < left.len(),
        lead.len() < right.len(),
        left[lead.len() as int] < right[lead.len() as int],
    ensures
        lex_less(left, right),
{
    assert(lex_less_at(left, right, lead.len() as int));
}

impl<V> NodeHeap<V> {
    /// Whether every one of the keys starts with `lead`, goes on behind it
    /// with a byte smaller than `upto`, and is a key of the tree.
    pub open spec fn keys_behind(&self, keys: Seq<Seq<u8>>, lead: Seq<u8>, upto: nat) -> bool {
        forall|i: int|
            0 <= i < keys.len() ==> {
                &&& starts_with(#[trigger] keys[i], lead)
                &&& keys[i].len() > lead.len()
                &&& keys[i][lead.len() as int] < upto
                &&& self.view().contains_key(keys[i])
            }
    }

    /// Whether every one of the keys starts with `lead` and is a key of the
    /// tree.
    pub open spec fn keys_under(&self, keys: Seq<Seq<u8>>, lead: Seq<u8>) -> bool {
        forall|i: int|
            0 <= i < keys.len() ==> starts_with(#[trigger] keys[i], lead)
                && self.view().contains_key(keys[i])
    }

    /// The traversal of a sound subtree gives keys of the tree that start
    /// with the path of the subtree, in the order of byte strings.
    pub proof fn lemma_order_sub(&self, pointer: OpaqueNodePtr<V>, path: Seq<u8>)
        requires
            self.sub_wf(pointer, path),
        ensures
            lex_ascending(leaf_keys(self.visits_sub(pointer, path))),
            self.keys_under(leaf_keys(self.visits_sub(pointer, path)), path),
        decreases usize::MAX - path.len(), 257nat,
    {
        let slot = self.slot_at(pointer.address());
        let keys = leaf_keys(self.visits_sub(pointer, path));
        if slot.is_inner() {
            let trunk = path + slot.prefix();
            let first = seq![
                Visit::Inner(slot.class()->0, slot.prefix(), slot.header()@.num_children),
            ];
            let rest = self.visits_before(pointer, path, 256);
            lemma_leaf_keys_one(first[0]);
            lemma_leaf_keys_concat(first, rest);
            assert(keys =~= leaf_keys(rest));
            self.lemma_order_before(pointer, path, 256);
            assert forall|i: int| 0 <= i < keys.len() implies starts_with(
                #[trigger] keys[i],
                path,
            ) by {
                assert(starts_with(keys[i], trunk));
                assert forall|j: int| 0 <= j < path.len() implies keys[i][j] == path[j] by {
                    assert(trunk[j] == path[j]);
                }
            }
        } else {
            let key = slot->Leaf_0.key@;
            lemma_leaf_keys_one(Visit::Leaf(key));
            assert(self.is_leaf_with(pointer.address(), key));
        }
    }

    /// The traversal of the children of an inner node with key bytes smaller
    /// than `upto` gives keys of the tree that start with the path and the
    /// prefix of the inner node and go on with such a key byte, in the order
    /// of byte strings.
    pub proof fn lemma_order_before(&self, pointer: OpaqueNodePtr<V>, path: Seq<u8>, upto: nat)
        requires
            self.sub_wf(pointer, path),
            self.slot_at(pointer.address()).is_inner(),
            upto <= 256,
        ensures
            lex_ascending(leaf_keys(self.visits_before(pointer, path, upto))),
            self.keys_behind(
                leaf_keys(self.visits_before(pointer, path, upto)),
                path + self.slot_at(pointer.address()).prefix(),
                upto,
            ),
        decreases usize::MAX - path.len(), upto,
    {
        let slot = self.slot_at(pointer.address());
        let trunk = path + slot.prefix();
        if upto > 0 {
            let key_byte = (upto - 1) as u8;
            let before = self.visits_before(pointer, path, (upto - 1) as nat);
            self.lemma_order_before(pointer, path, (upto - 1) as nat);
            let earlier = leaf_keys(before);
            if slot.children().contains_key(key_byte) {
                let below = trunk.push(key_byte);
                let child = slot.children()[key_byte];
                let under = self.visits_sub(child, below);
                self.lemma_order_sub(child, below);
                lemma_leaf_keys_concat(before, under);
                let later = leaf_keys(under);
                let keys = leaf_keys(self.visits_before(pointer, path, upto));
                assert(keys == earlier + later);
                assert forall|i: int| 0 <= i < later.len() implies starts_with(
                    #[trigger] later[i],
                    trunk,
                ) && later[i].len() > trunk.len() && later[i][trunk.len() as int] == key_byte by {
                    assert(starts_with(later[i], below));
                    assert(later[i][trunk.len() as int] == below[trunk.len() as int]);
                    assert forall|j: int| 0 <= j < trunk.len() implies later[i][j]
                        == trunk[j] by {
                        assert(below[j] == trunk[j]);
                    }
                }
                assert forall|i: int, j: int| 0 <= i < j < keys.len() implies lex_less(
                    keys[i],
                    keys[j],
                ) by {
                    if j < earlier.len() {
                        assert(lex_less(earlier[i], earlier[j]));
                    } else if i >= earlier.len() {
                        assert(lex_less(later[i - earlier.len()], later[j - earlier.len()]));
                    } else {
                        assert(keys[i] == earlier[i]);
                        assert(keys[j] == later[j - earlier.len()]);
                        lemma_lex_less_behind(keys[i], keys[j], trunk);
                    }
                }
                assert forall|i: int| 0 <= i < keys.len() implies starts_with(
                    #[trigger] keys[i],
                    trunk,
                ) && keys[i].len() > trunk.len() && keys[i][trunk.len() as int] < upto
                    && self.view().contains_key(keys[i]) by {
                    if i < earlier.len() {
                        assert(keys[i] == earlier[i]);
                    } else {
                        assert(keys[i] == later[i - earlier.len()]);
                    }
                }
            } else {
                assert(before + Seq::<Visit>::empty() =~= before);
            }
        }
    }

    /// The steps of the children with smaller key bytes stay when the
    /// children with larger key bytes are added.
    pub proof fn lemma_visits_grow(
        &self,
        pointer: OpaqueNodePtr<V>,
        path: Seq<u8>,
        from: nat,
        upto: nat,
        key: Seq<u8>,
    )
        requires
            from <= upto <= 256,
            path.len() <= usize::MAX,
            (path + self.slot_at(pointer.address()).prefix()).len() < usize::MAX,
            leaf_keys(self.visits_before(pointer, path, from)).contains(key),
        ensures
            leaf_keys(self.visits_before(pointer, path, upto)).contains(key),
        decreases upto - from,
    {
        if from < upto {
            self.lemma_visits_grow(pointer, path, from, (upto - 1) as nat, key);
            let slot = self.slot_at(pointer.address());
            let trunk = path + slot.prefix();
            let key_byte = (upto - 1) as u8;
            let before = self.visits_before(pointer, path, (upto - 1) as nat);
            let under = if slot.children().contains_key(key_byte) {
                self.visits_sub(slot.children()[key_byte], trunk.push(key_byte))
            } else {
                Seq::empty()
            };
            lemma_leaf_keys_concat(before, under);
            let earlier = leaf_keys(before);
            let i = choose|i: int| 0 <= i < earlier.len() && earlier[i] == key;
            assert((earlier + leaf_keys(under))[i] == key);
        }
    }

    /// The traversal of a sound subtree gives the key of every leaf that is
    /// found from the top of the subtree.
    pub proof fn lemma_order_complete(&self, pointer: OpaqueNodePtr<V>, path: Seq<u8>, leaf: int)
        requires
            self.sub_wf(pointer, path),
            self.descend(pointer, path, self.path_of(leaf)) == Some(leaf),
            self.slot_at(leaf) is Leaf,
        ensures
            leaf_keys(self.visits_sub(pointer, path)).contains(self.slot_at(leaf)->Leaf_0.key@),
        decreases usize::MAX - path.len(),
    {
        let slot = self.slot_at(pointer.address());
        let key = self.slot_at(leaf)->Leaf_0.key@;
        let there = self.path_of(leaf);
        if slot.is_inner() {
            let trunk = path + slot.prefix();
            assert(there != path);
            let key_byte = there[trunk.len() as int];
            let below = trunk.push(key_byte);
            let child = slot.children()[key_byte];
            self.lemma_order_complete(child, below, leaf);
            let before = self.visits_before(pointer, path, key_byte as nat);
            let under = self.visits_sub(child, below);
            lemma_leaf_keys_concat(before, under);
            let later = leaf_keys(under);
            let i = choose|i: int| 0 <= i < later.len() && later[i] == key;
            assert((leaf_keys(before) + later)[leaf_keys(before).len() + i] == key);
            assert(self.visits_before(pointer, path, (key_byte + 1) as nat) == before + under);
            self.lemma_visits_grow(pointer, path, (key_byte + 1) as nat, 256, key);
            let first = seq![
                Visit::Inner(slot.class()->0, slot.prefix(), slot.header()@.num_children),
            ];
            let rest = self.visits_before(pointer, path, 256);
            lemma_leaf_keys_one(first[0]);
            lemma_leaf_keys_concat(first, rest);
            assert(leaf_keys(self.visits_sub(pointer, path)) =~= leaf_keys(rest));
        } else {
            lemma_leaf_keys_one(Visit::Leaf(key));
            assert(leaf_keys(self.visits_sub(pointer, path))[0] == key);
        }
    }

    /// The traversal of a tree gives its keys in the order of byte strings,
    /// and gives every key of the tree.
    pub proof fn lemma_traversal_order(&self, root: Option<OpaqueNodePtr<V>>)
        requires
            self.holds_tree(root),
        ensures
            lex_ascending(leaf_keys(self.visits(root))),
            forall|key: Seq<u8>|
                leaf_keys(self.visits(root)).contains(key) <==> self.view().contains_key(key),
    {
        let keys = leaf_keys(self.visits(root));
        match root {
            Some(top) => {
                self.lemma_order_sub(top, Seq::empty());
                assert forall|key: Seq<u8>| self.view().contains_key(key) implies keys.contains(
                    key,
                ) by {
                    let leaf = self.leaf_with(key);
                    assert(self.is_leaf_with(leaf, key));
                    assert(self.descend(top, Seq::empty(), self.path_of(leaf)) == Some(leaf));
                    self.lemma_order_complete(top, Seq::empty(), leaf);
                }
                assert forall|key: Seq<u8>| keys.contains(key) implies self.view().contains_key(
                    key,
                ) by {
                    let i = choose|i: int| 0 <= i < keys.len() && keys[i] == key;
                    assert(self.view().contains_key(keys[i]));
                }
            },
            None => {
                assert forall|key: Seq<u8>| !self.view().contains_key(key) by {
                    if self.view().contains_key(key) {
                        assert(self.is_leaf_with(self.leaf_with(key), key));
                    }
                }
            },
        }
    }
}

} // verus!

//! What holds of every tree, and of every run of inserts and deletes.

use crate::heap::NodeHeap;
use crate::nodes::pointer::OpaqueNodePtr;
use crate::tree::model::{one_starts_other, prefix_conflict, starts_with};
use vstd::prelude::*;

verus! {

/// The map after the entries are put into it one by one, first to last.
pub open spec fn after_inserts<V>(map: Map<Seq<u8>, V>, entries: Seq<(Seq<u8>, V)>) -> Map<
    Seq<u8>,
    V,
>
    decreases entries.len(),
{
    if entries.len() == 0 {
        map
    } else {
        after_inserts(map, entries.drop_last()).insert(entries.last().0, entries.last().1)
    }
}

/// The map after the keys are taken out of it one by one, first to last.
pub open spec fn after_deletes<V>(map: Map<Seq<u8>, V>, keys: Seq<Seq<u8>>) -> Map<Seq<u8>, V>
    decreases keys.len(),
{
    if keys.len() == 0 {
        map
    } else {
        after_deletes(map, keys.drop_last()).remove(keys.last())
    }
}

/// Whether no key of the entries starts with the key of another entry.
pub open spec fn prefix_free<V>(entries: Seq<(Seq<u8>, V)>) -> bool {
    forall|i: int, j: int|
        0 <= i < j < entries.len() ==> !one_starts_other(
            #[trigger] entries[i].0,
            #[trigger] entries[j].0,
        )
}

/// The keys of the map after a run of inserts into the empty map are the
/// keys of the entries.
pub proof fn lemma_after_inserts_keys<V>(entries: Seq<(Seq<u8>, V)>, key: Seq<u8>)
    ensures
        after_inserts(Map::<Seq<u8>, V>::empty(), entries).contains_key(key) <==> exists|i: int|
            0 <= i < entries.len() && #[trigger] entries[i].0 == key,
    decreases entries.len(),
{
    if entries.len() > 0 {
        let fewer = entries.drop_last();
        lemma_after_inserts_keys(fewer, key);
        if exists|i: int| 0 <= i < fewer.len() && #[trigger] fewer[i].0 == key {
            let i = choose|i: int| 0 <= i < fewer.len() && #[trigger] fewer[i].0 == key;
            assert(entries[i].0 == key);
        }
        if exists|i: int| 0 <= i < entries.len() && #[trigger] entries[i].0 == key {
            let i = choose|i: int| 0 <= i < entries.len() && #[trigger] entries[i].0 == key;
            if i < fewer.len() {
                assert(fewer[i].0 == key);
            }
        }
        if key == entries.last().0 {
            assert(entries[entries.len() - 1].0 == key);
        }
    }
}

/// Round trip. Where no key of the entries starts with the key of another
/// entry, every one of the inserts is accepted and finds no value to give
/// back, and after all of them every key has the value that it came with.
pub proof fn lemma_round_trip<V>(entries: Seq<(Seq<u8>, V)>, which: int)
    requires
        prefix_free(entries),
        0 <= which < entries.len(),
    ensures
        !prefix_conflict(
            after_inserts(Map::<Seq<u8>, V>::empty(), entries.take(which)),
            entries[which].0,
        ),
        !after_inserts(Map::<Seq<u8>, V>::empty(), entries.take(which)).contains_key(
            entries[which].0,
        ),
        after_inserts(Map::<Seq<u8>, V>::empty(), entries).contains_key(entries[which].0),
        after_inserts(Map::<Seq<u8>, V>::empty(), entries)[entries[which].0] == entries[which].1,
    decreases entries.len(),
{
    let key = entries[which].0;
    let earlier = entries.take(which);
    let before = after_inserts(Map::<Seq<u8>, V>::empty(), earlier);
    assert(one_starts_other(key, key));
    assert forall|other: Seq<u8>| before.contains_key(other) implies !one_starts_other(
        other,
        key,
    ) by {
        lemma_after_inserts_keys(earlier, other);
        let i = choose|i: int| 0 <= i < earlier.len() && #[trigger] earlier[i].0 == other;
        assert(entries[i].0 == other);
    }
    lemma_after_inserts_keys(entries, key);
    assert(entries[which].0 == key);
    let fewer = entries.drop_last();
    if which < entries.len() - 1 {
        assert(fewer[which] == entries[which]);
        assert(fewer.take(which) =~= earlier);
        assert(prefix_free(fewer)) by {
            assert forall|i: int, j: int| 0 <= i < j < fewer.len() implies !one_starts_other(
                #[trigger] fewer[i].0,
                #[trigger] fewer[j].0,
            ) by {
                assert(fewer[i] == entries[i] && fewer[j] == entries[j]);
            }
        }
        lemma_round_trip(fewer, which);
        assert(!one_starts_other(entries[which].0, entries[entries.len() - 1].0));
        assert(one_starts_other(entries.last().0, entries.last().0));
    }
}

/// Overwrite. An insert of a key with one value, followed by an insert of
/// the same key with another value: the second insert is accepted, finds
/// the first value to give back, and leaves the second value with the key,
/// and the same keys in the map.
pub proof fn lemma_overwrite<V>(map: Map<Seq<u8>, V>, key: Seq<u8>, first: V, second: V)
    requires
        !prefix_conflict(map, key),
    ensures
        !prefix_conflict(map.insert(key, first), key),
        map.insert(key, first).contains_key(key),
        map.insert(key, first)[key] == first,
        map.insert(key, first).insert(key, second)[key] == second,
        map.insert(key, first).insert(key, second).dom() == map.insert(key, first).dom(),
{
    let once = map.insert(key, first);
    assert forall|other: Seq<u8>| once.contains_key(other) && other != key implies !one_starts_other(
        other,
        key,
    ) by {
        assert(map.contains_key(other));
    }
    assert(once.insert(key, second).dom() =~= once.dom());
}

/// Delete inverts insert. Once every key of a map is taken out, in any
/// order and any number of times, the map is empty.
pub proof fn lemma_delete_all<V>(map: Map<Seq<u8>, V>, keys: Seq<Seq<u8>>)
    requires
        forall|key: Seq<u8>| map.contains_key(key) ==> keys.contains(key),
    ensures
        after_deletes(map, keys) == Map::<Seq<u8>, V>::empty(),
{
    assert forall|key: Seq<u8>| !after_deletes(map, keys).contains_key(key) by {
        lemma_after_deletes_keys(map, keys, key);
    }
    assert(after_deletes(map, keys) =~= Map::<Seq<u8>, V>::empty());
}

/// The keys of a map after a run of deletes are its keys but for those
/// taken out.
pub proof fn lemma_after_deletes_keys<V>(map: Map<Seq<u8>, V>, keys: Seq<Seq<u8>>, key: Seq<u8>)
    ensures
        after_deletes(map, keys).contains_key(key) <==> map.contains_key(key) && !keys.contains(
            key,
        ),
    decreases keys.len(),
{
    if keys.len() > 0 {
        let fewer = keys.drop_last();
        lemma_after_deletes_keys(map, fewer, key);
        if fewer.contains(key) {
            let i = choose|i: int| 0 <= i < fewer.len() && fewer[i] == key;
            assert(keys[i] == key);
        }
        if keys.contains(key) && key != keys.last() {
            let i = choose|i: int| 0 <= i < keys.len() && keys[i] == key;
            assert(fewer[i] == key);
        }
        if key == keys.last() {
            assert(keys[keys.len() - 1] == key);
        }
    }
}

impl<V> NodeHeap<V> {
    /// Every node that key bytes lead to in a sound subtree that holds every
    /// node recorded under its path is the top of such a subtree.
    pub proof fn lemma_subtree(
        &self,
        pointer: OpaqueNodePtr<V>,
        path: Seq<u8>,
        target: Seq<u8>,
    ) -> (found: OpaqueNodePtr<V>)
        requires
            self.sub_wf(pointer, path),
            self.covers(pointer, path),
            self.descend(pointer, path, target) is Some,
        ensures
            found.address() == self.descend(pointer, path, target)->0,
            self.sub_wf(found, target),
            self.covers(found, target),
        decreases usize::MAX - path.len(),
    {
        if path == target {
            pointer
        } else {
            let slot = self.slot_at(pointer.address());
            let trunk = path + slot.prefix();
            let key_byte = target[trunk.len() as int];
            self.lemma_child_covers(pointer, path, key_byte);
            self.lemma_subtree(slot.children()[key_byte], trunk.push(key_byte), target)
        }
    }

    /// Every node that lives in a heap that holds a tree is the top of a
    /// sound subtree of the tree, at the path at which it is recorded.
    pub proof fn lemma_node_of_tree(&self, root: Option<OpaqueNodePtr<V>>, address: int) -> (found:
        OpaqueNodePtr<V>)
        requires
            self.holds_tree(root),
            self.is_live(address),
        ensures
            root is Some,
            found.address() == address,
            self.holds(found),
            self.sub_wf(found, self.path_of(address)),
            self.covers(found, self.path_of(address)),
    {
        let top = root->0;
        assert forall|other: int|
            self.is_live(other) && starts_with(
                #[trigger] self.path_of(other),
                Seq::empty(),
            ) implies self.descend(top, Seq::empty(), self.path_of(other)) == Some(other) by {}
        self.lemma_subtree(top, Seq::empty(), self.path_of(address))
    }

    /// Empty tree, empty heap. A heap that holds a tree without keys holds
    /// no tree at all: there is no root, and no node lives in the heap. So
    /// once every key that was inserted is deleted, every node that was
    /// allocated is released.
    pub proof fn lemma_empty_tree(&self, root: Option<OpaqueNodePtr<V>>)
        requires
            self.holds_tree(root),
            self.view() == Map::<Seq<u8>, V>::empty(),
        ensures
            root is None,
            self.live() == 0,
            forall|address: int| !self.is_live(address),
    {
        if root is Some {
            let leaf = self.lemma_leaf_under(root->0, Seq::empty());
            let key = self.slot_at(leaf)->Leaf_0.key@;
            assert(self.is_leaf_with(leaf, key));
            assert(self.view().contains_key(key));
        }
        self.lemma_no_live();
    }

    /// Population ranges. Every inner node of a tree holds as many children
    /// as its header says, which is no fewer than its class asks for and no
    /// more than its class has room for, and never fewer than two.
    pub proof fn lemma_population_range(&self, root: Option<OpaqueNodePtr<V>>, address: int)
        requires
            self.holds_tree(root),
            self.is_live(address),
            self.slot_at(address).is_inner(),
        ensures
            self.slot_at(address).node_wf(),
            self.slot_at(address).children().dom().finite(),
            self.slot_at(address).children().dom().len() == self.slot_at(
                address,
            ).header()@.num_children,
            self.slot_at(address).class()->0.min_children() <= self.slot_at(
                address,
            ).header()@.num_children <= self.slot_at(address).class()->0.max_children(),
            self.slot_at(address).header()@.num_children >= 2,
    {
        let found = self.lemma_node_of_tree(root, address);
        assert(self.sub_wf(found, self.path_of(address)));
        self.slot_at(address).lemma_slot_population();
    }

    /// Tag consistency along the edges. A child pointer of an inner node of
    /// a tree leads to a node that lives in the heap and is of the class
    /// that the pointer is tagged with; the node is recorded at the path of
    /// the inner node, followed by the prefix of the inner node and the key
    /// byte of the child.
    pub proof fn lemma_child_pointer(
        &self,
        root: Option<OpaqueNodePtr<V>>,
        address: int,
        key_byte: u8,
    )
        requires
            self.holds_tree(root),
            self.is_live(address),
            self.slot_at(address).is_inner(),
            self.slot_at(address).children().contains_key(key_byte),
        ensures
            self.holds(self.slot_at(address).children()[key_byte]),
            self.path_of(self.slot_at(address).children()[key_byte].address()) == (self.path_of(
                address,
            ) + self.slot_at(address).prefix()).push(key_byte),
    {
        let found = self.lemma_node_of_tree(root, address);
        assert(self.sub_wf(found, self.path_of(address)));
        let slot = self.slot_at(address);
        assert(self.sub_wf(
            slot.children()[key_byte],
            (self.path_of(address) + slot.prefix()).push(key_byte),
        ));
    }

    /// Prefix soundness. The key of a leaf of a tree starts with the key
    /// bytes that lead to the leaf. Under an inner node, it starts with the
    /// key bytes that lead to the inner node followed by the whole prefix
    /// of the inner node, and goes on behind them; the bytes that the
    /// header of the inner node stores are the first bytes of that prefix,
    /// eight at most. Under a leaf lies the leaf alone.
    pub proof fn lemma_prefix_soundness(
        &self,
        root: Option<OpaqueNodePtr<V>>,
        node: int,
        leaf: int,
    )
        requires
            self.holds_tree(root),
            self.is_live(node),
            self.is_live(leaf),
            self.slot_at(leaf) is Leaf,
            starts_with(self.path_of(leaf), self.path_of(node)),
        ensures
            starts_with(self.slot_at(leaf)->Leaf_0.key@, self.path_of(leaf)),
            self.slot_at(node).is_inner() ==> {
                let whole = self.path_of(node) + self.slot_at(node).prefix();
                &&& starts_with(self.slot_at(leaf)->Leaf_0.key@, whole)
                &&& whole.len() < self.slot_at(leaf)->Leaf_0.key@.len()
                &&& starts_with(self.slot_at(node).prefix(), self.slot_at(node).header()@.stored)
                &&& self.slot_at(node).header()@.stored.len() <= 8
            },
            self.slot_at(node) is Leaf ==> node == leaf,
    {
        let found = self.lemma_node_of_tree(root, node);
        let here = self.path_of(node);
        assert(self.descend(found, here, self.path_of(leaf)) == Some(leaf));
        self.lemma_leaf_path(found, here, leaf);
        let slot = self.slot_at(node);
        if slot.is_inner() {
            self.lemma_leaf_side(found, here, leaf);
            slot.lemma_slot_population();
            let stored = slot.header()@.stored;
            assert(stored =~= slot.prefix().subrange(0, stored.len() as int));
        }
    }
}

} // verus!

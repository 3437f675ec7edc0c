//! Ordered traversal: every node of a tree, parents before children and
//! children in ascending order of key byte.

use crate::heap::{lemma_node_types, NodeHeap, Slot};
use crate::nodes::header::Header;
use crate::nodes::inner::lists_children;
use crate::nodes::leaf::LeafNode;
use crate::nodes::node_type::NodeType;
use crate::nodes::pointer::OpaqueNodePtr;
use crate::tree::model::starts_with;
use vstd::prelude::*;

verus! {

/// One step of a traversal.
pub ghost enum Visit {
    /// A leaf was visited: its key.
    Leaf(Seq<u8>),
    /// An inner node was visited: its class, its whole prefix, and the
    /// number of its children.
    Inner(NodeType, Seq<u8>, nat),
}

/// What a traversal hands the nodes of a tree to.
///
/// A visitor may keep a record of the steps that it is handed; of one that
/// does, a traversal says which steps it was handed. A visitor that keeps
/// none leaves `records` and `visited` as they are.
pub trait Visitor<V> {
    /// Whether the visitor keeps a record of the steps that it is handed.
    open spec fn records(&self) -> bool {
        false
    }

    /// The steps that the visitor has been handed, first to last, where it
    /// keeps a record of them.
    open spec fn visited(&self) -> Seq<Visit> {
        Seq::empty()
    }

    /// What the visitor keeps true of itself from step to step.
    open spec fn inv(&self) -> bool {
        true
    }

    /// Take a leaf.
    fn visit_leaf(&mut self, leaf: &LeafNode<V>)
        requires
            old(self).inv(),
        ensures
            final(self).inv(),
            final(self).records() == old(self).records(),
            final(self).records() ==> final(self).visited() == old(self).visited().push(
                Visit::Leaf(leaf.key@),
            ),
    ;

    /// Take an inner node: its class, its header, and its children with
    /// their key bytes, in ascending order of key byte.
    fn visit_inner(
        &mut self,
        node_type: NodeType,
        header: &Header,
        children: &Vec<(u8, OpaqueNodePtr<V>)>,
    )
        requires
            old(self).inv(),
        ensures
            final(self).inv(),
            final(self).records() == old(self).records(),
            final(self).records() ==> final(self).visited() == old(self).visited().push(
                Visit::Inner(node_type, header@.prefix, header@.num_children),
            ),
    ;
}

/// A visitor that keeps the keys of the leaves it is handed.
pub struct KeyCollector {
    /// The keys of the leaves, in the order in which they came.
    pub keys: Vec<Vec<u8>>,
    /// The steps, in the order in which they came.
    pub steps: Ghost<Seq<Visit>>,
}

impl KeyCollector {
    /// The keys kept are the keys of the leaves among the steps.
    pub open spec fn wf(&self) -> bool {
        self.keys@.map_values(|key: Vec<u8>| key@) == leaf_keys(self.steps@)
    }

    /// A collector that has been handed nothing.
    pub fn new() -> (collector: Self)
        ensures
            collector.wf(),
            collector.steps@ == Seq::<Visit>::empty(),
    {
        let collector = KeyCollector { keys: Vec::new(), steps: Ghost(Seq::empty()) };
        assert(collector.keys@.map_values(|key: Vec<u8>| key@) =~= Seq::<Seq<u8>>::empty());
        collector
    }
}

impl<V> Visitor<V> for KeyCollector {
    open spec fn records(&self) -> bool {
        true
    }

    open spec fn visited(&self) -> Seq<Visit> {
        self.steps@
    }

    open spec fn inv(&self) -> bool {
        self.wf()
    }

    fn visit_leaf(&mut self, leaf: &LeafNode<V>) {
        let key = vstd::slice::slice_to_vec(leaf.key_bytes());
        let ghost before = self.keys@;
        self.keys.push(key);
        proof {
            let step = Visit::Leaf(leaf.key@);
            assert(self.steps@.push(step).drop_last() =~= self.steps@);
            self.steps@ = self.steps@.push(step);
            assert(self.keys@.map_values(|key: Vec<u8>| key@) =~= before.map_values(
                |key: Vec<u8>| key@,
            ) + seq![leaf.key@]);
        }
    }

    fn visit_inner(
        &mut self,
        node_type: NodeType,
        header: &Header,
        children: &Vec<(u8, OpaqueNodePtr<V>)>,
    ) {
        proof {
            let step = Visit::Inner(node_type, header@.prefix, header@.num_children);
            assert(self.steps@.push(step).drop_last() =~= self.steps@);
            self.steps@ = self.steps@.push(step);
        }
    }
}

/// The keys of the leaves among the steps of a traversal, in their order.
pub open spec fn leaf_keys(steps: Seq<Visit>) -> Seq<Seq<u8>>
    decreases steps.len(),
{
    if steps.len() == 0 {
        Seq::empty()
    } else {
        leaf_keys(steps.drop_last()) + (match steps.last() {
            Visit::Leaf(key) => seq![key],
            Visit::Inner(_, _, _) => Seq::empty(),
        })
    }
}

/// The keys of the leaves among two runs of steps are those of the first
/// run, then those of the second.
pub proof fn lemma_leaf_keys_concat(first: Seq<Visit>, second: Seq<Visit>)
    ensures
        leaf_keys(first + second) == leaf_keys(first) + leaf_keys(second),
    decreases second.len(),
{
    if second.len() == 0 {
        assert(first + second =~= first);
        assert(leaf_keys(first) + leaf_keys(second) =~= leaf_keys(first));
    } else {
        lemma_leaf_keys_concat(first, second.drop_last());
        assert((first + second).drop_last() =~= first + second.drop_last());
        assert((first + second).last() == second.last());
        let tail = match second.last() {
            Visit::Leaf(key) => seq![key],
            Visit::Inner(_, _, _) => Seq::<Seq<u8>>::empty(),
        };
        assert((leaf_keys(first) + leaf_keys(second.drop_last())) + tail =~= leaf_keys(first) + (
        leaf_keys(second.drop_last()) + tail));
    }
}

/// Whether `left` and `right` agree up to the place `at`, where `left` ends
/// and `right` goes on, or where `left` has the smaller byte.
pub open spec fn lex_less_at(left: Seq<u8>, right: Seq<u8>, at: int) -> bool {
    &&& 0 <= at <= left.len()
    &&& at <= right.len()
    &&& forall|i: int| 0 <= i < at ==> left[i] == right[i]
    &&& (at == left.len() && at < right.len()) || (at < left.len() && at < right.len() && left[at]
        < right[at])
}

/// Whether `left` comes before `right` in the order of byte strings: they
/// agree up to a place where `left` ends and `right` goes on, or where
/// `left` has the smaller byte.
pub open spec fn lex_less(left: Seq<u8>, right: Seq<u8>) -> bool {
    exists|at: int| lex_less_at(left, right, at)
}

/// Whether each key comes before every key behind it in the order of byte
/// strings.
pub open spec fn lex_ascending(keys: Seq<Seq<u8>>) -> bool {
    forall|i: int, j: int| 0 <= i < j < keys.len() ==> lex_less(keys[i], keys[j])
}

impl<V> NodeHeap<V> {
    /// The steps of the traversal of the subtree that the pointer leads to:
    /// a leaf is one step; an inner node is one step, followed by the steps
    /// of its children in ascending order of key byte.
    pub open spec fn visits_sub(&self, pointer: OpaqueNodePtr<V>, path: Seq<u8>) -> Seq<Visit>
        decreases usize::MAX - path.len(), 257nat,
    {
        let slot = self.slot_at(pointer.address());
        if path.len() > usize::MAX {
            Seq::empty()
        } else {
            match slot {
                Slot::Leaf(leaf) => seq![Visit::Leaf(leaf.key@)],
                Slot::Vacant => Seq::empty(),
                _ => seq![
                    Visit::Inner(
                        slot.class()->0,
                        slot.prefix(),
                        slot.header()@.num_children,
                    ),
                ] + self.visits_before(pointer, path, 256),
            }
        }
    }

    /// The steps of the traversal of the children of an inner node whose key
    /// bytes are smaller than `upto`.
    pub open spec fn visits_before(
        &self,
        pointer: OpaqueNodePtr<V>,
        path: Seq<u8>,
        upto: nat,
    ) -> Seq<Visit>
        decreases usize::MAX - path.len(), upto,
    {
        let slot = self.slot_at(pointer.address());
        let trunk = path + slot.prefix();
        if upto == 0 || upto > 256 || path.len() > usize::MAX || trunk.len() >= usize::MAX {
            Seq::empty()
        } else {
            let key_byte = (upto - 1) as u8;
            self.visits_before(pointer, path, (upto - 1) as nat) + (if slot.children().contains_key(
                key_byte,
            ) {
                self.visits_sub(slot.children()[key_byte], trunk.push(key_byte))
            } else {
                Seq::empty()
            })
        }
    }

    /// The steps of the traversal of the tree with the given root.
    pub open spec fn visits(&self, root: Option<OpaqueNodePtr<V>>) -> Seq<Visit> {
        match root {
            Some(root) => self.visits_sub(root, Seq::empty()),
            None => Seq::empty(),
        }
    }

    /// Key bytes for which an inner node has no child add no steps.
    pub proof fn lemma_visits_skip(
        &self,
        pointer: OpaqueNodePtr<V>,
        path: Seq<u8>,
        from: nat,
        upto: nat,
    )
        requires
            from <= upto <= 256,
            forall|key_byte: u8|
                from <= key_byte < upto ==> !self.slot_at(pointer.address()).children().contains_key(
                    key_byte,
                ),
        ensures
            self.visits_before(pointer, path, upto) == self.visits_before(pointer, path, from),
        decreases upto - from,
    {
        if from < upto {
            self.lemma_visits_skip(pointer, path, from, (upto - 1) as nat);
            let slot = self.slot_at(pointer.address());
            let trunk = path + slot.prefix();
            if path.len() > usize::MAX || trunk.len() >= usize::MAX {
                self.lemma_visits_none(pointer, path, from);
                self.lemma_visits_none(pointer, path, upto);
            } else {
                assert(!slot.children().contains_key((upto - 1) as u8));
                assert(self.visits_before(pointer, path, (upto - 1) as nat) + Seq::<
                    Visit,
                >::empty() =~= self.visits_before(pointer, path, (upto - 1) as nat));
            }
        }
    }

    /// An inner node whose path and prefix are too long has no steps.
    pub proof fn lemma_visits_none(&self, pointer: OpaqueNodePtr<V>, path: Seq<u8>, upto: nat)
        requires
            path.len() > usize::MAX || (path + self.slot_at(pointer.address()).prefix()).len()
                >= usize::MAX,
        ensures
            self.visits_before(pointer, path, upto) == Seq::<Visit>::empty(),
    {
    }

    /// Hand the nodes of the subtree that the pointer leads to to the
    /// visitor.
    fn traverse_at<T: Visitor<V>>(
        &self,
        pointer: OpaqueNodePtr<V>,
        visitor: &mut T,
        Ghost(path): Ghost<Seq<u8>>,
    )
        requires
            self.wf(),
            self.sub_wf(pointer, path),
            old(visitor).inv(),
        ensures
            final(visitor).inv(),
            final(visitor).records() == old(visitor).records(),
            final(visitor).records() ==> final(visitor).visited() == old(visitor).visited()
                + self.visits_sub(pointer, path),
        decreases usize::MAX - path.len(),
    {
        let ghost started = visitor.visited();
        let ghost recording = visitor.records();
        let node_type = pointer.node_type();
        match node_type {
            NodeType::Leaf => {
                visitor.visit_leaf(self.leaf_at(pointer));
                assert(recording ==> visitor.visited() =~= started + self.visits_sub(
                    pointer,
                    path,
                ));
                return ;
            },
            _ => {},
        }
        let ghost slot = self.slot_at(pointer.address());
        let ghost trunk = path + slot.prefix();
        let ghost first = seq![
            Visit::Inner(slot.class()->0, slot.prefix(), slot.header()@.num_children),
        ];
        let pairs = self.child_entries(pointer);
        visitor.visit_inner(node_type, self.header_at(pointer), &pairs);
        let mut at: usize = 0;
        let ghost mut passed: nat = 0;
        assert(recording ==> visitor.visited() =~= started + first + self.visits_before(
            pointer,
            path,
            0,
        ));
        while at < pairs.len()
            invariant
                self.wf(),
                self.sub_wf(pointer, path),
                slot == self.slot_at(pointer.address()),
                slot.is_inner(),
                trunk == path + slot.prefix(),
                lists_children(pairs@, slot.children()),
                at <= pairs@.len(),
                passed <= 256,
                visitor.inv(),
                visitor.records() == recording,
                at > 0 ==> passed == pairs@[at - 1].0 + 1,
                at == 0 ==> passed == 0,
                recording ==> visitor.visited() == started + first + self.visits_before(
                    pointer,
                    path,
                    passed,
                ),
            decreases pairs@.len() - at,
        {
            let (key_byte, child) = pairs[at];
            proof {
                assert(slot.children().contains_key(pairs@[at as int].0));
                assert forall|other: u8| passed <= other < key_byte implies !slot.children().contains_key(
                    other,
                ) by {
                    if slot.children().contains_key(other) {
                        let i = choose|i: int| 0 <= i < pairs@.len() && #[trigger] pairs@[i].0
                            == other;
                        if i < at {
                            if i < at - 1 {
                                assert(pairs@[i].0 < pairs@[at - 1].0);
                            }
                        } else if i > at {
                            assert(pairs@[at as int].0 < pairs@[i].0);
                        }
                    }
                }
                self.lemma_visits_skip(pointer, path, passed, key_byte as nat);
                assert(self.sub_wf(child, trunk.push(key_byte)));
            }
            let ghost so_far = visitor.visited();
            self.traverse_at(child, visitor, Ghost(trunk.push(key_byte)));
            proof {
                let before = self.visits_before(pointer, path, key_byte as nat);
                let below = self.visits_sub(child, trunk.push(key_byte));
                assert(self.visits_before(pointer, path, (key_byte + 1) as nat) == before + below);
                assert(recording ==> visitor.visited() =~= started + first + (before + below));
                passed = (key_byte + 1) as nat;
            }
            at += 1;
        }
        proof {
            assert forall|other: u8| passed <= other < 256 implies !slot.children().contains_key(
                other,
            ) by {
                if slot.children().contains_key(other) {
                    let i = choose|i: int| 0 <= i < pairs@.len() && #[trigger] pairs@[i].0
                        == other;
                    if i < at - 1 {
                        assert(pairs@[i].0 < pairs@[at - 1].0);
                    }
                }
            }
            self.lemma_visits_skip(pointer, path, passed, 256);
            assert(recording ==> visitor.visited() =~= started + (first + self.visits_before(
                pointer,
                path,
                256,
            )));
        }
    }

    /// Hand every node of the tree with the given root to the visitor:
    /// an inner node before its children, and the children of an inner node
    /// in ascending order of key byte. The leaves come in the order of
    /// their keys.
    pub fn traverse<T: Visitor<V>>(&self, root: Option<OpaqueNodePtr<V>>, visitor: &mut T)
        requires
            self.holds_tree(root),
            old(visitor).inv(),
        ensures
            final(visitor).inv(),
            final(visitor).records() == old(visitor).records(),
            final(visitor).records() ==> final(visitor).visited() == old(visitor).visited()
                + self.visits(root),
    {
        match root {
            Some(root) => self.traverse_at(root, visitor, Ghost(Seq::empty())),
            None => {
                assert(visitor.visited() + Seq::<Visit>::empty() =~= visitor.visited());
            },
        }
    }

    /// The keys of the tree with the given root, in ascending order.
    pub fn ordered_keys(&self, root: Option<OpaqueNodePtr<V>>) -> (keys: Vec<Vec<u8>>)
        requires
            self.holds_tree(root),
        ensures
            keys@.map_values(|key: Vec<u8>| key@) == leaf_keys(self.visits(root)),
    {
        let mut collector = KeyCollector::new();
        self.traverse(root, &mut collector);
        assert(Seq::<Visit>::empty() + self.visits(root) =~= self.visits(root));
        collector.keys
    }
}

} // verus!

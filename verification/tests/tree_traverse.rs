use blart::tests_common::{generate_key_fixed_length, generate_key_with_prefix, PrefixExpansion};
use blart::tree::traverse::{KeyCollector, Visitor};
use blart::{Header, LeafNode, NodeHeap, NodeType, OpaqueNodePtr};

fn insert_all(heap: &mut NodeHeap<usize>, keys: &[Box<[u8]>]) -> Option<OpaqueNodePtr<usize>> {
    let mut root = None;
    for (index, key) in keys.iter().enumerate() {
        assert!(heap.spare_capacity() >= 2);
        let done = heap.insert(root, key.clone(), index).ok().unwrap();
        assert!(done.previous.is_none());
        root = Some(done.new_root);
    }
    root
}

struct Recorder {
    leaves: Vec<(Vec<u8>, usize)>,
    inner: Vec<(NodeType, Vec<u8>, usize, Vec<u8>)>,
}

impl Visitor<usize> for Recorder {
    fn visit_leaf(&mut self, leaf: &LeafNode<usize>) {
        self.leaves.push((leaf.key_bytes().to_vec(), leaf.value));
    }

    fn visit_inner(
        &mut self,
        node_type: NodeType,
        header: &Header,
        children: &Vec<(u8, OpaqueNodePtr<usize>)>,
    ) {
        self.inner.push((
            node_type,
            header.read_prefix().to_vec(),
            header.num_children(),
            children.iter().map(|pair| pair.0).collect(),
        ));
    }
}

#[test]
fn fixed_length_enumeration_comes_back_in_order() {
    let keys = generate_key_fixed_length(3, 2);
    assert_eq!(keys.len(), 27);
    let mut heap: NodeHeap<usize> = NodeHeap::new();
    let root = insert_all(&mut heap, &keys);
    let ordered = heap.ordered_keys(root);
    assert_eq!(ordered.len(), 27);
    for (found, wanted) in ordered.iter().zip(keys.iter()) {
        assert_eq!(found.as_slice(), wanted.as_ref());
    }
    let found = heap.search(root, &[0x80, 0x80, 0x80]).unwrap();
    assert_eq!(heap.leaf_at(found.to_opaque()).value, 13);
    heap.deallocate_tree(root);
    assert_eq!(heap.live_count(), 0);
}

#[test]
fn traversal_sorts_keys_inserted_in_any_order() {
    let mut keys = generate_key_with_prefix(
        3,
        3,
        &[
            PrefixExpansion { base_index: 0, expanded_length: 11 },
            PrefixExpansion { base_index: 2, expanded_length: 2 },
        ],
    );
    assert_eq!(keys.len(), 64);
    let sorted = keys.clone();
    keys.reverse();
    keys.rotate_left(17);
    keys.swap(3, 40);
    let mut heap: NodeHeap<usize> = NodeHeap::new();
    let root = insert_all(&mut heap, &keys);
    let ordered = heap.ordered_keys(root);
    assert_eq!(ordered.len(), sorted.len());
    for (found, wanted) in ordered.iter().zip(sorted.iter()) {
        assert_eq!(found.as_slice(), wanted.as_ref());
    }
    for (index, key) in keys.iter().enumerate() {
        let found = heap.search(root, key).unwrap();
        assert_eq!(heap.leaf_at(found.to_opaque()).value, index);
    }
}

#[test]
fn traversal_of_empty_tree_visits_nothing() {
    let heap: NodeHeap<usize> = NodeHeap::new();
    assert!(heap.ordered_keys(None).is_empty());
    let mut collector = KeyCollector::new();
    heap.traverse(None, &mut collector);
    assert!(collector.keys.is_empty());
}

#[test]
fn traversal_visits_parents_before_children() {
    let mut heap: NodeHeap<usize> = NodeHeap::new();
    let keys: Vec<Box<[u8]>> = vec![
        vec![1, 1, 5].into_boxed_slice(),
        vec![1, 1, 9].into_boxed_slice(),
        vec![1, 0].into_boxed_slice(),
        vec![3].into_boxed_slice(),
    ];
    let root = insert_all(&mut heap, &keys);
    let mut recorder = Recorder { leaves: Vec::new(), inner: Vec::new() };
    heap.traverse(root, &mut recorder);
    assert_eq!(
        recorder.leaves,
        vec![(vec![1, 0], 2), (vec![1, 1, 5], 0), (vec![1, 1, 9], 1), (vec![3], 3)]
    );
    assert_eq!(
        recorder.inner,
        vec![
            (NodeType::Node4, vec![], 2, vec![1, 3]),
            (NodeType::Node4, vec![], 2, vec![0, 1]),
            (NodeType::Node4, vec![], 2, vec![5, 9]),
        ]
    );
}

#[test]
fn deallocate_releases_every_node() {
    let keys = generate_key_fixed_length(2, 20);
    let mut heap: NodeHeap<usize> = NodeHeap::new();
    let root = insert_all(&mut heap, &keys);
    assert!(heap.live_count() > keys.len());
    heap.deallocate_tree(root);
    assert_eq!(heap.live_count(), 0);
    assert!(heap.search(None, &keys[0]).is_none());
    heap.deallocate_tree(None);
    assert_eq!(heap.live_count(), 0);
}

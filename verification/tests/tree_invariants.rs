use blart::tests_common::{generate_key_with_prefix, generate_keys_skewed, PrefixExpansion};
use blart::{NodeHeap, NodeType, OpaqueNodePtr, NUM_PREFIX_BYTES};

/// Walks the tree and checks what holds of every node. Gives back the number
/// of nodes and the keys of the leaves in the order of the walk.
fn check_subtree(
    heap: &NodeHeap<usize>,
    pointer: OpaqueNodePtr<usize>,
    path: &[u8],
    keys: &mut Vec<Vec<u8>>,
) -> usize {
    if pointer.node_type() == NodeType::Leaf {
        let leaf = heap.leaf_at(pointer);
        // the key bytes that lead to the leaf are the first bytes of its key
        assert!(leaf.key_bytes().starts_with(path));
        keys.push(leaf.key_bytes().to_vec());
        return 1;
    }
    let header = heap.header_at(pointer);
    let class = pointer.node_type();
    let children = heap.child_entries(pointer);
    // the header counts the children, and the count is in the range of the class
    assert_eq!(header.num_children(), children.len());
    assert!(children.len() >= class.lower_capacity());
    assert!(children.len() <= class.upper_capacity());
    assert!(children.len() >= 2);
    // the stored bytes are bounded, and the whole prefix is no shorter
    assert!(header.read_prefix().len() <= NUM_PREFIX_BYTES);
    assert!(header.read_prefix().len() <= header.prefix_size());
    // the key bytes of the children ascend
    for pair in children.windows(2) {
        assert!(pair[0].0 < pair[1].0);
    }
    let mut nodes = 1;
    let first_key = keys.len();
    let depth = path.len();
    let prefix_size = header.prefix_size();
    let stored = header.read_prefix().to_vec();
    for (key_byte, child) in children.iter() {
        assert_eq!(heap.lookup_child(pointer, *key_byte).unwrap().0, child.0);
        // the bytes of the prefix that are not stored are found in a leaf
        let leaf_key = heap.leaf_at(heap.minimum_leaf_of(*child)).key_bytes().to_vec();
        let mut below = leaf_key[..depth + prefix_size].to_vec();
        assert_eq!(&below[..depth], path);
        assert_eq!(&below[depth..depth + stored.len()], stored.as_slice());
        assert_eq!(leaf_key[depth + prefix_size], *key_byte);
        below.push(*key_byte);
        nodes += check_subtree(heap, *child, &below, keys);
    }
    // every leaf under the node goes on with the whole prefix of the node
    let whole = keys[first_key][..depth + prefix_size].to_vec();
    for key in &keys[first_key..] {
        assert!(key.starts_with(&whole));
        assert!(key.len() > whole.len());
    }
    nodes
}

fn check_tree(heap: &NodeHeap<usize>, root: Option<OpaqueNodePtr<usize>>, expected: &[Vec<u8>]) {
    let mut keys = Vec::new();
    let nodes = match root {
        Some(root) => check_subtree(heap, root, &[], &mut keys),
        None => 0,
    };
    // every node that lives in the heap is a node of the tree
    assert_eq!(nodes, heap.live_count());
    let mut sorted = expected.to_vec();
    sorted.sort();
    assert_eq!(keys, sorted);
    assert_eq!(heap.ordered_keys(root), sorted);
}

fn grow_and_shrink(keys: Vec<Box<[u8]>>, step: usize) {
    let mut heap: NodeHeap<usize> = NodeHeap::new();
    let mut root = None;
    let mut present: Vec<Vec<u8>> = Vec::new();
    let mut order: Vec<usize> = (0..keys.len()).collect();
    // a fixed scrambling of the order
    for index in 0..order.len() {
        let other = (index * step + 3) % order.len();
        order.swap(index, other);
    }
    for index in &order {
        assert!(heap.spare_capacity() >= 2);
        let done = heap.insert(root, keys[*index].clone(), *index).ok().unwrap();
        assert!(done.previous.is_none());
        root = Some(done.new_root);
        present.push(keys[*index].to_vec());
        check_tree(&heap, root, &present);
    }
    for index in &order {
        let found = heap.search(root, &keys[*index]).unwrap();
        assert_eq!(found.read(&heap).value, *index);
    }
    order.rotate_left(keys.len() / 3);
    for index in &order {
        let result = heap.delete(root, &keys[*index]);
        let (key, value) = result.removed.unwrap();
        assert_eq!(key, keys[*index]);
        assert_eq!(value, *index);
        root = result.new_root;
        present.retain(|other| other.as_slice() != keys[*index].as_ref());
        check_tree(&heap, root, &present);
    }
    assert!(root.is_none());
    assert_eq!(heap.live_count(), 0);
}

#[test]
fn invariants_hold_for_keys_with_long_shared_prefixes() {
    let keys = generate_key_with_prefix(
        3,
        4,
        &[
            PrefixExpansion { base_index: 0, expanded_length: 10 },
            PrefixExpansion { base_index: 1, expanded_length: 3 },
        ],
    );
    assert_eq!(keys.len(), 125);
    grow_and_shrink(keys, 7);
}

#[test]
fn invariants_hold_for_skewed_keys() {
    grow_and_shrink(generate_keys_skewed(40), 11);
}

#[test]
fn invariants_hold_for_wide_nodes() {
    let mut keys: Vec<Box<[u8]>> = Vec::new();
    for first in 0u16..60 {
        for second in 0u16..((first % 7) + 1) {
            let bytes = vec![(first * 4) as u8, 9, 9, 9, 9, 9, 9, 9, 9, 9, (second * 30) as u8];
            keys.push(bytes.into_boxed_slice());
        }
    }
    grow_and_shrink(keys, 13);
}

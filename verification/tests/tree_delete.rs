use blart::{NodeHeap, NodeType, OpaqueNodePtr};

fn insert_all(heap: &mut NodeHeap<usize>, keys: &[Vec<u8>]) -> Option<OpaqueNodePtr<usize>> {
    let mut root = None;
    for (index, key) in keys.iter().enumerate() {
        assert!(heap.spare_capacity() >= 2);
        let done = heap
            .insert(root, key.clone().into_boxed_slice(), index)
            .ok()
            .unwrap();
        assert!(done.previous.is_none());
        root = Some(done.new_root);
    }
    root
}

fn value_of(heap: &NodeHeap<usize>, root: Option<OpaqueNodePtr<usize>>, key: &[u8]) -> Option<usize> {
    heap.search(root, key)
        .map(|leaf| heap.leaf_at(leaf.to_opaque()).value)
}

#[test]
fn delete_from_empty_tree_changes_nothing() {
    let mut heap: NodeHeap<usize> = NodeHeap::new();
    let result = heap.delete(None, &[1, 2]);
    assert!(result.new_root.is_none());
    assert!(result.removed.is_none());
    assert_eq!(heap.live_count(), 0);
}

#[test]
fn delete_missing_key_changes_nothing() {
    let mut heap: NodeHeap<usize> = NodeHeap::new();
    let root = insert_all(&mut heap, &[vec![1, 2, 3], vec![1, 2, 4]]);
    for key in [vec![1u8, 2], vec![1, 2, 5], vec![9], vec![1, 2, 3, 4], vec![]] {
        let result = heap.delete(root, &key);
        assert!(result.removed.is_none());
        assert_eq!(result.new_root.map(|p| p.0), root.map(|p| p.0));
    }
    assert_eq!(heap.live_count(), 3);
    assert_eq!(value_of(&heap, root, &[1, 2, 3]), Some(0));
    assert_eq!(value_of(&heap, root, &[1, 2, 4]), Some(1));
}

#[test]
fn delete_last_key_leaves_no_tree() {
    let mut heap: NodeHeap<usize> = NodeHeap::new();
    let root = insert_all(&mut heap, &[vec![4, 5, 6]]);
    let result = heap.delete(root, &[4, 5, 6]);
    assert!(result.new_root.is_none());
    let (key, value) = result.removed.unwrap();
    assert_eq!(&*key, &[4, 5, 6]);
    assert_eq!(value, 0);
    assert_eq!(heap.live_count(), 0);
}

#[test]
fn shrink_and_collapse_back_to_single_leaf() {
    let mut heap: NodeHeap<usize> = NodeHeap::new();
    let keys: Vec<Vec<u8>> = (1u8..=5).map(|byte| vec![byte]).collect();
    let mut root = insert_all(&mut heap, &keys);
    assert_eq!(root.unwrap().node_type(), NodeType::Node16);
    assert_eq!(heap.live_count(), 6);
    let expected = [NodeType::Node4, NodeType::Node4, NodeType::Node4, NodeType::Leaf];
    for (step, byte) in (2u8..=5).enumerate() {
        let result = heap.delete(root, &[byte]);
        let (key, value) = result.removed.unwrap();
        assert_eq!(&*key, &[byte]);
        assert_eq!(value, byte as usize - 1);
        root = result.new_root;
        assert_eq!(root.unwrap().node_type(), expected[step]);
        assert_eq!(value_of(&heap, root, &[byte]), None);
        assert_eq!(value_of(&heap, root, &[1]), Some(0));
    }
    assert_eq!(heap.leaf_at(root.unwrap()).key_bytes(), &[1]);
    assert_eq!(heap.live_count(), 1);
    let result = heap.delete(root, &[1]);
    assert!(result.new_root.is_none());
    assert_eq!(heap.live_count(), 0);
}

#[test]
fn collapse_joins_prefixes_of_parent_and_child() {
    let mut heap: NodeHeap<usize> = NodeHeap::new();
    let keys = vec![
        vec![1, 2, 3, 4, 5, 6],
        vec![1, 2, 3, 4, 5, 7],
        vec![1, 2, 9],
    ];
    let root = insert_all(&mut heap, &keys).unwrap();
    assert_eq!(heap.header_at(root).read_prefix(), &[1, 2]);
    let children = heap.child_entries(root);
    assert_eq!(children[0].0, 3);
    assert_eq!(heap.header_at(children[0].1).read_prefix(), &[4, 5]);
    let result = heap.delete(Some(root), &[1, 2, 9]);
    assert_eq!(result.removed.unwrap().1, 2);
    let root = result.new_root.unwrap();
    assert_eq!(root.node_type(), NodeType::Node4);
    assert_eq!(heap.header_at(root).read_prefix(), &[1, 2, 3, 4, 5]);
    assert_eq!(heap.header_at(root).prefix_size(), 5);
    assert_eq!(heap.header_at(root).num_children(), 2);
    assert_eq!(value_of(&heap, Some(root), &[1, 2, 3, 4, 5, 6]), Some(0));
    assert_eq!(value_of(&heap, Some(root), &[1, 2, 3, 4, 5, 7]), Some(1));
    assert_eq!(value_of(&heap, Some(root), &[1, 2, 9]), None);
    assert_eq!(heap.live_count(), 3);
}

#[test]
fn collapse_truncates_joined_prefix_to_inline_bytes() {
    let mut heap: NodeHeap<usize> = NodeHeap::new();
    let mut first = vec![5u8; 6];
    first.extend_from_slice(&[1, 1, 1, 1, 1, 1, 10]);
    let mut second = vec![5u8; 6];
    second.extend_from_slice(&[1, 1, 1, 1, 1, 1, 11]);
    let mut third = vec![5u8; 6];
    third.push(2);
    let root = insert_all(&mut heap, &[first.clone(), second.clone(), third.clone()]).unwrap();
    assert_eq!(heap.header_at(root).prefix_size(), 6);
    let result = heap.delete(Some(root), &third);
    let root = result.new_root.unwrap();
    assert_eq!(heap.header_at(root).prefix_size(), 12);
    assert_eq!(heap.header_at(root).read_prefix(), &[5, 5, 5, 5, 5, 5, 1, 1]);
    assert_eq!(value_of(&heap, Some(root), &first), Some(0));
    assert_eq!(value_of(&heap, Some(root), &second), Some(1));
    assert_eq!(value_of(&heap, Some(root), &third), None);
}

#[test]
fn shrink_through_every_class() {
    let mut heap: NodeHeap<usize> = NodeHeap::new();
    let keys: Vec<Vec<u8>> = (0u16..256).map(|byte| vec![byte as u8]).collect();
    let mut root = insert_all(&mut heap, &keys);
    assert_eq!(root.unwrap().node_type(), NodeType::Node256);
    for byte in (1u16..256).rev() {
        let result = heap.delete(root, &[byte as u8]);
        assert_eq!(result.removed.unwrap().1, byte as usize);
        root = result.new_root;
        let left = byte as usize;
        let expected = match left {
            1 => NodeType::Leaf,
            2..=4 => NodeType::Node4,
            5..=16 => NodeType::Node16,
            17..=48 => NodeType::Node48,
            _ => NodeType::Node256,
        };
        assert_eq!(root.unwrap().node_type(), expected);
        assert_eq!(heap.live_count(), if left == 1 { 1 } else { left + 1 });
        for other in 0..byte {
            assert_eq!(value_of(&heap, root, &[other as u8]), Some(other as usize));
        }
        assert_eq!(value_of(&heap, root, &[byte as u8]), None);
    }
    let result = heap.delete(root, &[0]);
    assert!(result.new_root.is_none());
    assert_eq!(heap.live_count(), 0);
}

#[test]
fn delete_in_any_order_empties_the_tree() {
    let mut heap: NodeHeap<usize> = NodeHeap::new();
    let mut keys: Vec<Vec<u8>> = Vec::new();
    for a in [0u8, 7, 200] {
        for b in [1u8, 2, 3, 4, 5, 6] {
            for c in [0u8, 255] {
                keys.push(vec![a, b, c, a, b]);
            }
        }
    }
    let mut root = insert_all(&mut heap, &keys);
    let mut order: Vec<usize> = (0..keys.len()).collect();
    order.reverse();
    order.rotate_left(7);
    for (done, index) in order.iter().enumerate() {
        let result = heap.delete(root, &keys[*index]);
        assert_eq!(result.removed.unwrap().1, *index);
        root = result.new_root;
        for later in &order[done + 1..] {
            assert_eq!(value_of(&heap, root, &keys[*later]), Some(*later));
        }
    }
    assert!(root.is_none());
    assert_eq!(heap.live_count(), 0);
}

#[test]
fn released_places_are_used_again() {
    let mut heap: NodeHeap<usize> = NodeHeap::new();
    let root = insert_all(&mut heap, &[vec![1], vec![2], vec![3]]);
    assert_eq!(heap.live_count(), 4);
    let result = heap.delete(root, &[2]);
    assert_eq!(heap.live_count(), 3);
    let places = heap.slots.len();
    let done = heap.insert(result.new_root, vec![4].into_boxed_slice(), 9).ok().unwrap();
    assert_eq!(heap.live_count(), 4);
    assert_eq!(heap.slots.len(), places);
    assert_eq!(value_of(&heap, Some(done.new_root), &[4]), Some(9));
}

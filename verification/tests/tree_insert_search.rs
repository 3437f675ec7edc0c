use blart::{NodeHeap, NodeType, OpaqueNodePtr};

fn insert_all(heap: &mut NodeHeap<usize>, keys: &[Vec<u8>]) -> Option<OpaqueNodePtr<usize>> {
    let mut root = None;
    for (index, key) in keys.iter().enumerate() {
        assert!(heap.spare_capacity() >= 2);
        let done = heap
            .insert(root, key.clone().into_boxed_slice(), index)
            .ok()
            .unwrap();
        assert!(done.previous.is_none());
        root = Some(done.new_root);
    }
    root
}

fn value_of(heap: &NodeHeap<usize>, root: Option<OpaqueNodePtr<usize>>, key: &[u8]) -> Option<usize> {
    heap.search(root, key)
        .map(|leaf| heap.leaf_at(leaf.to_opaque()).value)
}

#[test]
fn search_in_empty_tree_misses() {
    let heap: NodeHeap<usize> = NodeHeap::new();
    assert!(heap.search(None, &[1, 2, 3]).is_none());
    assert!(heap.search(None, &[]).is_none());
    assert_eq!(heap.live_count(), 0);
}

#[test]
fn empty_key_lives_in_root_leaf() {
    let mut heap: NodeHeap<usize> = NodeHeap::new();
    let done = heap.insert(None, Vec::new().into_boxed_slice(), 5).ok().unwrap();
    let root = Some(done.new_root);
    assert_eq!(done.new_root.node_type(), NodeType::Leaf);
    assert_eq!(value_of(&heap, root, &[]), Some(5));
    assert_eq!(value_of(&heap, root, &[0]), None);
    assert_eq!(heap.live_count(), 1);
}

#[test]
fn prefix_split_makes_node4_with_shared_prefix() {
    let mut heap: NodeHeap<usize> = NodeHeap::new();
    let keys = vec![vec![0xAA, 0xBB, 0xCC], vec![0xAA, 0xBB, 0xDD]];
    let root = insert_all(&mut heap, &keys).unwrap();
    assert_eq!(root.node_type(), NodeType::Node4);
    assert_eq!(heap.header_at(root).read_prefix(), &[0xAA, 0xBB]);
    assert_eq!(heap.header_at(root).prefix_size(), 2);
    assert_eq!(heap.header_at(root).num_children(), 2);
    let children = heap.child_entries(root);
    assert_eq!(children.len(), 2);
    assert_eq!(children[0].0, 0xCC);
    assert_eq!(children[1].0, 0xDD);
    assert_eq!(children[0].1.node_type(), NodeType::Leaf);
    assert_eq!(children[1].1.node_type(), NodeType::Leaf);
    assert_eq!(heap.leaf_at(children[0].1).key_bytes(), &[0xAA, 0xBB, 0xCC]);
    assert_eq!(heap.leaf_at(children[1].1).key_bytes(), &[0xAA, 0xBB, 0xDD]);
    assert_eq!(value_of(&heap, Some(root), &[0xAA, 0xBB, 0xCC]), Some(0));
    assert_eq!(value_of(&heap, Some(root), &[0xAA, 0xBB, 0xDD]), Some(1));
    assert_eq!(value_of(&heap, Some(root), &[0xAA, 0xBB]), None);
    assert_eq!(value_of(&heap, Some(root), &[0xAA, 0xBB, 0xCE]), None);
    assert_eq!(heap.live_count(), 3);
}

#[test]
fn node4_grows_to_node16_at_fifth_insert() {
    let mut heap: NodeHeap<usize> = NodeHeap::new();
    let mut root = None;
    for byte in 1u8..=4 {
        let done = heap.insert(root, vec![byte].into_boxed_slice(), byte as usize).ok().unwrap();
        root = Some(done.new_root);
        if byte >= 2 {
            assert_eq!(done.new_root.node_type(), NodeType::Node4);
        }
    }
    assert_eq!(heap.header_at(root.unwrap()).num_children(), 4);
    let done = heap.insert(root, vec![5u8].into_boxed_slice(), 5).ok().unwrap();
    root = Some(done.new_root);
    assert_eq!(done.new_root.node_type(), NodeType::Node16);
    assert_eq!(heap.header_at(done.new_root).num_children(), 5);
    assert_eq!(value_of(&heap, root, &[3]), Some(3));
    for byte in 1u8..=5 {
        assert_eq!(value_of(&heap, root, &[byte]), Some(byte as usize));
    }
    assert_eq!(heap.live_count(), 6);
}

#[test]
fn node_grows_through_every_class() {
    let mut heap: NodeHeap<usize> = NodeHeap::new();
    let mut root = None;
    for byte in 0u16..256 {
        let done = heap
            .insert(root, vec![byte as u8].into_boxed_slice(), byte as usize)
            .ok()
            .unwrap();
        root = Some(done.new_root);
        let expected = match byte + 1 {
            1 => NodeType::Leaf,
            2..=4 => NodeType::Node4,
            5..=16 => NodeType::Node16,
            17..=48 => NodeType::Node48,
            _ => NodeType::Node256,
        };
        assert_eq!(done.new_root.node_type(), expected);
    }
    for byte in 0u16..256 {
        assert_eq!(value_of(&heap, root, &[byte as u8]), Some(byte as usize));
    }
    assert_eq!(heap.live_count(), 257);
    let children = heap.child_entries(root.unwrap());
    assert_eq!(children.len(), 256);
    for (index, pair) in children.iter().enumerate() {
        assert_eq!(pair.0 as usize, index);
    }
}

#[test]
fn overwrite_returns_previous_value() {
    let mut heap: NodeHeap<usize> = NodeHeap::new();
    let done = heap.insert(None, vec![0x10, 0x20].into_boxed_slice(), 7).ok().unwrap();
    assert!(done.previous.is_none());
    let done = heap
        .insert(Some(done.new_root), vec![0x10, 0x20].into_boxed_slice(), 9)
        .ok()
        .unwrap();
    assert_eq!(done.previous, Some(7));
    assert_eq!(value_of(&heap, Some(done.new_root), &[0x10, 0x20]), Some(9));
    assert_eq!(done.new_root.node_type(), NodeType::Leaf);
    assert_eq!(heap.live_count(), 1);
}

#[test]
fn insert_refuses_key_that_is_prefix_of_another() {
    let mut heap: NodeHeap<usize> = NodeHeap::new();
    let done = heap.insert(None, vec![1, 2].into_boxed_slice(), 0).ok().unwrap();
    let root = Some(done.new_root);
    let error = heap.insert(root, vec![1].into_boxed_slice(), 1).err().unwrap();
    assert_eq!(&*error.key, &[1]);
    let error = heap.insert(root, vec![1, 2, 3].into_boxed_slice(), 1).err().unwrap();
    assert_eq!(&*error.key, &[1, 2, 3]);
    let error = heap.insert(root, Vec::new().into_boxed_slice(), 1).err().unwrap();
    assert_eq!(&*error.key, &[] as &[u8]);
    assert_eq!(heap.live_count(), 1);
    assert_eq!(value_of(&heap, root, &[1, 2]), Some(0));
    let done = heap.insert(root, vec![1, 3].into_boxed_slice(), 2).ok().unwrap();
    let root = Some(done.new_root);
    let error = heap.insert(root, vec![1].into_boxed_slice(), 1).err().unwrap();
    assert_eq!(&*error.key, &[1]);
    assert_eq!(value_of(&heap, root, &[1, 3]), Some(2));
}

#[test]
fn long_shared_prefix_overflows_the_header() {
    let mut heap: NodeHeap<usize> = NodeHeap::new();
    let mut first = vec![7u8; 20];
    first.push(1);
    let mut second = vec![7u8; 20];
    second.push(2);
    let root = insert_all(&mut heap, &[first.clone(), second.clone()]).unwrap();
    assert_eq!(root.node_type(), NodeType::Node4);
    assert_eq!(heap.header_at(root).prefix_size(), 20);
    assert_eq!(heap.header_at(root).read_prefix(), &[7u8; 8]);
    assert_eq!(value_of(&heap, Some(root), &first), Some(0));
    assert_eq!(value_of(&heap, Some(root), &second), Some(1));
    // a key that leaves the prefix in the part that is not stored
    let mut third = vec![7u8; 12];
    third.push(9);
    let done = heap.insert(Some(root), third.clone().into_boxed_slice(), 2).ok().unwrap();
    let root = done.new_root;
    assert_eq!(root.node_type(), NodeType::Node4);
    assert_eq!(heap.header_at(root).prefix_size(), 12);
    assert_eq!(heap.header_at(root).read_prefix(), &[7u8; 8]);
    let children = heap.child_entries(root);
    assert_eq!(children.len(), 2);
    assert_eq!(children[0].0, 7);
    assert_eq!(children[1].0, 9);
    assert_eq!(heap.header_at(children[0].1).prefix_size(), 7);
    assert_eq!(heap.header_at(children[0].1).read_prefix(), &[7u8; 7]);
    assert_eq!(value_of(&heap, Some(root), &first), Some(0));
    assert_eq!(value_of(&heap, Some(root), &second), Some(1));
    assert_eq!(value_of(&heap, Some(root), &third), Some(2));
    // a key that differs from the others only where the prefix is not stored
    let mut absent = vec![7u8; 20];
    absent[10] = 8;
    absent.push(1);
    assert_eq!(value_of(&heap, Some(root), &absent), None);
}

use blart::{
    InnerNode, InnerNode16, InnerNode256, InnerNode4, InnerNode48, InnerNodePtr, LeafNode,
    NodeHeap, NodePtr, NodeType, OpaqueNodePtr, TryFromByteError,
};

#[test]
fn opaque_pointer_carries_class_in_low_bits() {
    let leaf: NodePtr<LeafNode<u32>> = NodePtr::new(64);
    let opaque = leaf.to_opaque();
    assert_eq!(opaque.0, 64 + 0b100);
    assert_eq!(opaque.node_type(), NodeType::Leaf);
    let node4: NodePtr<InnerNode4<u32>> = NodePtr::new(8);
    assert_eq!(node4.to_opaque().0, 8);
    assert_eq!(node4.to_opaque().node_type(), NodeType::Node4);
    let node16: NodePtr<InnerNode16<u32>> = NodePtr::new(16);
    assert_eq!(node16.to_opaque().0, 16 + 0b001);
    let node48: NodePtr<InnerNode48<u32>> = NodePtr::new(24);
    assert_eq!(node48.to_opaque().0, 24 + 0b010);
    let node256: NodePtr<InnerNode256<u32>> = NodePtr::new(32);
    assert_eq!(node256.to_opaque().0, 32 + 0b011);
    assert_eq!(OpaqueNodePtr::new(node256).0, 35);
}

#[test]
fn opaque_pointer_is_and_cast() {
    let pointer: NodePtr<InnerNode48<u32>> = NodePtr::new(800);
    let opaque = pointer.to_opaque();
    assert!(opaque.is::<InnerNode48<u32>>());
    assert!(!opaque.is::<InnerNode4<u32>>());
    assert!(!opaque.is::<InnerNode16<u32>>());
    assert!(!opaque.is::<InnerNode256<u32>>());
    assert!(!opaque.is::<LeafNode<u32>>());
    assert_eq!(opaque.cast::<InnerNode48<u32>>().unwrap().to_ptr(), 800);
    assert!(opaque.cast::<LeafNode<u32>>().is_none());
    assert!(opaque.cast::<InnerNode4<u32>>().is_none());
    assert_eq!(pointer.to_ptr(), 800);
}

#[test]
fn opaque_pointer_to_node_ptr() {
    let pointer: NodePtr<InnerNode16<u32>> = NodePtr::new(40);
    match pointer.to_opaque().to_node_ptr() {
        InnerNodePtr::Node16(typed) => assert_eq!(typed.to_ptr(), 40),
        _ => panic!("unexpected class"),
    }
    let pointer: NodePtr<LeafNode<u32>> = NodePtr::new(48);
    match pointer.to_opaque().to_node_ptr() {
        InnerNodePtr::LeafNode(typed) => assert_eq!(typed.to_ptr(), 48),
        _ => panic!("unexpected class"),
    }
}

#[test]
fn pointers_compare_by_word() {
    let first: NodePtr<LeafNode<u32>> = NodePtr::new(64);
    let second: NodePtr<LeafNode<u32>> = NodePtr::new(64);
    let third: NodePtr<LeafNode<u32>> = NodePtr::new(72);
    assert!(first == second);
    assert!(!(first == third));
    assert!(first.to_opaque() == second.to_opaque());
    assert!(!(first.to_opaque() == third.to_opaque()));
    let copy = first;
    assert!(copy == first);
    let inner: NodePtr<InnerNode4<u32>> = NodePtr::new(64);
    assert!(!(inner.to_opaque() == first.to_opaque()));
}

#[test]
fn allocate_read_write_release() {
    let mut heap: NodeHeap<u32> = NodeHeap::new();
    let leaf = NodePtr::allocate_node(&mut heap, LeafNode::new(vec![1, 2].into_boxed_slice(), 7));
    assert_eq!(heap.live_count(), 1);
    assert_eq!(leaf.to_ptr() % 8, 0);
    assert!(leaf.to_ptr() != 0);
    assert_eq!(leaf.as_ref(&heap).value, 7);
    assert!(leaf.as_ref(&heap).matches_key(&[1, 2]));
    assert!(!leaf.as_ref(&heap).matches_key(&[1]));
    assert!(!leaf.as_ref(&heap).matches_key(&[1, 2, 3]));
    assert!(!leaf.as_ref(&heap).matches_key(&[1, 3]));
    leaf.as_mut(&mut heap).value = 9;
    assert_eq!(leaf.as_ref(&heap).value, 9);

    let mut node = InnerNode4::empty();
    node.write_child(5, leaf.to_opaque());
    let inner = NodePtr::allocate_node(&mut heap, node);
    assert_eq!(heap.live_count(), 2);
    assert!(inner.to_ptr() != leaf.to_ptr());
    assert_eq!(inner.as_ref(&heap).lookup_child(5).unwrap().0, leaf.to_opaque().0);
    assert_eq!(inner.to_opaque().node_type(), NodeType::Node4);

    let released = NodePtr::deallocate_node(&mut heap, leaf);
    assert_eq!(released.value, 9);
    assert_eq!(&*released.key, &[1, 2]);
    assert_eq!(heap.live_count(), 1);
    let released = NodePtr::deallocate_node(&mut heap, inner);
    assert_eq!(released.header.num_children(), 1);
    assert_eq!(heap.live_count(), 0);
}

#[test]
fn try_from_byte_error_message() {
    let error = TryFromByteError(48, 1000);
    assert_eq!(
        error.message(),
        "Input value [1000] is greater than the allowed maximum [48] for PartialNodeIndex."
    );
    let error = TryFromByteError(1, 0);
    assert_eq!(
        error.message(),
        "Input value [0] is greater than the allowed maximum [1] for PartialNodeIndex."
    );
}

#[test]
fn try_allocate_node_allocates_where_the_heap_has_room() {
    let mut heap: NodeHeap<u32> = NodeHeap::new();
    assert!(heap.spare_capacity() >= 1);
    let leaf = NodePtr::try_allocate_node(&mut heap, LeafNode::new(vec![3].into_boxed_slice(), 1));
    let leaf = leaf.ok().unwrap();
    assert_eq!(heap.live_count(), 1);
    assert_eq!(leaf.to_ptr() % 8, 0);
    assert!(leaf.to_ptr() != 0);
    assert_eq!(leaf.read(&heap).value, 1);
    assert!(leaf.read(&heap).matches_key(&[3]));
    let second = NodePtr::allocate_node(&mut heap, LeafNode::new(vec![4].into_boxed_slice(), 2));
    assert!(second.to_ptr() != leaf.to_ptr());
    assert_eq!(second.to_ptr() % 8, 0);
    assert_eq!(heap.live_count(), 2);
    assert_eq!(leaf.read(&heap).value, 1);
    assert_eq!(second.read(&heap).value, 2);
}

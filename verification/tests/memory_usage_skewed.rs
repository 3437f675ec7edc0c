use blart::tests_common::generate_keys_skewed;
use blart::{NodeHeap, NodeType, OpaqueNodePtr};

#[test]
fn test_memory_usage() {
    const KEY_LENGTH_LIMIT: usize = u8::MAX as usize;

    let keys: Vec<_> = generate_keys_skewed(KEY_LENGTH_LIMIT);
    assert_eq!(keys.len(), KEY_LENGTH_LIMIT);

    let mut heap: NodeHeap<usize> = NodeHeap::new();
    assert_eq!(heap.live_count(), 0);

    let mut max_blocks = 0;
    {
        let mut keys = keys.into_iter();
        let mut current_root: OpaqueNodePtr<usize> =
            heap.insert(None, keys.next().unwrap(), 0).ok().unwrap().new_root;
        max_blocks = max_blocks.max(heap.live_count());

        for (idx, key) in keys.enumerate() {
            assert!(heap.spare_capacity() >= 2);
            current_root = heap
                .insert(Some(current_root), key, idx + 1)
                .ok()
                .unwrap()
                .new_root;
            max_blocks = max_blocks.max(heap.live_count());
        }

        for (value, key) in generate_keys_skewed(KEY_LENGTH_LIMIT).into_iter().enumerate() {
            let search_result = heap.search(Some(current_root), key.as_ref());

            assert_eq!(search_result.unwrap().read(&heap).value, value);
        }

        // every inner node of this tree has two children
        assert_eq!(current_root.node_type(), NodeType::Node4);

        heap.deallocate_tree(Some(current_root));
    }

    assert_eq!(heap.live_count(), 0);
    // 255 leaves and 254 inner nodes
    assert_eq!(max_blocks, 509);
    assert!(max_blocks <= 511);
}

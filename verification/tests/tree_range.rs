use blart::tests_common::generate_key_fixed_length;
use blart::tree::range::key_less;
use blart::{NodeHeap, OpaqueNodePtr};

fn insert_all(heap: &mut NodeHeap<usize>, keys: &[Box<[u8]>]) -> Option<OpaqueNodePtr<usize>> {
    let mut root = None;
    for (index, key) in keys.iter().enumerate() {
        assert!(heap.spare_capacity() >= 2);
        let done = heap.insert(root, key.clone(), index).ok().unwrap();
        root = Some(done.new_root);
    }
    root
}

#[test]
fn key_less_is_the_order_of_byte_strings() {
    assert!(key_less(&[1, 2], &[1, 3]));
    assert!(!key_less(&[1, 3], &[1, 2]));
    assert!(key_less(&[1], &[1, 0]));
    assert!(!key_less(&[1, 0], &[1]));
    assert!(key_less(&[], &[0]));
    assert!(!key_less(&[], &[]));
    assert!(!key_less(&[5, 5], &[5, 5]));
    assert!(key_less(&[0, 255, 255], &[1]));
    assert!(!key_less(&[2], &[1, 255]));
}

#[test]
fn range_gives_keys_between_bounds_in_order() {
    let keys = generate_key_fixed_length(2, 3);
    let mut shuffled = keys.clone();
    shuffled.reverse();
    shuffled.rotate_left(5);
    let mut heap: NodeHeap<usize> = NodeHeap::new();
    let root = insert_all(&mut heap, &shuffled);

    let found = heap.range(root, &[85, 0], &[170, 85]);
    let wanted: Vec<Vec<u8>> = vec![
        vec![85, 0],
        vec![85, 85],
        vec![85, 170],
        vec![85, 255],
        vec![170, 0],
        vec![170, 85],
    ];
    assert_eq!(found, wanted);

    // bounds that are no keys of the tree
    let found = heap.range(root, &[85, 1], &[170]);
    let wanted: Vec<Vec<u8>> = vec![vec![85, 85], vec![85, 170], vec![85, 255]];
    assert_eq!(found, wanted);

    // everything
    let found = heap.range(root, &[], &[255, 255, 255]);
    assert_eq!(found.len(), 16);
    for (key, wanted) in found.iter().zip(keys.iter()) {
        assert_eq!(key.as_slice(), wanted.as_ref());
    }

    // one key
    assert_eq!(heap.range(root, &[170, 170], &[170, 170]), vec![vec![170u8, 170]]);
    // nothing: no key between the bounds, and bounds the wrong way round
    assert!(heap.range(root, &[0, 1], &[0, 84]).is_empty());
    assert!(heap.range(root, &[170, 0], &[85, 0]).is_empty());
    assert!(heap.range(root, &[255, 255, 0], &[255, 255, 9]).is_empty());
}

#[test]
fn range_of_empty_tree_is_empty() {
    let heap: NodeHeap<usize> = NodeHeap::new();
    assert!(heap.range(None, &[], &[255]).is_empty());
}

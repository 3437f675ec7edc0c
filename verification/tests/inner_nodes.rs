use blart::{
    try_write_child, InnerNode, InnerNode16, InnerNode256, InnerNode4, InnerNode48, LeafNode,
    NodePtr, OpaqueNodePtr,
};

fn pointer(address: usize) -> OpaqueNodePtr<u32> {
    NodePtr::<LeafNode<u32>>::new(address * 8).to_opaque()
}

fn keys_of(pairs: &[(u8, OpaqueNodePtr<u32>)]) -> Vec<u8> {
    pairs.iter().map(|pair| pair.0).collect()
}

fn words_of(pairs: &[(u8, OpaqueNodePtr<u32>)]) -> Vec<usize> {
    pairs.iter().map(|pair| pair.1 .0).collect()
}

#[test]
fn node4_keeps_keys_in_ascending_order() {
    let mut node: InnerNode4<u32> = InnerNode4::empty();
    assert!(node.first_child().is_none());
    assert!(node.last_child().is_none());
    assert!(node.lookup_child(3).is_none());
    node.write_child(3, pointer(1));
    node.write_child(1, pointer(2));
    node.write_child(255, pointer(3));
    assert!(!node.is_full());
    node.write_child(2, pointer(4));
    assert!(node.is_full());
    assert_eq!(node.header().num_children(), 4);
    assert_eq!(keys_of(&node.iter()), vec![1, 2, 3, 255]);
    assert_eq!(
        words_of(&node.iter()),
        vec![pointer(2).0, pointer(4).0, pointer(1).0, pointer(3).0]
    );
    let (keys, children) = node.initialized_portion();
    assert_eq!(keys, &[1, 2, 3, 255]);
    assert_eq!(children.len(), 4);
    assert_eq!(node.lookup_child(3).unwrap().0, pointer(1).0);
    assert_eq!(node.lookup_child(255).unwrap().0, pointer(3).0);
    assert!(node.lookup_child(4).is_none());
    assert_eq!(node.first_child().unwrap().0, pointer(2).0);
    assert_eq!(node.last_child().unwrap().0, pointer(3).0);
}

#[test]
fn node4_overwrites_existing_key() {
    let mut node: InnerNode4<u32> = InnerNode4::empty();
    for key in [10u8, 20, 30, 40] {
        node.write_child(key, pointer(key as usize));
    }
    assert!(node.is_full());
    node.write_child(20, pointer(99));
    assert_eq!(node.header().num_children(), 4);
    assert_eq!(node.lookup_child(20).unwrap().0, pointer(99).0);
    assert_eq!(keys_of(&node.iter()), vec![10, 20, 30, 40]);
}

#[test]
fn node4_remove_child_shifts_tail() {
    let mut node: InnerNode4<u32> = InnerNode4::empty();
    for key in [10u8, 20, 30] {
        node.write_child(key, pointer(key as usize));
    }
    assert!(node.remove_child(25).is_none());
    assert_eq!(node.remove_child(10).unwrap().0, pointer(10).0);
    assert_eq!(keys_of(&node.iter()), vec![20, 30]);
    assert_eq!(node.header().num_children(), 2);
    assert_eq!(node.lookup_child(30).unwrap().0, pointer(30).0);
    assert_eq!(node.remove_child(30).unwrap().0, pointer(30).0);
    assert_eq!(keys_of(&node.iter()), vec![20]);
}

#[test]
fn node4_grows_into_node16_with_same_children_and_header() {
    let mut node: InnerNode4<u32> = InnerNode4::empty();
    node.header_mut().write_prefix(&[7, 8, 9]);
    for key in [4u8, 3, 2, 1] {
        node.write_child(key, pointer(key as usize));
    }
    let grown: InnerNode16<u32> = node.grow();
    assert_eq!(grown.header().read_prefix(), &[7, 8, 9]);
    assert_eq!(grown.header().num_children(), 4);
    assert!(!grown.is_full());
    assert_eq!(keys_of(&grown.iter()), vec![1, 2, 3, 4]);
    assert_eq!(words_of(&grown.iter()), words_of(&node.iter()));
    let shrunk: InnerNode4<u32> = grown.shrink();
    assert_eq!(keys_of(&shrunk.iter()), vec![1, 2, 3, 4]);
    assert_eq!(words_of(&shrunk.iter()), words_of(&node.iter()));
    assert_eq!(shrunk.header().read_prefix(), &[7, 8, 9]);
}

#[test]
fn node16_grows_into_node48() {
    let mut node: InnerNode16<u32> = InnerNode16::empty();
    node.header_mut().write_prefix(&[1]);
    let keys: Vec<u8> = (0..16).map(|i| 250 - 15 * i as u8).collect();
    for key in &keys {
        node.write_child(*key, pointer(*key as usize + 1));
    }
    assert!(node.is_full());
    assert_eq!(node.first_child().unwrap().0, pointer(26).0);
    assert_eq!(node.last_child().unwrap().0, pointer(251).0);
    let grown: InnerNode48<u32> = node.grow();
    assert_eq!(grown.header().num_children(), 16);
    assert_eq!(grown.header().read_prefix(), &[1]);
    for key in &keys {
        assert_eq!(grown.lookup_child(*key).unwrap().0, pointer(*key as usize + 1).0);
    }
    assert!(grown.lookup_child(0).is_none());
    assert_eq!(words_of(&grown.entries()), words_of(&node.iter()));
    assert_eq!(keys_of(&grown.entries()), keys_of(&node.iter()));
    let shrunk = grown.shrink();
    assert_eq!(keys_of(&shrunk.iter()), keys_of(&node.iter()));
}

#[test]
fn node48_iterates_from_both_ends() {
    let mut node: InnerNode48<u32> = InnerNode48::empty();
    for key in [200u8, 5, 100, 0, 255] {
        node.write_child(key, pointer(key as usize + 1));
    }
    assert_eq!(node.initialized_child_pointers().len(), 5);
    let mut iter = node.iter();
    assert_eq!(iter.next().map(|pair| pair.0), Some(0));
    assert_eq!(iter.next_back().map(|pair| pair.0), Some(255));
    assert_eq!(iter.next().map(|pair| (pair.0, pair.1 .0)), Some((5, pointer(6).0)));
    assert_eq!(iter.next_back().map(|pair| pair.0), Some(200));
    assert_eq!(iter.next().map(|pair| pair.0), Some(100));
    assert!(iter.next().is_none());
    assert!(iter.next_back().is_none());
    assert_eq!(node.first_child().unwrap().0, pointer(1).0);
    assert_eq!(node.last_child().unwrap().0, pointer(256).0);
}

#[test]
fn node48_remove_keeps_places_together() {
    let mut node: InnerNode48<u32> = InnerNode48::empty();
    for key in 0u8..48 {
        node.write_child(key.wrapping_mul(5), pointer(key as usize + 1));
    }
    assert!(node.is_full());
    node.write_child(10, pointer(500));
    assert_eq!(node.header().num_children(), 48);
    assert_eq!(node.remove_child(0).unwrap().0, pointer(1).0);
    assert!(node.remove_child(0).is_none());
    assert!(node.remove_child(1).is_none());
    assert_eq!(node.header().num_children(), 47);
    assert!(!node.is_full());
    node.write_child(1, pointer(600));
    assert_eq!(node.header().num_children(), 48);
    assert_eq!(node.lookup_child(1).unwrap().0, pointer(600).0);
    assert_eq!(node.lookup_child(10).unwrap().0, pointer(500).0);
    for key in 3u8..48 {
        assert_eq!(
            node.lookup_child(key.wrapping_mul(5)).unwrap().0,
            pointer(key as usize + 1).0
        );
    }
    let grown: InnerNode256<u32> = node.grow();
    assert_eq!(grown.header().num_children(), 48);
    assert_eq!(words_of(&grown.iter()), words_of(&node.entries()));
    assert_eq!(keys_of(&grown.iter()), keys_of(&node.entries()));
}

#[test]
fn node256_maps_every_byte() {
    let mut node: InnerNode256<u32> = InnerNode256::empty();
    assert!(node.first_child().is_none());
    for key in 0u16..256 {
        node.write_child(key as u8, pointer(key as usize + 1));
    }
    assert!(node.is_full());
    node.write_child(7, pointer(1000));
    assert_eq!(node.header().num_children(), 256);
    assert_eq!(node.lookup_child(7).unwrap().0, pointer(1000).0);
    assert_eq!(node.first_child().unwrap().0, pointer(1).0);
    assert_eq!(node.last_child().unwrap().0, pointer(256).0);
    assert_eq!(node.remove_child(255).unwrap().0, pointer(256).0);
    assert!(node.remove_child(255).is_none());
    assert_eq!(node.last_child().unwrap().0, pointer(255).0);
    assert_eq!(node.header().num_children(), 255);
    assert_eq!(node.iter().len(), 255);
    for key in 48u16..255 {
        node.remove_child(key as u8);
    }
    let shrunk: InnerNode48<u32> = node.shrink();
    assert_eq!(shrunk.header().num_children(), 48);
    assert_eq!(keys_of(&shrunk.entries()), (0u8..48).collect::<Vec<u8>>());
    assert_eq!(shrunk.lookup_child(7).unwrap().0, pointer(1000).0);
}

#[test]
fn full_node_refuses_a_new_key_and_stays_as_it_is() {
    let mut node: InnerNode4<u32> = InnerNode4::empty();
    for key in [10u8, 20, 30, 40] {
        assert!(try_write_child(&mut node, key, pointer(key as usize)));
    }
    assert!(node.is_full());
    assert!(!try_write_child(&mut node, 25, pointer(99)));
    assert_eq!(node.header().num_children(), 4);
    assert_eq!(keys_of(&node.iter()), vec![10, 20, 30, 40]);
    assert_eq!(
        words_of(&node.iter()),
        vec![pointer(10).0, pointer(20).0, pointer(30).0, pointer(40).0]
    );
    // a key that the node has is written, full or not
    assert!(try_write_child(&mut node, 30, pointer(77)));
    assert_eq!(node.lookup_child(30).unwrap().0, pointer(77).0);
    assert_eq!(node.header().num_children(), 4);

    let mut node: InnerNode16<u32> = InnerNode16::empty();
    for key in 0u8..16 {
        assert!(try_write_child(&mut node, key * 2, pointer(key as usize + 1)));
    }
    assert!(!try_write_child(&mut node, 1, pointer(99)));
    assert_eq!(node.header().num_children(), 16);
    assert!(node.lookup_child(1).is_none());

    let mut node: InnerNode48<u32> = InnerNode48::empty();
    for key in 0u8..48 {
        assert!(try_write_child(&mut node, key, pointer(key as usize + 1)));
    }
    assert!(!try_write_child(&mut node, 200, pointer(99)));
    assert_eq!(node.header().num_children(), 48);
    assert_eq!(node.child_indices[200].to_u8(), 48);
    assert!(node.lookup_child(200).is_none());
    assert_eq!(node.lookup_child(47).unwrap().0, pointer(48).0);

    let mut node: InnerNode256<u32> = InnerNode256::empty();
    for key in 0u16..256 {
        assert!(try_write_child(&mut node, key as u8, pointer(key as usize + 1)));
    }
    assert!(node.is_full());
    assert!(try_write_child(&mut node, 3, pointer(500)));
    assert_eq!(node.header().num_children(), 256);
}

#[test]
fn node48_puts_a_new_key_into_the_first_place_not_in_use() {
    let mut node: InnerNode48<u32> = InnerNode48::empty();
    for (count, key) in [200u8, 5, 100].iter().enumerate() {
        node.write_child(*key, pointer(*key as usize + 1));
        assert_eq!(node.child_indices[*key as usize].to_u8() as usize, count);
        assert_eq!(node.child_pointers[count].unwrap().0, pointer(*key as usize + 1).0);
    }
    // a key that is there keeps its place
    node.write_child(5, pointer(900));
    assert_eq!(node.child_indices[5].to_u8(), 1);
    assert_eq!(node.child_pointers[1].unwrap().0, pointer(900).0);
    assert_eq!(node.child_indices[200].to_u8(), 0);
    assert_eq!(node.child_indices[100].to_u8(), 2);
    assert_eq!(node.child_indices[6].to_u8(), 48);
    assert!(node.child_pointers[3].is_none());
}

#[test]
fn node16_grows_with_children_in_their_places() {
    let mut node: InnerNode16<u32> = InnerNode16::empty();
    for key in [9u8, 3, 250, 70, 71] {
        node.write_child(key, pointer(key as usize + 1));
    }
    let grown: InnerNode48<u32> = node.grow();
    let sorted = [3u8, 9, 70, 71, 250];
    for (place, key) in sorted.iter().enumerate() {
        assert_eq!(grown.child_indices[*key as usize].to_u8() as usize, place);
        assert_eq!(grown.child_pointers[place].unwrap().0, pointer(*key as usize + 1).0);
        assert_eq!(node.child_pointers[place].unwrap().0, pointer(*key as usize + 1).0);
    }
    for key in 0u16..256 {
        if !sorted.contains(&(key as u8)) {
            assert_eq!(grown.child_indices[key as usize].to_u8(), 48);
        }
    }
    for place in 5..48 {
        assert!(grown.child_pointers[place].is_none());
    }
}

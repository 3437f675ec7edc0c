use blart::{NodeType, RestrictedNodeIndex, TryFromByteError};

#[test]
fn node_type_tags_are_stable() {
    assert_eq!(NodeType::Node4.to_u8(), 0b000);
    assert_eq!(NodeType::Node16.to_u8(), 0b001);
    assert_eq!(NodeType::Node48.to_u8(), 0b010);
    assert_eq!(NodeType::Node256.to_u8(), 0b011);
    assert_eq!(NodeType::Leaf.to_u8(), 0b100);
}

#[test]
fn node_type_from_u8_round_trips() {
    assert_eq!(NodeType::from_u8(0), Some(NodeType::Node4));
    assert_eq!(NodeType::from_u8(1), Some(NodeType::Node16));
    assert_eq!(NodeType::from_u8(2), Some(NodeType::Node48));
    assert_eq!(NodeType::from_u8(3), Some(NodeType::Node256));
    assert_eq!(NodeType::from_u8(4), Some(NodeType::Leaf));
    assert_eq!(NodeType::from_u8(5), None);
    assert_eq!(NodeType::from_u8(255), None);
}

#[test]
fn node_type_capacities() {
    assert_eq!(NodeType::Node4.upper_capacity(), 4);
    assert_eq!(NodeType::Node16.upper_capacity(), 16);
    assert_eq!(NodeType::Node48.upper_capacity(), 48);
    assert_eq!(NodeType::Node256.upper_capacity(), 256);
    assert_eq!(NodeType::Leaf.upper_capacity(), 0);
    assert_eq!(NodeType::Node4.lower_capacity(), 2);
    assert_eq!(NodeType::Node16.lower_capacity(), 5);
    assert_eq!(NodeType::Node48.lower_capacity(), 17);
    assert_eq!(NodeType::Node256.lower_capacity(), 49);
}

#[test]
fn restricted_index_accepts_values_below_limit() {
    let index = RestrictedNodeIndex::<48>::try_from(47).unwrap();
    assert_eq!(index.to_u8(), 47);
    let index = RestrictedNodeIndex::<48>::try_from(0).unwrap();
    assert_eq!(index.to_u8(), 0);
}

#[test]
fn restricted_index_rejects_limit_and_above() {
    assert_eq!(
        RestrictedNodeIndex::<48>::try_from(48).unwrap_err(),
        TryFromByteError(48, 48)
    );
    let error = RestrictedNodeIndex::<48>::try_from(1000).unwrap_err();
    assert_eq!(error.limit(), 48);
    assert_eq!(error.value(), 1000);
    assert_eq!(RestrictedNodeIndex::<48>::empty().to_u8(), 48);
}

use blart::tests_common::{
    check_expansions, expansion_indices_in_bounds, expansion_indices_unique,
    expansion_lengths_positive, generate_key_fixed_length, generate_key_with_prefix,
    generate_keys_skewed, number_of_keys, PrefixExpansion,
};

#[test]
fn skewed_keys_grow_by_one_zero() {
    let keys = generate_keys_skewed(10);
    assert_eq!(keys.len(), 10);
    assert_eq!(keys[0].as_ref(), &[255]);
    assert_eq!(keys[1].as_ref(), &[0, 255]);
    assert_eq!(keys[2].as_ref(), &[0, 0, 255]);
    assert_eq!(keys[keys.len() - 1].as_ref(), &[0, 0, 0, 0, 0, 0, 0, 0, 0, 255]);
    for (index, key) in keys.iter().enumerate() {
        assert_eq!(key.len(), index + 1);
        assert!(key[..index].iter().all(|byte| *byte == 0));
        assert_eq!(key[index], 255);
    }
}

#[test]
fn skewed_keys_single() {
    let keys = generate_keys_skewed(1);
    assert_eq!(keys.len(), 1);
    assert_eq!(keys[0].as_ref(), &[255]);
}

#[test]
fn fixed_length_keys_enumerate_alphabet() {
    let keys = generate_key_fixed_length(3, 2);
    assert_eq!(keys.len(), 27);
    assert_eq!(keys[0].as_ref(), &[0, 0, 0]);
    assert_eq!(keys[1].as_ref(), &[0, 0, 128]);
    assert_eq!(keys[2].as_ref(), &[0, 0, 255]);
    assert_eq!(keys[3].as_ref(), &[0, 128, 0]);
    assert_eq!(keys[9].as_ref(), &[128, 0, 0]);
    assert_eq!(keys[keys.len() / 2].as_ref(), &[128, 128, 128]);
    assert_eq!(keys[keys.len() - 1].as_ref(), &[255, 255, 255]);
    let mut sorted = keys.clone();
    sorted.sort();
    sorted.dedup();
    assert_eq!(sorted, keys);
}

#[test]
fn fixed_length_keys_with_one_stop() {
    let keys = generate_key_fixed_length(2, 1);
    let expected: Vec<Vec<u8>> = vec![vec![0, 0], vec![0, 255], vec![255, 0], vec![255, 255]];
    assert_eq!(keys.len(), 4);
    for (key, wanted) in keys.iter().zip(expected.iter()) {
        assert_eq!(key.as_ref(), wanted.as_slice());
    }
}

#[test]
fn fixed_length_keys_with_uneven_step() {
    // 255 / 4 rounds up to 64: the digits are 0, 64, 128, 192 and 255
    let keys = generate_key_fixed_length(1, 4);
    let digits: Vec<u8> = keys.iter().map(|key| key[0]).collect();
    assert_eq!(digits, vec![0, 64, 128, 192, 255]);
    // 255 / 200 rounds up to 2: the even numbers, then 255
    let keys = generate_key_fixed_length(1, 200);
    assert_eq!(keys.len(), 129);
    assert_eq!(keys[1].as_ref(), &[2]);
    assert_eq!(keys[127].as_ref(), &[254]);
    assert_eq!(keys[128].as_ref(), &[255]);
    // a step of one gives every byte
    let keys = generate_key_fixed_length(1, 255);
    assert_eq!(keys.len(), 256);
    for (index, key) in keys.iter().enumerate() {
        assert_eq!(key.as_ref(), &[index as u8]);
    }
}

#[test]
fn keys_with_prefix_repeat_the_named_place() {
    let expansions = [PrefixExpansion { base_index: 0, expanded_length: 3 }];
    assert!(check_expansions(3, &expansions));
    let keys = generate_key_with_prefix(3, 2, &expansions);
    assert_eq!(keys.len(), 27);
    assert_eq!(keys[0].as_ref(), &[0, 0, 0, 0, 0]);
    assert_eq!(keys[(keys.len() / 2) - 2].as_ref(), &[128, 128, 128, 0, 255]);
    assert_eq!(keys[keys.len() - 1].as_ref(), &[255, 255, 255, 255, 255]);
    assert_eq!(keys[8].as_ref(), &[0, 0, 0, 255, 255]);
    assert_eq!(keys[9].as_ref(), &[128, 128, 128, 0, 0]);
}

#[test]
fn keys_with_prefix_take_expansions_in_any_order() {
    let expansions = [
        PrefixExpansion { base_index: 2, expanded_length: 2 },
        PrefixExpansion { base_index: 0, expanded_length: 1 },
        PrefixExpansion { base_index: 1, expanded_length: 4 },
    ];
    assert!(check_expansions(3, &expansions));
    let keys = generate_key_with_prefix(3, 1, &expansions);
    assert_eq!(keys.len(), 8);
    assert_eq!(keys[0].as_ref(), &[0, 0, 0, 0, 0, 0, 0]);
    assert_eq!(keys[1].as_ref(), &[0, 0, 0, 0, 0, 255, 255]);
    assert_eq!(keys[2].as_ref(), &[0, 255, 255, 255, 255, 0, 0]);
    assert_eq!(keys[5].as_ref(), &[255, 0, 0, 0, 0, 255, 255]);
    assert_eq!(keys[7].as_ref(), &[255, 255, 255, 255, 255, 255, 255]);
}

#[test]
fn keys_with_no_expansion_are_the_fixed_length_keys() {
    let plain = generate_key_fixed_length(2, 3);
    let expanded = generate_key_with_prefix(2, 3, &[]);
    assert_eq!(plain, expanded);
    assert_eq!(plain.len(), 16);
}

#[test]
fn expansions_are_checked() {
    let good = PrefixExpansion { base_index: 1, expanded_length: 2 };
    assert!(check_expansions(2, &[good]));
    assert!(check_expansions(2, &[]));
    // a place outside of the key
    assert!(!check_expansions(1, &[good]));
    // a byte repeated zero times
    assert!(!check_expansions(2, &[PrefixExpansion { base_index: 0, expanded_length: 0 }]));
    // the same place twice
    assert!(!check_expansions(
        3,
        &[good, PrefixExpansion { base_index: 0, expanded_length: 1 }, good]
    ));
    assert_eq!(good, PrefixExpansion { base_index: 1, expanded_length: 2 });
}

#[test]
fn number_of_keys_is_a_power_of_the_digit_count() {
    assert_eq!(number_of_keys(3, 2), Some(27));
    assert_eq!(number_of_keys(2, 1), Some(4));
    assert_eq!(number_of_keys(1, 4), Some(5));
    assert_eq!(number_of_keys(1, 200), Some(129));
    assert_eq!(number_of_keys(0, 9), Some(1));
    assert_eq!(number_of_keys(2, 255), Some(65536));
    // 256 to the power of 64 does not fit 64 bits
    assert_eq!(number_of_keys(64, 255), None);
    assert_eq!(number_of_keys(usize::MAX, 1), None);
}

#[test]
fn each_fault_of_expansions_is_told_apart() {
    let good = PrefixExpansion { base_index: 1, expanded_length: 2 };
    let empty = PrefixExpansion { base_index: 0, expanded_length: 0 };
    assert!(expansion_indices_in_bounds(2, &[good, empty]));
    assert!(!expansion_indices_in_bounds(1, &[empty, good]));
    assert!(expansion_indices_in_bounds(0, &[]));
    assert!(expansion_lengths_positive(&[good]));
    assert!(!expansion_lengths_positive(&[good, empty]));
    assert!(expansion_indices_unique(&[good, empty]));
    assert!(!expansion_indices_unique(&[good, empty, good]));
    assert!(expansion_indices_unique(&[]));
}

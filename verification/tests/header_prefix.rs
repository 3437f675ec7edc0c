use blart::{Header, NUM_PREFIX_BYTES};

#[test]
fn empty_header_has_no_prefix_and_no_children() {
    let header = Header::empty();
    assert_eq!(header.read_prefix(), &[] as &[u8]);
    assert_eq!(header.prefix_size(), 0);
    assert_eq!(header.num_children(), 0);
    let header = Header::default();
    assert_eq!(header.prefix_size(), 0);
    assert_eq!(NUM_PREFIX_BYTES, 8);
}

#[test]
fn write_prefix_appends() {
    let mut header = Header::empty();
    header.write_prefix(&[1, 2, 3]);
    assert_eq!(header.read_prefix(), &[1, 2, 3]);
    header.write_prefix(&[4, 5]);
    assert_eq!(header.read_prefix(), &[1, 2, 3, 4, 5]);
    assert_eq!(header.prefix_size(), 5);
    header.write_prefix(&[]);
    assert_eq!(header.read_prefix(), &[1, 2, 3, 4, 5]);
}

#[test]
fn write_prefix_truncates_on_overflow() {
    let mut header = Header::empty();
    header.write_prefix(&[1, 2, 3, 4, 5, 6]);
    header.write_prefix(&[7, 8, 9, 10]);
    assert_eq!(header.read_prefix(), &[1, 2, 3, 4, 5, 6, 7, 8]);
    assert_eq!(header.prefix_size(), 10);
    header.write_prefix(&[11]);
    assert_eq!(header.read_prefix(), &[1, 2, 3, 4, 5, 6, 7, 8]);
    assert_eq!(header.prefix_size(), 11);
}

#[test]
fn write_prefix_of_exactly_eight_bytes() {
    let mut header = Header::empty();
    header.write_prefix(&[9, 8, 7, 6, 5, 4, 3, 2]);
    assert_eq!(header.read_prefix(), &[9, 8, 7, 6, 5, 4, 3, 2]);
    assert_eq!(header.prefix_size(), 8);
}

#[test]
fn ltrim_prefix_removes_leading_bytes() {
    let mut header = Header::empty();
    header.write_prefix(&[1, 2, 3, 4, 5]);
    header.ltrim_prefix(2);
    assert_eq!(header.read_prefix(), &[3, 4, 5]);
    assert_eq!(header.prefix_size(), 3);
    header.ltrim_prefix(0);
    assert_eq!(header.read_prefix(), &[3, 4, 5]);
    header.ltrim_prefix(3);
    assert_eq!(header.read_prefix(), &[] as &[u8]);
    assert_eq!(header.prefix_size(), 0);
}

#[test]
fn bytes_behind_a_gap_are_not_stored() {
    let mut header = Header::empty();
    header.write_prefix(&[1, 2, 3, 4, 5, 6, 7, 8, 9, 10]);
    header.ltrim_prefix(6);
    assert_eq!(header.read_prefix(), &[7, 8]);
    assert_eq!(header.prefix_size(), 4);
    // the bytes 9 and 10 are not stored, so nothing can be stored behind them
    header.write_prefix(&[11, 12]);
    assert_eq!(header.read_prefix(), &[7, 8]);
    assert_eq!(header.prefix_size(), 6);
}

#[test]
fn match_prefix_counts_equal_leading_bytes() {
    let mut header = Header::empty();
    header.write_prefix(&[1, 2, 3, 4]);
    assert_eq!(header.match_prefix(&[1, 2, 3, 4]), 4);
    assert_eq!(header.match_prefix(&[1, 2, 3, 4, 5, 6]), 4);
    assert_eq!(header.match_prefix(&[1, 2, 9, 4]), 2);
    assert_eq!(header.match_prefix(&[9, 2, 3, 4]), 0);
    assert_eq!(header.match_prefix(&[1, 2]), 2);
    assert_eq!(header.match_prefix(&[]), 0);
    assert_eq!(Header::empty().match_prefix(&[1, 2]), 0);
}

#[test]
fn match_prefix_looks_at_stored_bytes_only() {
    let mut header = Header::empty();
    header.write_prefix(&[7; 12]);
    assert_eq!(header.match_prefix(&[7; 12]), 8);
    assert_eq!(header.match_prefix(&[7, 7, 7, 1]), 3);
}

#[test]
fn clone_keeps_prefix_and_count() {
    let mut header = Header::empty();
    header.write_prefix(&[4, 5, 6]);
    header.num_children = 3;
    let mut copy = header.clone();
    assert_eq!(copy.read_prefix(), &[4, 5, 6]);
    assert_eq!(copy.prefix_size(), 3);
    assert_eq!(copy.num_children(), 3);
    copy.ltrim_prefix(1);
    assert_eq!(copy.read_prefix(), &[5, 6]);
    assert_eq!(header.read_prefix(), &[4, 5, 6]);
}

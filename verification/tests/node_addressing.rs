use merkle_trie::trie::Trie;

#[test]
fn empty_trie_has_no_children_anywhere() {
    let t = Trie::new();
    assert!(!t.node_has_children(&vec![], None));
    assert!(!t.node_has_children(&vec![1, 2], None));
}

#[test]
fn a_longer_key_makes_children() {
    let mut t = Trie::new();
    t.insert(vec![1, 2], vec![7]);
    assert!(t.node_has_children(&vec![1], None));
    assert!(t.node_has_children(&vec![], None));
    assert!(!t.node_has_children(&vec![1, 2], None));
    assert!(!t.node_has_children(&vec![3], None));
}

#[test]
fn extra_nibble_does_not_narrow_the_children_test() {
    let mut t = Trie::new();
    t.insert(vec![1, 2], vec![7]);
    // The byte-range scan ignores the extra nibble, so every nibble
    // branch of [1] reports children, not only nibble 0x0.
    assert!(t.node_has_children(&vec![1], Some(0x0)));
    assert!(t.node_has_children(&vec![1], Some(0xF)));
}

#[test]
fn key_past_a_full_0xff_byte_is_outside_the_child_range() {
    let mut t = Trie::new();
    t.insert(vec![5, 255, 1], vec![7]);
    // [5, 255, 1] is above the inclusive range end [5, 255].
    assert!(!t.node_has_children(&vec![5], None));
    let mut t2 = Trie::new();
    t2.insert(vec![5, 255], vec![7]);
    assert!(t2.node_has_children(&vec![5], None));
}

#[test]
fn bitmap_at_a_byte_boundary_repeats_the_range_test() {
    let mut t = Trie::new();
    t.insert(vec![0x12], vec![7]);
    // Each bit of the root bitmap asks the same (unscoped) question, so
    // all sixteen bits agree.
    assert_eq!(t.node_children_bitmap(&vec![], None), 0xFFFF);
    assert_eq!(t.node_children_bitmap(&vec![0x12], None), 0x0000);
}

#[test]
fn bitmap_at_a_half_byte_scopes_by_packed_byte() {
    let mut t = Trie::new();
    t.insert(vec![0x12, 0x34, 0x56], vec![7]);
    // Under address ([0x12], extra 0x3), only nibble 0x4's branch, i.e.
    // byte 0x34, leads to a longer key: bit 15 - 4 = 11.
    assert_eq!(t.node_children_bitmap(&vec![0x12], Some(0x3)), 1u16 << 11);
    assert_eq!(t.node_children_bitmap(&vec![0x12], Some(0x7)), 0);
}

#[test]
fn header_of_the_empty_root_is_one_zero_byte() {
    let t = Trie::new();
    assert_eq!(t.node_header(&vec![], None), vec![0x00]);
}

#[test]
fn header_kinds_follow_value_and_children() {
    let mut t = Trie::new();
    t.insert(vec![0xAB], vec![9]);
    // The root's partial key descends to [0xAB], which holds a value and
    // nothing longer: kind 01, two partial-key nibbles.
    assert_eq!(t.node_header(&vec![], None), vec![0x42]);
    // At [0xAB] itself the partial key is empty: kind 01, length 0.
    assert_eq!(t.node_header(&vec![0xAB], None), vec![0x40]);
    // A node whose descended position only has children: kind 10.
    let mut t2 = Trie::new();
    t2.insert(vec![0x12], vec![1]);
    t2.insert(vec![0x12, 0x34], vec![2]);
    // At [0x12] the partial key is empty, a value is stored and a longer
    // key exists: kind 11.
    assert_eq!(t2.node_header(&vec![0x12], None), vec![0xC0]);
}

#[test]
fn long_partial_keys_spill_out_of_the_first_header_byte() {
    let mut t = Trie::new();
    t.insert(vec![7u8; 40], vec![9]);
    // Eighty nibbles: 63 in the first byte, 17 left over; the descended
    // position holds the value, kind 01.
    assert_eq!(t.node_header(&vec![], None), vec![0x7F, 17]);
}

use merkle_trie::trie::Trie;

#[test]
fn empty_trie_has_empty_partial_keys() {
    let t = Trie::new();
    assert_eq!(t.node_partial_key_nibbles(&vec![], None), Vec::<u8>::new());
    assert_eq!(t.node_partial_key_nibbles(&vec![1, 2], None), Vec::<u8>::new());
}

#[test]
fn single_entry_root_partial_key_is_the_whole_key() {
    let mut t = Trie::new();
    t.insert(vec![0xAB], vec![1]);
    assert_eq!(t.node_partial_key_nibbles(&vec![], None), vec![0x0A, 0x0B]);
}

#[test]
fn divergence_bounds_the_partial_key() {
    let mut t = Trie::new();
    t.insert(vec![0x12, 0x70], vec![1]);
    t.insert(vec![0x12, 0x7F], vec![2]);
    // Beyond the byte 0x12, both keys share only the nibble 0x7.
    assert_eq!(t.node_partial_key_nibbles(&vec![0x12], None), vec![0x07]);
}

#[test]
fn a_stored_value_terminates_the_partial_key() {
    let mut t = Trie::new();
    t.insert(vec![0x12], vec![1]);
    t.insert(vec![0x12, 0x34], vec![2]);
    // The entry at [0x12] itself cannot extend past the node, so the
    // common extension is empty.
    assert_eq!(t.node_partial_key_nibbles(&vec![0x12], None), Vec::<u8>::new());
}

#[test]
fn partial_key_at_a_half_byte_address() {
    let mut t = Trie::new();
    t.insert(vec![0x12, 0x34], vec![1]);
    assert_eq!(t.node_partial_key_nibbles(&vec![0x12], Some(0x3)), vec![0x04]);
    assert_eq!(t.node_partial_key_nibbles(&vec![0x12], None), vec![0x03, 0x04]);
}

use merkle_trie::trie::Trie;

#[test]
fn empty_root_is_the_hash_of_header_and_empty_value_prefix() {
    let t = Trie::new();
    let got = t.root_merkle_value();
    let expected = blake2_rfc::blake2b::blake2b(32, &[], &[0x00, 0x00]);
    assert_eq!(got.as_slice(), expected.as_bytes());
}

#[test]
fn single_entry_root_encodes_a_value_only_node() {
    let mut t = Trie::new();
    t.insert(vec![1], vec![2]);
    // Header 0x42: kind 01, two partial-key nibbles.  Packed partial key
    // 0x01.  Value [2] length-prefixed: 0x04 0x02.
    let encoding = vec![0x42, 0x01, 0x04, 0x02];
    assert_eq!(t.node_value(&vec![], None), encoding);
    let got = t.root_merkle_value();
    let expected = blake2_rfc::blake2b::blake2b(32, &[], &encoding);
    assert_eq!(got.as_slice(), expected.as_bytes());
}

#[test]
fn short_nonroot_node_merkle_value_is_its_padded_encoding() {
    let mut t = Trie::new();
    t.insert(vec![1], vec![2]);
    // At [1] the partial key is empty: encoding 0x40 0x04 0x02, padded
    // left with zeros to 32 bytes.
    let got = t.merkle_value(&vec![1], None);
    let mut want = [0u8; 32];
    want[29] = 0x40;
    want[30] = 0x04;
    want[31] = 0x02;
    assert_eq!(got, want);
}

#[test]
fn leaf_subvalue_is_the_length_prefixed_value() {
    let mut t = Trie::new();
    t.insert(vec![0x12, 0x70], vec![9]);
    assert_eq!(t.node_subvalue(&vec![0x12, 0x70], None), vec![0x04, 0x09]);
}

#[test]
fn branch_subvalue_carries_bitmap_children_and_value() {
    let mut t = Trie::new();
    t.insert(vec![0x12, 0x70], vec![9]);
    t.insert(vec![0x12, 0x7F], vec![8]);
    let sub = t.node_subvalue(&vec![0x12], None);
    // Little-endian bitmap, sixteen length-prefixed 32-byte child merkle
    // values, then the (empty) stored value's prefix.
    assert_eq!(sub.len(), 2 + 16 * 33 + 1);
    assert_eq!(&sub[0..2], &[0xFF, 0xFF]);
    for n in 0..16 {
        assert_eq!(sub[2 + 33 * n], 0x80);
    }
    assert_eq!(sub[sub.len() - 1], 0x00);
}

#[test]
fn root_is_independent_of_insertion_order() {
    let mut a = Trie::new();
    a.insert(vec![1, 2], vec![10]);
    a.insert(vec![9], vec![11]);
    a.insert(vec![1], vec![12]);
    let mut b = Trie::new();
    b.insert(vec![1], vec![12]);
    b.insert(vec![9], vec![11]);
    b.insert(vec![1, 2], vec![10]);
    assert_eq!(a.root_merkle_value(), b.root_merkle_value());
    assert_eq!(a.root_merkle_value(), a.root_merkle_value());
}

#[test]
fn root_after_clear_is_the_empty_root() {
    let mut t = Trie::new();
    t.insert(vec![5, 6], vec![7]);
    t.clear();
    let empty = Trie::new();
    assert_eq!(t.root_merkle_value(), empty.root_merkle_value());
    assert!(t.is_empty());
}

#[test]
fn thirty_one_byte_node_encoding_is_padded_with_one_zero() {
    let mut t = Trie::new();
    // Leaf encoding: header 0x40, value length prefix, 29 value bytes.
    let v: Vec<u8> = (1..=29u8).collect();
    t.insert(vec![1], v.clone());
    let got = t.merkle_value(&vec![1], None);
    let mut want = [0u8; 32];
    want[1] = 0x40;
    want[2] = 29 << 2;
    want[3..].copy_from_slice(&v);
    assert_eq!(got, want);
}

#[test]
fn thirty_two_byte_node_encoding_is_hashed() {
    let mut t = Trie::new();
    let v: Vec<u8> = (1..=30u8).collect();
    t.insert(vec![1], v.clone());
    let got = t.merkle_value(&vec![1], None);
    let mut encoding = vec![0x40, 30 << 2];
    encoding.extend_from_slice(&v);
    assert_eq!(encoding.len(), 32);
    let expected = blake2_rfc::blake2b::blake2b(32, &[], &encoding);
    assert_eq!(got.as_slice(), expected.as_bytes());
}

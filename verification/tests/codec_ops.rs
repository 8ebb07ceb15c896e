use merkle_trie::codec::{encode_header, merkle_reduce, pack_pk};
use merkle_trie::nibbles::nibbles_of;

#[test]
fn nibbles_split_bytes_high_first() {
    assert_eq!(nibbles_of(&vec![0xAB, 0x05]), vec![0x0A, 0x0B, 0x00, 0x05]);
    assert_eq!(nibbles_of(&vec![]), Vec::<u8>::new());
}

#[test]
fn one_nibble_partial_key_packs_into_one_byte() {
    // The lone nibble sits in the high half, low nibble zero.
    assert_eq!(pack_pk(&vec![0x07]), vec![0x70]);
    assert_eq!(pack_pk(&vec![0x01]), vec![0x10]);
}

#[test]
fn odd_partial_key_puts_first_nibble_alone() {
    assert_eq!(pack_pk(&vec![0x07, 0x0A, 0x0B]), vec![0x70, 0xAB]);
}

#[test]
fn even_partial_key_packs_in_pairs() {
    assert_eq!(pack_pk(&vec![0x0A, 0x0B]), vec![0xAB]);
    assert_eq!(pack_pk(&vec![]), Vec::<u8>::new());
}

#[test]
fn short_header_is_one_byte() {
    assert_eq!(encode_header(0, 0), vec![0x00]);
    assert_eq!(encode_header(1, 5), vec![0x45]);
    assert_eq!(encode_header(3, 62), vec![0xFE]);
}

#[test]
fn long_header_spills_into_trailing_bytes() {
    assert_eq!(encode_header(1, 63), vec![0x7F, 0x00]);
    assert_eq!(encode_header(2, 63 + 255 + 3), vec![0xBF, 0xFF, 0x03]);
}

#[test]
fn short_nonroot_encoding_is_left_padded() {
    let nv = vec![0x81, 0x07];
    let got = merkle_reduce(&nv, false);
    let mut want = [0u8; 32];
    want[30] = 0x81;
    want[31] = 0x07;
    assert_eq!(got, want);
}

#[test]
fn boundary_encoding_of_32_bytes_is_hashed() {
    let nv: Vec<u8> = (0..32u8).collect();
    let got = merkle_reduce(&nv, false);
    let hash = blake2_rfc::blake2b::blake2b(32, &[], &nv);
    assert_eq!(got.as_slice(), hash.as_bytes());
}

#[test]
fn boundary_encoding_of_31_bytes_is_padded() {
    let nv: Vec<u8> = (1..32u8).collect();
    let got = merkle_reduce(&nv, false);
    let mut want = [0u8; 32];
    want[1..].copy_from_slice(&nv);
    assert_eq!(got, want);
}

#[test]
fn root_is_hashed_even_when_short() {
    let nv = vec![0x00];
    let got = merkle_reduce(&nv, true);
    let hash = blake2_rfc::blake2b::blake2b(32, &[], &nv);
    assert_eq!(got.as_slice(), hash.as_bytes());
}

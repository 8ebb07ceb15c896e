//! Binary building blocks of the node encoding: the node header, the
//! packed partial key, the SCALE length prefix, and the reduction of a
//! node encoding to its 32-byte merkle value.

use vstd::prelude::*;
use crate::nibbles::{spec_path_bytes, valid_nibbles};

verus! {

/// Trailing length bytes of a header whose partial key holds 63 or more
/// nibbles: `255` for every full 255 still to account for, then the rest.
pub open spec fn spec_header_tail(rest: nat) -> Seq<u8>
    decreases rest,
{
    if rest > 255 {
        seq![255u8] + spec_header_tail((rest - 255) as nat)
    } else {
        seq![rest as u8]
    }
}

/// The node header: the two most significant bits of the first byte hold
/// the kind (value bit, children bit), the rest encodes the partial-key
/// nibble count.
pub open spec fn spec_header_bytes(kind: nat, pk_len: nat) -> Seq<u8> {
    if pk_len < 63 {
        seq![(kind * 64 + pk_len) as u8]
    } else {
        seq![(kind * 64 + 63) as u8] + spec_header_tail((pk_len - 63) as nat)
    }
}

/// Packs a partial key into bytes: pairs of nibbles, high first; an odd
/// count puts its first nibble alone into the first byte, in the high
/// half, with the low nibble zero.
pub open spec fn spec_pack_pk(pk: Seq<u8>) -> Seq<u8> {
    if pk.len() % 2 == 0 {
        spec_path_bytes(pk)
    } else {
        seq![(pk[0] * 16) as u8] + spec_path_bytes(pk.subrange(1, pk.len() as int))
    }
}

/// The SCALE compact encoding of a length below 2^32: two low bits select
/// the width, the value sits in the remaining bits, little-endian.
pub open spec fn spec_compact_len(n: nat) -> Seq<u8> {
    if n < 64 {
        seq![(n * 4) as u8]
    } else if n < 16384 {
        seq![((n * 4 + 1) % 256) as u8, ((n * 4 + 1) / 256) as u8]
    } else if n < 1073741824 {
        seq![
            ((n * 4 + 2) % 256) as u8,
            (((n * 4 + 2) / 256) % 256) as u8,
            (((n * 4 + 2) / 65536) % 256) as u8,
            ((n * 4 + 2) / 16777216) as u8,
        ]
    } else {
        seq![
            3u8,
            (n % 256) as u8,
            ((n / 256) % 256) as u8,
            ((n / 65536) % 256) as u8,
            ((n / 16777216) % 256) as u8,
        ]
    }
}

/// The SCALE length-prefixed encoding of a byte string: the compact
/// encoding of its length followed by its bytes.
pub open spec fn spec_scale(b: Seq<u8>) -> Seq<u8> {
    spec_compact_len(b.len()) + b
}

/// Relies on `parity_scale_codec::Encode::encode` for byte slices: it
/// emits the SCALE compact encoding of the length followed by the bytes,
/// and refuses (panics) only when the length exceeds `u32::MAX`.
#[verifier::external_body]
pub fn scale_bytes(b: &Vec<u8>) -> (r: Vec<u8>)
    requires
        b@.len() <= 0xFFFF_FFFF,
    ensures
        r@ == spec_scale(b@),
{
    parity_scale_codec::Encode::encode(&b.as_slice())
}

/// What the 32-byte blake2b digest of a byte string is.  The digest is a
/// function of the input alone; its value is fixed by the outside hash
/// implementation and is not restated here.
pub uninterp spec fn blake2b256_of(data: Seq<u8>) -> Seq<u8>;

/// Relies on `blake2_rfc::blake2b::blake2b` with digest length 32 and an
/// empty key: it returns the 32-byte blake2b digest of `data`.
#[verifier::external_body]
pub fn blake2b_256(data: &Vec<u8>) -> (r: [u8; 32])
    ensures
        r@ == blake2b256_of(data@),
{
    let hash = blake2_rfc::blake2b::blake2b(32, &[], data.as_slice());
    let mut out = [0u8; 32];
    out.copy_from_slice(hash.as_bytes());
    out
}

/// The header for a partial key of `pk_len` nibbles and the given kind
/// bits, computed.
pub fn encode_header(kind: u8, pk_len: usize) -> (r: Vec<u8>)
    requires
        kind < 4,
    ensures
        r@ == spec_header_bytes(kind as nat, pk_len as nat),
{
    let mut r: Vec<u8> = Vec::new();
    if pk_len < 63 {
        r.push(kind * 64 + (pk_len as u8));
        proof {
            assert(r@ =~= spec_header_bytes(kind as nat, pk_len as nat));
        }
    } else {
        r.push(kind * 64 + 63);
        let mut rest: usize = pk_len - 63;
        while rest > 255
            invariant
                r@ + spec_header_tail(rest as nat) == spec_header_bytes(
                    kind as nat,
                    pk_len as nat,
                ),
            decreases rest,
        {
            r.push(255u8);
            rest = rest - 255;
        }
        r.push(rest as u8);
        proof {
            assert(spec_header_tail(rest as nat) =~= seq![rest as u8]);
        }
    }
    r
}

/// The packed form of a partial key, computed.
pub fn pack_pk(pk: &Vec<u8>) -> (r: Vec<u8>)
    requires
        valid_nibbles(pk@),
    ensures
        r@ == spec_pack_pk(pk@),
{
    if pk.len() % 2 == 0 {
        crate::nibbles::path_bytes_of(pk)
    } else {
        let mut r: Vec<u8> = Vec::new();
        let first = pk[0];
        assert(first < 16);
        r.push(first * 16);
        let mut rest: Vec<u8> = Vec::new();
        let mut i: usize = 1;
        while i < pk.len()
            invariant
                1 <= i <= pk.len(),
                rest@ == pk@.subrange(1, i as int),
            decreases pk.len() - i,
        {
            rest.push(pk[i]);
            i = i + 1;
            proof {
                assert(rest@ =~= pk@.subrange(1, i as int));
            }
        }
        let mut tail = crate::nibbles::path_bytes_of(&rest);
        let mut out = r;
        out.append(&mut tail);
        proof {
            assert(out@ =~= spec_pack_pk(pk@));
        }
        out
    }
}

/// The merkle value of a node with the given encoding: the root node is
/// always hashed; any other node is hashed exactly when its encoding is 32
/// bytes or longer, and otherwise is its encoding right-aligned into 32
/// bytes with leading zero padding.
pub open spec fn spec_merkle_reduce(nv: Seq<u8>, is_root: bool) -> Seq<u8> {
    if is_root || nv.len() >= 32 {
        blake2b256_of(nv)
    } else {
        Seq::new((32 - nv.len()) as nat, |i: int| 0u8) + nv
    }
}

/// Reduces a node encoding to its 32-byte merkle value.
pub fn merkle_reduce(node_value: &Vec<u8>, is_root: bool) -> (r: [u8; 32])
    ensures
        r@ == spec_merkle_reduce(node_value@, is_root),
{
    if is_root || node_value.len() >= 32 {
        blake2b_256(node_value)
    } else {
        let mut out = [0u8; 32];
        let pad: usize = 32 - node_value.len();
        let mut i: usize = 0;
        while i < node_value.len()
            invariant
                pad == 32 - node_value@.len(),
                node_value@.len() < 32,
                i <= node_value@.len(),
                out@.len() == 32,
                forall|j: int|
                    0 <= j < 32 ==> out@[j] == if pad <= j < pad + i {
                        node_value@[j - pad]
                    } else {
                        0u8
                    },
            decreases node_value@.len() - i,
        {
            out[pad + i] = node_value[i];
            i = i + 1;
        }
        proof {
            assert(out@ =~= Seq::new((32 - node_value@.len()) as nat, |k: int| 0u8) + node_value@);
        }
        out
    }
}

} // verus!

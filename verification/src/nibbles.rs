//! Nibble (4-bit unit) views of byte strings.
//!
//! A byte is two nibbles, high nibble first.  Conceptual trie nodes are
//! addressed by nibble paths; keys of the store are byte strings.

use vstd::prelude::*;

verus! {

/// The nibble sequence of a byte string: each byte contributes its high
/// nibble and then its low nibble.
pub open spec fn spec_nibbles(k: Seq<u8>) -> Seq<u8> {
    Seq::new(2 * k.len(), |i: int| if i % 2 == 0 {
        (k[i / 2] / 16) as u8
    } else {
        (k[i / 2] % 16) as u8
    })
}

/// The byte string whose nibble sequence is the even-length path `p`.
pub open spec fn spec_path_bytes(p: Seq<u8>) -> Seq<u8> {
    Seq::new(p.len() / 2, |i: int| (p[2 * i] * 16 + p[2 * i + 1]) as u8)
}

/// Every element is a nibble value.
pub open spec fn valid_nibbles(p: Seq<u8>) -> bool {
    forall|i: int| 0 <= i < p.len() ==> p[i] < 16
}

/// The nibble path addressed by a byte key plus an optional extra nibble.
pub open spec fn spec_path(key: Seq<u8>, extra: Option<u8>) -> Seq<u8> {
    match extra {
        Some(n) => spec_nibbles(key).push(n),
        None => spec_nibbles(key),
    }
}

pub proof fn lemma_nibbles_valid(k: Seq<u8>)
    ensures
        valid_nibbles(spec_nibbles(k)),
{
}

/// Packing the nibble sequence of a byte string restores the byte string.
pub proof fn lemma_path_bytes_of_nibbles(k: Seq<u8>)
    ensures
        spec_path_bytes(spec_nibbles(k)) == k,
{
    let nb = spec_nibbles(k);
    assert forall|i: int| 0 <= i < k.len() implies spec_path_bytes(nb)[i] == k[i] by {
        assert(nb[2 * i] == k[i] / 16);
        assert(nb[2 * i + 1] == k[i] % 16);
    }
    assert(spec_path_bytes(nb) =~= k);
}

/// The nibble sequence of a byte string, computed.
pub fn nibbles_of(k: &Vec<u8>) -> (r: Vec<u8>)
    ensures
        r@ == spec_nibbles(k@),
{
    let mut r: Vec<u8> = Vec::new();
    let mut i: usize = 0;
    while i < k.len()
        invariant
            i <= k.len(),
            r@ == spec_nibbles(k@.subrange(0, i as int)),
        decreases k.len() - i,
    {
        let b = k[i];
        let hi = b / 16;
        let lo = b % 16;
        r.push(hi);
        r.push(lo);
        i = i + 1;
        proof {
            let pre = k@.subrange(0, i as int);
            assert(r@ =~= spec_nibbles(pre));
        }
    }
    proof {
        assert(k@.subrange(0, k@.len() as int) =~= k@);
    }
    r
}

/// Packs an even-length nibble path back into bytes, high nibble first.
pub fn path_bytes_of(p: &Vec<u8>) -> (r: Vec<u8>)
    requires
        valid_nibbles(p@),
        p@.len() % 2 == 0,
    ensures
        r@ == spec_path_bytes(p@),
{
    let mut r: Vec<u8> = Vec::new();
    let mut i: usize = 0;
    while i + 1 < p.len()
        invariant
            valid_nibbles(p@),
            p@.len() % 2 == 0,
            i % 2 == 0,
            i <= p.len(),
            r@ == spec_path_bytes(p@).subrange(0, i as int / 2),
        decreases p.len() - i,
    {
        let hi = p[i];
        let lo = p[i + 1];
        assert(hi < 16 && lo < 16);
        r.push(hi * 16 + lo);
        i = i + 2;
        proof {
            assert(r@ =~= spec_path_bytes(p@).subrange(0, i as int / 2));
        }
    }
    proof {
        assert(i == p@.len());
        assert(spec_path_bytes(p@).subrange(0, p@.len() as int / 2) =~= spec_path_bytes(p@));
    }
    r
}

/// True exactly when `p@` is a prefix of `s@`.
pub fn is_prefix(p: &Vec<u8>, s: &Vec<u8>) -> (r: bool)
    ensures
        r == p@.is_prefix_of(s@),
{
    if p.len() > s.len() {
        return false;
    }
    let mut i: usize = 0;
    while i < p.len()
        invariant
            p.len() <= s.len(),
            i <= p.len(),
            forall|j: int| 0 <= j < i ==> p@[j] == s@[j],
        decreases p.len() - i,
    {
        if p[i] != s[i] {
            assert(!p@.is_prefix_of(s@)) by {
                assert(p@[i as int] != s@.subrange(0, p@.len() as int)[i as int]);
            }
            return false;
        }
        i = i + 1;
    }
    proof {
        assert(p@ =~= s@.subrange(0, p@.len() as int));
    }
    true
}

} // verus!

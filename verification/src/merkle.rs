//! The merkleizer: node addressing, partial keys, node encodings, and the
//! recursive 32-byte merkle value of every conceptual trie node.
//!
//! A conceptual node is addressed by a byte key plus an optional extra
//! nibble.  The children test is, by definition, a scan of the byte range
//! from `key ++ 0x00` to `key ++ 0xFF` inclusive: it ignores the extra
//! nibble, and a key that extends `key` by a first byte `0xFF` and then
//! more bytes falls outside the scanned range.  Both edges are binding
//! format behaviour, not artifacts.
//!
//! A node's encoding is assembled at the address *descended* through its
//! partial key: the header's kind bits, the stored value, and the
//! children bitmap are those of the position the partial key leads to,
//! while the children recurse one nibble past that position.  Each child
//! slot of a branch node carries the SCALE length-prefixed 32-byte child
//! merkle value, and the stored value (the empty byte string when there
//! is none) is always appended SCALE length-prefixed, so the encoding of
//! the empty root is the header byte `0x00` followed by `0x00`.

use vstd::prelude::*;
use crate::codec::{
    spec_header_bytes, spec_merkle_reduce, spec_pack_pk, spec_scale,
};
use crate::nibbles::{nibbles_of, is_prefix, spec_nibbles, spec_path, spec_path_bytes, valid_nibbles};
use crate::trie::{map_of, Trie};

verus! {

/// The key `k` lies in the child byte range of the even nibble path `ep`:
/// it extends the bytes of `ep` by at least one byte, and is at most
/// `bytes(ep) ++ 0xFF` in byte-lexicographic order.
pub open spec fn in_child_range(k: Seq<u8>, ep: Seq<u8>) -> bool {
    let kn = spec_nibbles(k);
    &&& kn.len() > ep.len()
    &&& ep.is_prefix_of(kn)
    &&& (kn.len() == ep.len() + 2 || !(kn[ep.len() as int] == 15 && kn[ep.len() as int + 1]
        == 15))
}

/// The even-length front of a nibble path: the nibbles that lie on a byte
/// boundary, dropping a trailing half byte.
pub open spec fn even_front(path: Seq<u8>) -> Seq<u8> {
    path.subrange(0, 2 * (path.len() as int / 2))
}

/// Some stored key lies in the child byte range of the node addressed by
/// `path`.  The range is that of the path's byte-aligned front: a
/// trailing half-byte nibble does not narrow it.
pub open spec fn spec_has_children(m: Map<Seq<u8>, Seq<u8>>, path: Seq<u8>) -> bool {
    exists|k: Seq<u8>| #[trigger] m.dom().contains(k) && in_child_range(k, even_front(path))
}

/// The node at the nibble path `d` holds a stored value: `d` sits on a
/// byte boundary and its bytes are a stored key.
pub open spec fn spec_has_value(m: Map<Seq<u8>, Seq<u8>>, d: Seq<u8>) -> bool {
    d.len() % 2 == 0 && m.dom().contains(spec_path_bytes(d))
}

/// The kind bits of the node at the nibble path `d`: bit 0 for a stored
/// value, bit 1 for children.
pub open spec fn spec_kind_at(m: Map<Seq<u8>, Seq<u8>>, d: Seq<u8>) -> nat {
    (if spec_has_children(m, d) {
        2nat
    } else {
        0nat
    }) + (if spec_has_value(m, d) {
        1nat
    } else {
        0nat
    })
}

/// The children-presence bitmap of the node addressed by `path`, as the
/// value of its first `n` bits: nibble `j`'s child occupies bit `15 - j`,
/// so nibble 0 is the most significant bit.
pub open spec fn spec_bitmap_val(m: Map<Seq<u8>, Seq<u8>>, path: Seq<u8>, n: nat) -> nat
    decreases n,
{
    if n == 0 {
        0
    } else {
        2 * spec_bitmap_val(m, path, (n - 1) as nat) + if spec_has_children(
            m,
            path.push((n - 1) as u8),
        ) {
            1nat
        } else {
            0nat
        }
    }
}

/// The first `n` bits of the bitmap fit in `n` bits.
pub proof fn lemma_bitmap_val_bound(m: Map<Seq<u8>, Seq<u8>>, path: Seq<u8>, n: nat)
    requires
        n <= 16,
    ensures
        spec_bitmap_val(m, path, n) < vstd::arithmetic::power2::pow2(n),
    decreases n,
{
    vstd::arithmetic::power2::lemma2_to64();
    if n > 0 {
        lemma_bitmap_val_bound(m, path, (n - 1) as nat);
        assert(vstd::arithmetic::power2::pow2(n) == 2 * vstd::arithmetic::power2::pow2(
            (n - 1) as nat,
        )) by {
            vstd::arithmetic::power2::lemma_pow2_unfold(n);
        }
    }
}

/// A nonzero bitmap has a set bit.
pub proof fn lemma_bitmap_nonzero(m: Map<Seq<u8>, Seq<u8>>, path: Seq<u8>, n: nat)
    requires
        spec_bitmap_val(m, path, n) != 0,
    ensures
        exists|j: nat| j < n && spec_has_children(m, path.push(#[trigger] (j as u8))),
    decreases n,
{
    if n > 0 {
        if spec_has_children(m, path.push((n - 1) as u8)) {
            assert(((n - 1) as nat) < n && spec_has_children(m, path.push(((n - 1) as nat) as u8)));
        } else {
            lemma_bitmap_nonzero(m, path, (n - 1) as nat);
            let j = choose|j: nat|
                j < (n - 1) as nat && spec_has_children(m, path.push(#[trigger] (j as u8)));
            assert(j < n && spec_has_children(m, path.push(j as u8)));
        }
    }
}

/// A set child bit at `path` is witnessed by a stored key of at least one
/// byte more than the path's byte depth.
pub proof fn lemma_child_key_long(m: Map<Seq<u8>, Seq<u8>>, path: Seq<u8>, j: u8)
    requires
        spec_has_children(m, path.push(j)),
    ensures
        exists|k: Seq<u8>| #[trigger] m.dom().contains(k) && 2 * k.len() >= path.len() + 2,
{
    let q = path.push(j);
    let k = choose|k: Seq<u8>| #[trigger] m.dom().contains(k) && in_child_range(k, even_front(q));
    let ep = even_front(q);
    assert(spec_nibbles(k).len() == 2 * k.len());
    assert(2 * k.len() > ep.len());
    if path.len() % 2 == 0 {
        assert(ep.len() == path.len());
        assert(2 * k.len() >= path.len() + 2);
    } else {
        assert(ep.len() == path.len() + 1);
        assert(2 * k.len() >= path.len() + 2);
    }
    assert(m.dom().contains(k) && 2 * k.len() >= path.len() + 2);
}

/// The stored key `k` extends the nibble path `path`.
pub open spec fn key_extends(k: Seq<u8>, path: Seq<u8>) -> bool {
    path.is_prefix_of(spec_nibbles(k))
}

/// `q` is the partial key of the node addressed by `path`: every stored
/// key extending the path also extends `path ++ q`; when any stored key
/// extends the path at all, no single nibble can be appended to `q`
/// without losing that property; and when none does, `q` is empty.
pub open spec fn pk_characterizes(m: Map<Seq<u8>, Seq<u8>>, path: Seq<u8>, q: Seq<u8>) -> bool {
    &&& crate::nibbles::valid_nibbles(q)
    &&& forall|k: Seq<u8>|
        #[trigger] m.dom().contains(k) && key_extends(k, path) ==> (path + q).is_prefix_of(
            spec_nibbles(k),
        )
    &&& (exists|k: Seq<u8>| #[trigger] m.dom().contains(k) && key_extends(k, path))
        ==> forall|n: u8|
        #![trigger (path + q).push(n)]
        n < 16 ==> exists|k: Seq<u8>|
            #[trigger] m.dom().contains(k) && key_extends(k, path) && !(path + q).push(
                n,
            ).is_prefix_of(spec_nibbles(k))
    &&& !(exists|k: Seq<u8>| #[trigger] m.dom().contains(k) && key_extends(k, path)) ==> q
        == Seq::<u8>::empty()
}

/// The partial key of the node addressed by `path`.
pub open spec fn spec_pk(m: Map<Seq<u8>, Seq<u8>>, path: Seq<u8>) -> Seq<u8> {
    choose|q: Seq<u8>| pk_characterizes(m, path, q)
}

/// The empty sequence characterizes the partial key whenever either no
/// stored key extends the path, or the extending keys diverge or stop at
/// the path itself; `lemma_pk_exists_from` handles the rest.
proof fn lemma_pk_empty_characterizes(m: Map<Seq<u8>, Seq<u8>>, path: Seq<u8>)
    requires
        !(exists|k: Seq<u8>| #[trigger] m.dom().contains(k) && key_extends(k, path)),
    ensures
        pk_characterizes(m, path, Seq::<u8>::empty()),
{
    assert(path + Seq::<u8>::empty() =~= path);
}

/// Whenever some stored key extends the path, a characterizing partial
/// key exists; `w` is the extending witness.
proof fn lemma_pk_exists_from(m: Map<Seq<u8>, Seq<u8>>, path: Seq<u8>, w: Seq<u8>)
    requires
        m.dom().contains(w),
        key_extends(w, path),
    ensures
        exists|q: Seq<u8>| pk_characterizes(m, path, q),
    decreases spec_nibbles(w).len() - path.len(),
{
    let wn = spec_nibbles(w);
    crate::nibbles::lemma_nibbles_valid(w);
    if wn.len() == path.len() {
        assert(pk_characterizes(m, path, Seq::<u8>::empty())) by {
            assert(path + Seq::<u8>::empty() =~= path);
            assert forall|n: u8| #![trigger (path + Seq::<u8>::empty()).push(n)] n < 16
                implies exists|k: Seq<u8>|
                #[trigger] m.dom().contains(k) && key_extends(k, path) && !(path
                    + Seq::<u8>::empty()).push(n).is_prefix_of(spec_nibbles(k)) by {
                assert((path + Seq::<u8>::empty()).push(n).len() > wn.len());
                assert(m.dom().contains(w) && key_extends(w, path) && !(path
                    + Seq::<u8>::empty()).push(n).is_prefix_of(spec_nibbles(w)));
            }
        }
    } else {
        let n0 = wn[path.len() as int];
        assert(n0 < 16);
        assert(key_extends(w, path.push(n0))) by {
            assert(path.push(n0) =~= wn.subrange(0, path.len() as int + 1)) by {
                assert(path =~= wn.subrange(0, path.len() as int));
            }
        }
        if exists|k: Seq<u8>|
            #[trigger] m.dom().contains(k) && key_extends(k, path) && !key_extends(
                k,
                path.push(n0),
            ) {
            let k1 = choose|k: Seq<u8>|
                #[trigger] m.dom().contains(k) && key_extends(k, path) && !key_extends(
                    k,
                    path.push(n0),
                );
            assert(pk_characterizes(m, path, Seq::<u8>::empty())) by {
                assert(path + Seq::<u8>::empty() =~= path);
                assert forall|n: u8| #![trigger (path + Seq::<u8>::empty()).push(n)] n < 16
                    implies exists|k: Seq<u8>|
                    #[trigger] m.dom().contains(k) && key_extends(k, path) && !(path
                        + Seq::<u8>::empty()).push(n).is_prefix_of(spec_nibbles(k)) by {
                    assert((path + Seq::<u8>::empty()).push(n) =~= path.push(n));
                    if n == n0 {
                        assert(m.dom().contains(k1) && key_extends(k1, path) && !(path
                            + Seq::<u8>::empty()).push(n).is_prefix_of(spec_nibbles(k1)));
                    } else {
                        assert(!path.push(n).is_prefix_of(wn)) by {
                            if path.push(n).is_prefix_of(wn) {
                                assert(path.push(n) =~= wn.subrange(0, path.len() as int + 1));
                                assert(path.push(n)[path.len() as int] == n);
                                assert(wn.subrange(0, path.len() as int + 1)[path.len() as int]
                                    == wn[path.len() as int]);
                                assert(wn[path.len() as int] == n);
                            }
                        }
                        assert(m.dom().contains(w) && key_extends(w, path) && !(path
                            + Seq::<u8>::empty()).push(n).is_prefix_of(spec_nibbles(w)));
                    }
                }
            }
        } else {
            lemma_pk_exists_from(m, path.push(n0), w);
            let q0 = choose|q: Seq<u8>| pk_characterizes(m, path.push(n0), q);
            assert(pk_characterizes(m, path.push(n0), q0));
            let q = seq![n0] + q0;
            assert(pk_characterizes(m, path, q)) by {
                assert(path + q =~= path.push(n0) + q0);
                assert forall|k: Seq<u8>|
                    #[trigger] m.dom().contains(k) && key_extends(k, path) implies (path
                    + q).is_prefix_of(spec_nibbles(k)) by {
                    assert(key_extends(k, path.push(n0)));
                    assert((path.push(n0) + q0).is_prefix_of(spec_nibbles(k)));
                }
                assert forall|n: u8| #![trigger (path + q).push(n)] n < 16 implies exists|
                    k: Seq<u8>,
                |
                    #[trigger] m.dom().contains(k) && key_extends(k, path) && !(path + q).push(
                        n,
                    ).is_prefix_of(spec_nibbles(k)) by {
                    assert(exists|k: Seq<u8>|
                        #[trigger] m.dom().contains(k) && key_extends(k, path.push(n0)));
                    let k2 = choose|k: Seq<u8>|
                        #[trigger] m.dom().contains(k) && key_extends(k, path.push(n0)) && !(
                        path.push(n0) + q0).push(n).is_prefix_of(spec_nibbles(k));
                    assert(key_extends(k2, path)) by {
                        assert(path =~= (path.push(n0)).subrange(0, path.len() as int));
                        assert(path.is_prefix_of(spec_nibbles(k2))) by {
                            assert(path.push(n0) =~= spec_nibbles(k2).subrange(
                                0,
                                path.len() as int + 1,
                            ));
                            assert(path =~= spec_nibbles(k2).subrange(0, path.len() as int));
                        }
                    }
                    assert((path + q).push(n) =~= (path.push(n0) + q0).push(n));
                    assert(m.dom().contains(k2) && key_extends(k2, path) && !(path + q).push(
                        n,
                    ).is_prefix_of(spec_nibbles(k2)));
                }
            }
        }
    }
}

/// The partial key of any node satisfies its characterization.
pub proof fn lemma_spec_pk_characterizes(m: Map<Seq<u8>, Seq<u8>>, path: Seq<u8>)
    ensures
        pk_characterizes(m, path, spec_pk(m, path)),
{
    if exists|k: Seq<u8>| #[trigger] m.dom().contains(k) && key_extends(k, path) {
        let w = choose|k: Seq<u8>| #[trigger] m.dom().contains(k) && key_extends(k, path);
        lemma_pk_exists_from(m, path, w);
    } else {
        lemma_pk_empty_characterizes(m, path);
    }
    assert(exists|q: Seq<u8>| pk_characterizes(m, path, q));
    assert(pk_characterizes(m, path, choose|q: Seq<u8>| pk_characterizes(m, path, q)));
}

/// Two sequences that both characterize the partial key of one node are
/// equal: the partial-key contract pins its result.
pub proof fn lemma_partial_key_unique(
    m: Map<Seq<u8>, Seq<u8>>,
    path: Seq<u8>,
    q1: Seq<u8>,
    q2: Seq<u8>,
)
    requires
        pk_characterizes(m, path, q1),
        pk_characterizes(m, path, q2),
    ensures
        q1 == q2,
{
    if exists|k: Seq<u8>| #[trigger] m.dom().contains(k) && key_extends(k, path) {
        if q1.len() <= q2.len() {
            lemma_pk_shorter_is_equal(m, path, q1, q2);
        } else {
            lemma_pk_shorter_is_equal(m, path, q2, q1);
        }
    } else {
        assert(q1 == Seq::<u8>::empty() && q2 == Seq::<u8>::empty());
    }
}

/// Of two characterizations of one node's partial key, the one that is
/// not longer already equals the other.
proof fn lemma_pk_shorter_is_equal(
    m: Map<Seq<u8>, Seq<u8>>,
    path: Seq<u8>,
    qa: Seq<u8>,
    qb: Seq<u8>,
)
    requires
        pk_characterizes(m, path, qa),
        pk_characterizes(m, path, qb),
        qa.len() <= qb.len(),
        exists|k: Seq<u8>| #[trigger] m.dom().contains(k) && key_extends(k, path),
    ensures
        qa == qb,
{
    let w = choose|k: Seq<u8>| #[trigger] m.dom().contains(k) && key_extends(k, path);
    let wn = spec_nibbles(w);
    assert((path + qa).is_prefix_of(wn));
    assert((path + qb).is_prefix_of(wn));
    assert forall|t: int| 0 <= t < qa.len() implies qa[t] == qb[t] by {
        assert((path + qa)[path.len() + t] == wn[path.len() + t]) by {
            assert(path + qa =~= wn.subrange(0, path.len() + qa.len() as int));
        }
        assert((path + qb)[path.len() + t] == wn[path.len() + t]) by {
            assert(path + qb =~= wn.subrange(0, path.len() + qb.len() as int));
        }
    }
    if qa.len() < qb.len() {
        let n = qb[qa.len() as int];
        assert(n < 16);
        assert((path + qa).push(n).is_prefix_of(path + qb)) by {
            let q = (path + qa).push(n);
            assert(q.len() == path.len() + qa.len() + 1 <= (path + qb).len());
            assert forall|t: int| 0 <= t < q.len() implies q[t] == (path + qb)[t] by {
                if t < path.len() {
                } else if t < path.len() + qa.len() {
                    assert(q[t] == qa[t - path.len()]);
                    assert((path + qb)[t] == qb[t - path.len()]);
                } else {
                    assert(q[t] == n);
                    assert((path + qb)[t] == qb[qa.len() as int]);
                }
            }
            assert(q =~= (path + qb).subrange(0, q.len() as int));
        }
        let k0 = choose|k: Seq<u8>|
            #[trigger] m.dom().contains(k) && key_extends(k, path) && !(path + qa).push(
                n,
            ).is_prefix_of(spec_nibbles(k));
        assert(m.dom().contains(k0) && key_extends(k0, path) && !(path + qa).push(
            n,
        ).is_prefix_of(spec_nibbles(k0)));
        assert((path + qb).is_prefix_of(spec_nibbles(k0)));
        assert((path + qa).push(n).is_prefix_of(spec_nibbles(k0))) by {
            let q = (path + qa).push(n);
            assert(q =~= spec_nibbles(k0).subrange(0, q.len() as int)) by {
                assert(path + qb =~= spec_nibbles(k0).subrange(0, (path + qb).len() as int));
                assert(q =~= (path + qb).subrange(0, q.len() as int));
            }
        }
    }
    assert(qa =~= qb);
}

/// The longest stored key, in bytes.
pub open spec fn max_klen(es: Seq<(Vec<u8>, Vec<u8>)>) -> nat
    decreases es.len(),
{
    if es.len() == 0 {
        0
    } else {
        let rest = max_klen(es.drop_last());
        if es.last().0@.len() > rest {
            es.last().0@.len()
        } else {
            rest
        }
    }
}

pub proof fn lemma_max_klen(es: Seq<(Vec<u8>, Vec<u8>)>, i: int)
    requires
        0 <= i < es.len(),
    ensures
        es[i].0@.len() <= max_klen(es),
    decreases es.len(),
{
    if i < es.len() - 1 {
        lemma_max_klen(es.drop_last(), i);
        assert(es.drop_last()[i] == es[i]);
    }
}

/// Every stored key fits under the measure bound.
pub proof fn lemma_dom_key_bound(es: Seq<(Vec<u8>, Vec<u8>)>, k: Seq<u8>)
    requires
        map_of(es).dom().contains(k),
    ensures
        k.len() <= max_klen(es),
{
    let i = choose|i: int| 0 <= i < es.len() && es[i].0@ == k;
    lemma_max_klen(es, i);
}

/// The SCALE length-prefixed stored value of the node at `d`: the empty
/// byte string encodes when the node holds none.
pub open spec fn spec_value_enc(es: Seq<(Vec<u8>, Vec<u8>)>, d: Seq<u8>) -> Seq<u8> {
    let m = map_of(es);
    if spec_has_value(m, d) {
        spec_scale(m[spec_path_bytes(d)])
    } else {
        spec_scale(Seq::<u8>::empty())
    }
}

/// The merkle value of the node addressed by `path`: its encoding,
/// hashed when this is the root or the encoding reaches 32 bytes, and
/// zero-padded to 32 bytes otherwise.
pub open spec fn spec_merkle(es: Seq<(Vec<u8>, Vec<u8>)>, path: Seq<u8>) -> Seq<u8>
    decreases 2 * max_klen(es) + 2 - path.len(), 3int, 0int,
{
    spec_merkle_reduce(spec_node_value(es, path), path.len() == 0)
}

/// The encoding of the node addressed by `path`: header, packed partial
/// key, then the subvalue of the position the partial key descends to.
pub open spec fn spec_node_value(es: Seq<(Vec<u8>, Vec<u8>)>, path: Seq<u8>) -> Seq<u8>
    decreases 2 * max_klen(es) + 2 - path.len(), 2int, 0int,
{
    let m = map_of(es);
    let pk = spec_pk(m, path);
    let d = path + pk;
    proof {
        if pk.len() > 0 {
            lemma_spec_pk_characterizes(m, path);
            let k0 = choose|k: Seq<u8>| #[trigger] m.dom().contains(k) && key_extends(k, path);
            assert((path + pk).is_prefix_of(spec_nibbles(k0)));
            lemma_dom_key_bound(es, k0);
        }
    }
    spec_header_bytes(spec_kind_at(m, d), pk.len()) + spec_pack_pk(pk) + spec_subvalue(es, d)
}

/// The subvalue of the node position `d`: the encoded stored value alone
/// when no child bit is set; otherwise the little-endian children bitmap,
/// the sixteen length-prefixed child merkle values, then the encoded
/// stored value.
pub open spec fn spec_subvalue(es: Seq<(Vec<u8>, Vec<u8>)>, d: Seq<u8>) -> Seq<u8>
    decreases 2 * max_klen(es) + 2 - d.len(), 1int, 0int,
{
    let m = map_of(es);
    let b = spec_bitmap_val(m, d, 16);
    if b == 0 {
        spec_value_enc(es, d)
    } else {
        seq![(b % 256) as u8, (b / 256) as u8] + spec_children_cat(es, d, 16) + spec_value_enc(
            es,
            d,
        )
    }
}

/// The concatenation of the length-prefixed merkle values of the first
/// `n` children of the node position `d`.
pub open spec fn spec_children_cat(es: Seq<(Vec<u8>, Vec<u8>)>, d: Seq<u8>, n: nat) -> Seq<u8>
    decreases 2 * max_klen(es) + 2 - d.len(), 0int, n,
        when n <= 16 && spec_bitmap_val(map_of(es), d, 16) != 0
{
    if n == 0 {
        Seq::empty()
    } else {
        proof {
            lemma_bitmap_nonzero(map_of(es), d, 16);
            let j = choose|j: nat|
                j < 16 && spec_has_children(map_of(es), d.push(#[trigger] (j as u8)));
            lemma_child_key_long(map_of(es), d, j as u8);
            let k = choose|k: Seq<u8>|
                #[trigger] map_of(es).dom().contains(k) && 2 * k.len() >= d.len() + 2;
            lemma_dom_key_bound(es, k);
        }
        spec_children_cat(es, d, (n - 1) as nat) + spec_scale(
            spec_merkle(es, d.push((n - 1) as u8)),
        )
    }
}

impl Trie {
    /// Whether any stored key lies in the child byte range whose
    /// byte-aligned front is `ep`.
    fn scan_child_range(&self, ep: &Vec<u8>) -> (r: bool)
        requires
            ep@.len() % 2 == 0,
        ensures
            r == exists|k: Seq<u8>| #[trigger] self@.dom().contains(k) && in_child_range(k, ep@),
    {
        let mut i: usize = 0;
        while i < self.entries.len()
            invariant
                ep@.len() % 2 == 0,
                i <= self.entries@.len(),
                forall|j: int|
                    0 <= j < i ==> !in_child_range((#[trigger] self.entries@[j]).0@, ep@),
            decreases self.entries@.len() - i,
        {
            let en = nibbles_of(&self.entries[i].0);
            proof {
                assert(en@.len() == 2 * self.entries@[i as int].0@.len());
            }
            let hit = if en.len() > ep.len() && is_prefix(ep, &en) {
                if en.len() == ep.len() + 2 {
                    true
                } else {
                    proof {
                        assert(en@.len() % 2 == 0 && ep@.len() % 2 == 0);
                        assert(en@.len() >= ep@.len() + 4);
                    }
                    !(en[ep.len()] == 15 && en[ep.len() + 1] == 15)
                }
            } else {
                false
            };
            if hit {
                proof {
                    let k0 = self.entries@[i as int].0@;
                    assert(self@.dom().contains(k0));
                    assert(in_child_range(k0, ep@));
                }
                return true;
            }
            proof {
                assert(!in_child_range(self.entries@[i as int].0@, ep@));
            }
            i = i + 1;
        }
        proof {
            if exists|k: Seq<u8>| #[trigger] self@.dom().contains(k) && in_child_range(k, ep@) {
                let k = choose|k: Seq<u8>|
                    #[trigger] self@.dom().contains(k) && in_child_range(k, ep@);
                let j = choose|j: int|
                    0 <= j < self.entries@.len() && self.entries@[j].0@ == k;
                assert(!in_child_range(self.entries@[j].0@, ep@));
            }
        }
        false
    }

    /// Whether the node at the nibble path `q` has children.
    fn has_children_at(&self, q: &Vec<u8>) -> (r: bool)
        ensures
            r == spec_has_children(self@, q@),
    {
        let mut ep = crate::trie::copy_bytes(q);
        if ep.len() % 2 == 1 {
            let _ = ep.pop();
        }
        proof {
            assert(ep@ =~= even_front(q@));
        }
        self.scan_child_range(&ep)
    }

    /// Whether any stored key lies in the child byte range of the node
    /// addressed by `key` and `key_extra_nibble`.  The extra nibble does
    /// not narrow the test: the range covers the whole byte `key` prefix.
    pub fn node_has_children(&self, key: &Vec<u8>, key_extra_nibble: Option<u8>) -> (r: bool)
        ensures
            r == spec_has_children(self@, spec_path(key@, key_extra_nibble)),
    {
        proof {
            assert(even_front(spec_path(key@, key_extra_nibble)) =~= spec_nibbles(key@));
        }
        let kn = nibbles_of(key);
        self.scan_child_range(&kn)
    }

    /// The children-presence bitmap of the node at the nibble path `q`.
    fn bitmap_at(&self, q: &Vec<u8>) -> (r: u16)
        requires
            valid_nibbles(q@),
        ensures
            r as nat == spec_bitmap_val(self@, q@, 16),
    {
        let mut acc: u16 = 0;
        let mut n: u8 = 0;
        while n < 16
            invariant
                n <= 16,
                valid_nibbles(q@),
                acc as nat == spec_bitmap_val(self@, q@, n as nat),
            decreases 16 - n,
        {
            proof {
                lemma_bitmap_val_bound(self@, q@, n as nat);
                vstd::arithmetic::power2::lemma2_to64();
                if (n as nat) < 15 {
                    vstd::arithmetic::power2::lemma_pow2_strictly_increases(n as nat, 15);
                }
                assert(acc < 32768);
            }
            let mut child = crate::trie::copy_bytes(q);
            child.push(n);
            let bit = self.has_children_at(&child);
            acc = 2 * acc + if bit {
                1
            } else {
                0
            };
            n = n + 1;
            proof {
                assert(acc as nat == spec_bitmap_val(self@, q@, n as nat));
            }
        }
        acc
    }

    /// The children-presence bitmap of the node addressed by `key` and
    /// `key_extra_nibble`: bit `15 - n` is set exactly when nibble `n`'s
    /// child byte range holds some stored key.
    pub fn node_children_bitmap(&self, key: &Vec<u8>, key_extra_nibble: Option<u8>) -> (r: u16)
        requires
            key_extra_nibble is Some ==> key_extra_nibble->Some_0 < 16,
        ensures
            r as nat == spec_bitmap_val(self@, spec_path(key@, key_extra_nibble), 16),
    {
        let p = self.address_path(key, key_extra_nibble);
        self.bitmap_at(&p)
    }

    /// The nibble path of an address, computed.
    fn address_path(&self, key: &Vec<u8>, key_extra_nibble: Option<u8>) -> (r: Vec<u8>)
        requires
            key_extra_nibble is Some ==> key_extra_nibble->Some_0 < 16,
        ensures
            r@ == spec_path(key@, key_extra_nibble),
            valid_nibbles(r@),
    {
        let mut p = nibbles_of(key);
        if let Some(e) = key_extra_nibble {
            p.push(e);
        }
        proof {
            crate::nibbles::lemma_nibbles_valid(key@);
        }
        p
    }

    /// The partial key of the node at the nibble path `p`.
    fn partial_key_at(&self, p: &Vec<u8>) -> (r: Vec<u8>)
        ensures
            pk_characterizes(self@, p@, r@),
            r@ == spec_pk(self@, p@),
    {
        let ghost path = p@;
        let wi = match self.find_extending(p) {
            None => {
                proof {
                    if exists|k: Seq<u8>| #[trigger] self@.dom().contains(k) && key_extends(
                        k,
                        path,
                    ) {
                        let k = choose|k: Seq<u8>|
                            #[trigger] self@.dom().contains(k) && key_extends(k, path);
                        let j = choose|j: int|
                            0 <= j < self.entries@.len() && self.entries@[j].0@ == k;
                        assert(!key_extends(self.entries@[j].0@, path));
                    }
                    lemma_pk_empty_characterizes(self@, path);
                    lemma_spec_pk_characterizes(self@, path);
                    lemma_partial_key_unique(
                        self@,
                        path,
                        Seq::<u8>::empty(),
                        spec_pk(self@, path),
                    );
                }
                return Vec::new();
            },
            Some(wi) => wi,
        };
        let ghost w = self.entries@[wi as int].0@;
        let wn = nibbles_of(&self.entries[wi].0);
        let mut cand: usize = wn.len() - p.len();
        let ghost full: int = wn@.len() - p@.len();
        let mut i: usize = 0;
        while i < self.entries.len()
            invariant
                p@ == path,
                wn@ == spec_nibbles(w),
                self@.dom().contains(w),
                key_extends(w, path),
                cand <= full,
                full == wn@.len() - p@.len(),
                p@.len() <= wn@.len(),
                i <= self.entries@.len(),
                forall|j: int|
                    0 <= j < i && key_extends((#[trigger] self.entries@[j]).0@, path) ==> (
                    path + wn@.subrange(p@.len() as int, p@.len() + cand)).is_prefix_of(
                        spec_nibbles(self.entries@[j].0@),
                    ),
                cand < full ==> exists|k: Seq<u8>|
                    #[trigger] self@.dom().contains(k) && key_extends(k, path) && !(path
                        + wn@.subrange(p@.len() as int, p@.len() + cand)).push(
                        wn@[p@.len() + cand],
                    ).is_prefix_of(spec_nibbles(k)),
            decreases self.entries@.len() - i,
        {
            let ghost cand_pre = cand as int;
            let en = nibbles_of(&self.entries[i].0);
            if is_prefix(p, &en) {
                let p_len = p.len();
                let en_len = en.len();
                let mut c: usize = 0;
                while c < cand && c < en_len - p_len && en[p_len + c] == wn[p_len + c]
                    invariant
                        c <= cand,
                        cand <= full,
                        full == wn@.len() - p@.len(),
                        p_len == p@.len(),
                        en_len == en@.len(),
                        p_len <= en_len,
                        p@.len() + c <= en@.len(),
                        p@.len() + cand <= wn@.len(),
                        forall|t: int| 0 <= t < c ==> #[trigger] en@[p@.len() + t] == wn@[p@.len() + t],
                    decreases cand - c,
                {
                    c = c + 1;
                }
                proof {
                    assert(p@.is_prefix_of(en@));
                    assert((path + wn@.subrange(p@.len() as int, p@.len() + c)).is_prefix_of(
                        en@,
                    )) by {
                        let q = path + wn@.subrange(p@.len() as int, p@.len() + c);
                        assert(q.len() == p@.len() + c <= en@.len());
                        assert forall|t: int| 0 <= t < q.len() implies q[t] == en@[t] by {
                            if t < p@.len() {
                                assert(en@[t] == p@[t]) by {
                                    assert(p@ =~= en@.subrange(0, p@.len() as int));
                                }
                            } else {
                                let tt = t - p@.len();
                                assert(q[t] == wn@.subrange(p@.len() as int, p@.len() + c)[tt]);
                                assert(q[t] == wn@[p@.len() + tt]);
                                assert(en@[p@.len() + tt] == wn@[p@.len() + tt]);
                            }
                        }
                        assert(q =~= en@.subrange(0, q.len() as int));
                    }
                    if c < cand {
                        assert(p@.len() + c == en@.len() || en@[p@.len() + c as int]
                            != wn@[p@.len() + c as int]);
                        assert(!(path + wn@.subrange(p@.len() as int, p@.len() + c)).push(
                            wn@[p@.len() + c],
                        ).is_prefix_of(en@)) by {
                            let q = (path + wn@.subrange(p@.len() as int, p@.len() + c)).push(
                                wn@[p@.len() + c],
                            );
                            assert(q.len() == p@.len() + c + 1);
                            if q.is_prefix_of(en@) {
                                assert(en@[p@.len() + c as int] == q[p@.len() + c as int]) by {
                                    assert(q =~= en@.subrange(0, q.len() as int));
                                }
                                assert(q[p@.len() + c as int] == wn@[p@.len() + c as int]);
                                assert((path + wn@.subrange(p@.len() as int, p@.len()
                                    + c)).is_prefix_of(en@));
                            }
                        }
                    }
                }
                if c < cand {
                    cand = c;
                    proof {
                        let en0 = self.entries@[i as int].0@;
                        assert(spec_nibbles(en0) == en@);
                        assert(self@.dom().contains(en0));
                        assert(key_extends(en0, path));
                        assert forall|j: int|
                            0 <= j < i + 1 && key_extends(
                                (#[trigger] self.entries@[j]).0@,
                                path,
                            ) implies (path + wn@.subrange(p@.len() as int, p@.len()
                            + cand)).is_prefix_of(spec_nibbles(self.entries@[j].0@)) by {
                            if j < i {
                                lemma_prefix_shrink(
                                    path,
                                    wn@,
                                    spec_nibbles(self.entries@[j].0@),
                                    cand as int,
                                    cand_pre,
                                );
                            } else {
                                assert(spec_nibbles(self.entries@[j].0@) == en@);
                            }
                        }
                    }
                }
            }
            i = i + 1;
        }
        let mut r: Vec<u8> = Vec::new();
        let base = p.len();
        let wl = wn.len();
        let mut t: usize = 0;
        while t < cand
            invariant
                t <= cand,
                base == p@.len(),
                wl == wn@.len(),
                base + cand <= wl,
                r@ == wn@.subrange(p@.len() as int, p@.len() + t),
            decreases cand - t,
        {
            r.push(wn[base + t]);
            t = t + 1;
            proof {
                assert(r@ =~= wn@.subrange(p@.len() as int, p@.len() + t));
            }
        }
        proof {
            let seg = wn@.subrange(p@.len() as int, p@.len() + cand as int);
            assert(r@ == seg);
            assert(crate::nibbles::valid_nibbles(r@)) by {
                crate::nibbles::lemma_nibbles_valid(w);
            }
            assert forall|k: Seq<u8>|
                #[trigger] self@.dom().contains(k) && key_extends(k, path) implies (path
                + r@).is_prefix_of(spec_nibbles(k)) by {
                let j = choose|j: int|
                    0 <= j < self.entries@.len() && self.entries@[j].0@ == k;
            }
            assert forall|n: u8| #![trigger (path + r@).push(n)] n < 16 implies exists|k: Seq<u8>|
                #[trigger] self@.dom().contains(k) && key_extends(k, path) && !(path + r@).push(
                    n,
                ).is_prefix_of(spec_nibbles(k)) by {
                if cand as int == full {
                    assert(!(path + r@).push(n).is_prefix_of(spec_nibbles(w))) by {
                        assert((path + r@).push(n).len() > wn@.len());
                    }
                    assert(self@.dom().contains(w) && key_extends(w, path) && !(path
                        + r@).push(n).is_prefix_of(spec_nibbles(w)));
                } else {
                    let nw = wn@[p@.len() + cand as int];
                    if n == nw {
                        let k0 = choose|k: Seq<u8>|
                            #[trigger] self@.dom().contains(k) && key_extends(k, path) && !(
                            path + wn@.subrange(p@.len() as int, p@.len() + cand as int)).push(
                                wn@[p@.len() + cand as int],
                            ).is_prefix_of(spec_nibbles(k));
                        assert(self@.dom().contains(k0) && key_extends(k0, path) && !(path
                            + r@).push(n).is_prefix_of(spec_nibbles(k0)));
                    } else {
                        assert(!(path + r@).push(n).is_prefix_of(wn@)) by {
                            let q = (path + r@).push(n);
                            if q.is_prefix_of(wn@) {
                                assert(wn@[p@.len() + cand as int] == q[p@.len()
                                    + cand as int]);
                                assert(q[p@.len() + cand as int] == n);
                            }
                        }
                        assert(self@.dom().contains(w) && key_extends(w, path) && !(path
                            + r@).push(n).is_prefix_of(spec_nibbles(w)));
                    }
                }
            }
            assert(pk_characterizes(self@, path, r@));
            lemma_spec_pk_characterizes(self@, path);
            lemma_partial_key_unique(self@, path, r@, spec_pk(self@, path));
        }
        r
    }

    /// The index of some entry whose key extends the nibble path, if any.
    fn find_extending(&self, p: &Vec<u8>) -> (r: Option<usize>)
        ensures
            r is Some ==> 0 <= r->Some_0 < self.entries@.len() && key_extends(
                self.entries@[r->Some_0 as int].0@,
                p@,
            ),
            r is None ==> forall|j: int|
                0 <= j < self.entries@.len() ==> !key_extends(
                    (#[trigger] self.entries@[j]).0@,
                    p@,
                ),
    {
        let mut i: usize = 0;
        while i < self.entries.len()
            invariant
                i <= self.entries@.len(),
                forall|j: int|
                    0 <= j < i ==> !key_extends((#[trigger] self.entries@[j]).0@, p@),
            decreases self.entries@.len() - i,
        {
            let en = nibbles_of(&self.entries[i].0);
            if is_prefix(p, &en) {
                return Some(i);
            }
            i = i + 1;
        }
        None
    }

    /// The partial key of the node addressed by `key` and
    /// `key_extra_nibble`: the longest nibble sequence `r` such that every
    /// stored key extending the node's path also extends the path
    /// followed by `r`.  When no stored key extends the path, `r` is
    /// empty.
    pub fn node_partial_key_nibbles(&self, key: &Vec<u8>, key_extra_nibble: Option<u8>) -> (r:
        Vec<u8>)
        requires
            key_extra_nibble is Some ==> key_extra_nibble->Some_0 < 16,
        ensures
            pk_characterizes(self@, spec_path(key@, key_extra_nibble), r@),
            r@ == spec_pk(self@, spec_path(key@, key_extra_nibble)),
    {
        let p = self.address_path(key, key_extra_nibble);
        self.partial_key_at(&p)
    }

    /// The header of the node addressed by `key` and `key_extra_nibble`:
    /// the kind bits of the position its partial key descends to, in the
    /// two most significant bits of the first byte, then the partial-key
    /// nibble count, spilling into trailing bytes when it reaches 63.
    pub fn node_header(&self, key: &Vec<u8>, key_extra_nibble: Option<u8>) -> (r: Vec<u8>)
        requires
            self.wf(),
            key_extra_nibble is Some ==> key_extra_nibble->Some_0 < 16,
        ensures
            ({
                let path = spec_path(key@, key_extra_nibble);
                r@ == spec_header_bytes(
                    spec_kind_at(self@, path + spec_pk(self@, path)),
                    spec_pk(self@, path).len(),
                )
            }),
    {
        let p = self.address_path(key, key_extra_nibble);
        let (kind, pk) = self.descended_kind(&p);
        crate::codec::encode_header(kind, pk.len())
    }

    /// The kind bits of the position that the partial key of the node at
    /// `p` descends to, together with that partial key.
    fn descended_kind(&self, p: &Vec<u8>) -> (r: (u8, Vec<u8>))
        requires
            self.wf(),
            valid_nibbles(p@),
        ensures
            r.1@ == spec_pk(self@, p@),
            r.0 < 4,
            r.0 as nat == spec_kind_at(self@, p@ + spec_pk(self@, p@)),
    {
        let pk = self.partial_key_at(p);
        let mut d = crate::trie::copy_bytes(p);
        let mut pk2 = crate::trie::copy_bytes(&pk);
        d.append(&mut pk2);
        proof {
            assert(d@ =~= p@ + pk@);
        }
        let hc = self.has_children_at(&d);
        let hv = if d.len() % 2 == 0 {
            let kb = crate::nibbles::path_bytes_of(&d);
            self.stored_value(&kb).is_some()
        } else {
            false
        };
        proof {
            assert(hv == spec_has_value(self@, d@));
        }
        let kind: u8 = (if hc {
            2
        } else {
            0
        }) + (if hv {
            1
        } else {
            0
        });
        (kind, pk)
    }

    /// The subvalue of the node addressed by `key` and
    /// `key_extra_nibble`: the encoded stored value alone when no child
    /// bit is set; otherwise the little-endian children bitmap, the
    /// sixteen length-prefixed child merkle values in nibble order, then
    /// the encoded stored value.
    pub fn node_subvalue(&self, key: &Vec<u8>, key_extra_nibble: Option<u8>) -> (r: Vec<u8>)
        requires
            self.wf(),
            key_extra_nibble is Some ==> key_extra_nibble->Some_0 < 16,
        ensures
            r@ == spec_subvalue(self.entries@, spec_path(key@, key_extra_nibble)),
    {
        let p = self.address_path(key, key_extra_nibble);
        self.subvalue_at(&p)
    }

    /// The subvalue of the node position `q`, computed.
    fn subvalue_at(&self, q: &Vec<u8>) -> (r: Vec<u8>)
        requires
            self.wf(),
            valid_nibbles(q@),
        ensures
            r@ == spec_subvalue(self.entries@, q@),
        decreases 2 * max_klen(self.entries@) + 2 - q@.len(), 1int, 0int,
    {
        let ghost es = self.entries@;
        let bitmap = self.bitmap_at(q);
        let value_enc = if q.len() % 2 == 0 {
            let kb = crate::nibbles::path_bytes_of(q);
            match self.stored_value(&kb) {
                Some(v) => crate::codec::scale_bytes(&v),
                None => {
                    let e: Vec<u8> = Vec::new();
                    crate::codec::scale_bytes(&e)
                },
            }
        } else {
            let e: Vec<u8> = Vec::new();
            crate::codec::scale_bytes(&e)
        };
        proof {
            assert(value_enc@ == spec_value_enc(es, q@));
        }
        if bitmap == 0 {
            return value_enc;
        }
        proof {
            lemma_bitmap_nonzero(self@, q@, 16);
            let j = choose|j: nat|
                j < 16 && spec_has_children(self@, q@.push(#[trigger] (j as u8)));
            lemma_child_key_long(self@, q@, j as u8);
            let k = choose|k: Seq<u8>|
                #[trigger] self@.dom().contains(k) && 2 * k.len() >= q@.len() + 2;
            lemma_dom_key_bound(es, k);
            assert(q@.len() + 2 <= 2 * max_klen(es));
        }
        let mut out: Vec<u8> = Vec::new();
        out.push((bitmap % 256) as u8);
        out.push((bitmap / 256) as u8);
        let ghost b = spec_bitmap_val(map_of(es), q@, 16);
        proof {
            assert(out@ =~= seq![(b % 256) as u8, (b / 256) as u8]
                + spec_children_cat(es, q@, 0));
        }
        let mut n: u8 = 0;
        while n < 16
            invariant
                self.wf(),
                valid_nibbles(q@),
                es == self.entries@,
                b == spec_bitmap_val(map_of(es), q@, 16),
                bitmap as nat == b,
                bitmap != 0,
                n <= 16,
                q@.len() + 2 <= 2 * max_klen(es),
                out@ == seq![(b % 256) as u8, (b / 256) as u8] + spec_children_cat(
                    es,
                    q@,
                    n as nat,
                ),
            decreases 16 - n,
        {
            let mut child = crate::trie::copy_bytes(q);
            child.push(n);
            proof {
                assert(child@ =~= q@.push(n));
            }
            let mv = self.merkle_at(&child);
            let mut mvv: Vec<u8> = Vec::new();
            let mut t: usize = 0;
            while t < 32
                invariant
                    t <= 32,
                    mv@.len() == 32,
                    mvv@ == mv@.subrange(0, t as int),
                decreases 32 - t,
            {
                mvv.push(mv[t]);
                t = t + 1;
                proof {
                    assert(mvv@ =~= mv@.subrange(0, t as int));
                }
            }
            proof {
                assert(mvv@ =~= mv@);
            }
            let mut enc = crate::codec::scale_bytes(&mvv);
            out.append(&mut enc);
            n = n + 1;
            proof {
                assert(out@ =~= seq![(b % 256) as u8, (b / 256) as u8] + spec_children_cat(
                    es,
                    q@,
                    n as nat,
                ));
            }
        }
        let mut ve = value_enc;
        out.append(&mut ve);
        proof {
            assert(out@ =~= spec_subvalue(es, q@));
        }
        out
    }

    /// The encoding of the node addressed by `key` and
    /// `key_extra_nibble`: header, packed partial key, then the subvalue
    /// of the position the partial key descends to.
    pub fn node_value(&self, key: &Vec<u8>, key_extra_nibble: Option<u8>) -> (r: Vec<u8>)
        requires
            self.wf(),
            key_extra_nibble is Some ==> key_extra_nibble->Some_0 < 16,
        ensures
            r@ == spec_node_value(self.entries@, spec_path(key@, key_extra_nibble)),
    {
        let p = self.address_path(key, key_extra_nibble);
        self.node_value_at(&p)
    }

    /// The encoding of the node at the nibble path `p`, computed.
    fn node_value_at(&self, p: &Vec<u8>) -> (r: Vec<u8>)
        requires
            self.wf(),
            valid_nibbles(p@),
        ensures
            r@ == spec_node_value(self.entries@, p@),
        decreases 2 * max_klen(self.entries@) + 2 - p@.len(), 2int, 0int,
    {
        let ghost es = self.entries@;
        let (kind, pk) = self.descended_kind(p);
        let mut d = crate::trie::copy_bytes(p);
        let mut pk2 = crate::trie::copy_bytes(&pk);
        d.append(&mut pk2);
        proof {
            assert(d@ =~= p@ + pk@);
            if pk@.len() > 0 {
                lemma_spec_pk_characterizes(self@, p@);
                let k0 = choose|k: Seq<u8>|
                    #[trigger] self@.dom().contains(k) && key_extends(k, p@);
                assert((p@ + pk@).is_prefix_of(spec_nibbles(k0)));
                lemma_dom_key_bound(es, k0);
            }
        }
        let mut out = crate::codec::encode_header(kind, pk.len());
        let mut pkb = crate::codec::pack_pk(&pk);
        out.append(&mut pkb);
        let mut sub = self.subvalue_at(&d);
        out.append(&mut sub);
        proof {
            assert(out@ =~= spec_node_value(es, p@));
        }
        out
    }

    /// The merkle value of the node at the nibble path `p`, computed.
    fn merkle_at(&self, p: &Vec<u8>) -> (r: [u8; 32])
        requires
            self.wf(),
            valid_nibbles(p@),
        ensures
            r@ == spec_merkle(self.entries@, p@),
    decreases 2 * max_klen(self.entries@) + 2 - p@.len(), 3int, 0int,
    {
        let nv = self.node_value_at(p);
        crate::codec::merkle_reduce(&nv, p.len() == 0)
    }

    /// The merkle value of the node addressed by `key` and
    /// `key_extra_nibble`: its encoding hashed when this is the root or
    /// the encoding reaches 32 bytes, and zero-padded to 32 bytes
    /// otherwise.
    pub fn merkle_value(&self, key: &Vec<u8>, key_extra_nibble: Option<u8>) -> (r: [u8; 32])
        requires
            self.wf(),
            key_extra_nibble is Some ==> key_extra_nibble->Some_0 < 16,
        ensures
            r@ == spec_merkle(self.entries@, spec_path(key@, key_extra_nibble)),
    {
        let p = self.address_path(key, key_extra_nibble);
        self.merkle_at(&p)
    }

    /// The merkle value of the root node: the hash of the root node's
    /// encoding, whatever its length.
    pub fn root_merkle_value(&self) -> (r: [u8; 32])
        requires
            self.wf(),
        ensures
            r@ == spec_merkle(self.entries@, Seq::<u8>::empty()),
    {
        let e: Vec<u8> = Vec::new();
        self.merkle_at(&e)
    }
}

/// A prefix made from a shorter front of the same witness segment is
/// still a prefix.
proof fn lemma_prefix_shrink(path: Seq<u8>, wn: Seq<u8>, kn: Seq<u8>, c: int, c0: int)
    requires
        0 <= c <= c0,
        path.len() + c0 <= wn.len(),
        (path + wn.subrange(path.len() as int, path.len() + c0)).is_prefix_of(kn),
    ensures
        (path + wn.subrange(path.len() as int, path.len() + c)).is_prefix_of(kn),
{
    let q0 = path + wn.subrange(path.len() as int, path.len() + c0);
    let q = path + wn.subrange(path.len() as int, path.len() + c);
    assert(q.len() <= q0.len() <= kn.len());
    assert forall|t: int| 0 <= t < q.len() implies q[t] == kn[t] by {
        assert(q[t] == q0[t]);
        assert(q0[t] == kn[t]) by {
            assert(q0 =~= kn.subrange(0, q0.len() as int));
        }
    }
    assert(q =~= kn.subrange(0, q.len() as int));
}

} // verus!

//! Laws of the store operations and of the merkleizer.

use vstd::prelude::*;
use crate::codec::{spec_header_bytes, spec_pack_pk, spec_scale};
use crate::nibbles::valid_nibbles;
use crate::merkle::{
    in_child_range, key_extends, lemma_bitmap_nonzero, lemma_child_key_long, lemma_dom_key_bound,
    lemma_partial_key_unique, lemma_spec_pk_characterizes, max_klen, pk_characterizes,
    spec_bitmap_val, spec_children_cat, spec_has_children, spec_merkle, spec_node_value, spec_pk,
    spec_subvalue, spec_value_enc,
};
use crate::nibbles::{spec_nibbles, spec_path_bytes};
use crate::trie::map_of;

verus! {

/// A bitmap over childless branches is zero.
proof fn lemma_bitmap_zero(m: Map<Seq<u8>, Seq<u8>>, q: Seq<u8>, n: nat)
    requires
        forall|j: nat| j < n ==> !spec_has_children(m, q.push(#[trigger] (j as u8))),
    ensures
        spec_bitmap_val(m, q, n) == 0,
    decreases n,
{
    if n > 0 {
        lemma_bitmap_zero(m, q, (n - 1) as nat);
        assert(!spec_has_children(m, q.push(((n - 1) as nat) as u8)));
    }
}

/// The empty trie's root merkle value is the hash of the two-byte
/// encoding of a valueless, childless root: the header byte `0x00`
/// followed by the length prefix `0x00` of the empty value.
pub proof fn lemma_empty_trie_root(es: Seq<(Vec<u8>, Vec<u8>)>)
    requires
        map_of(es) == Map::<Seq<u8>, Seq<u8>>::empty(),
    ensures
        spec_merkle(es, Seq::<u8>::empty()) == crate::codec::blake2b256_of(seq![0u8, 0u8]),
{
    let m = map_of(es);
    let path = Seq::<u8>::empty();
    assert(!(exists|k: Seq<u8>| #[trigger] m.dom().contains(k) && key_extends(k, path)));
    lemma_spec_pk_characterizes(m, path);
    let pk = spec_pk(m, path);
    assert(pk == Seq::<u8>::empty());
    let d = path + pk;
    assert(d =~= Seq::<u8>::empty());
    assert(!spec_has_children(m, d));
    assert(!crate::merkle::spec_has_value(m, d));
    assert forall|j: nat| j < 16 implies !spec_has_children(
        m,
        d.push(#[trigger] (j as u8)),
    ) by {}
    lemma_bitmap_zero(m, d, 16);
    assert(spec_node_value(es, path) =~= seq![0u8, 0u8]) by {
        assert(spec_header_bytes(0, 0) =~= seq![0u8]);
        assert(spec_pack_pk(pk) =~= Seq::<u8>::empty());
        assert(spec_scale(Seq::<u8>::empty()) =~= seq![0u8]);
    }
}

/// A trie holding exactly one entry encodes its root as a value-only
/// node: header kind `01` with the key's full nibble count, the packed
/// nibble sequence of the key, then the length-prefixed value; the root
/// merkle value is the hash of that encoding.
pub proof fn lemma_single_entry_root(es: Seq<(Vec<u8>, Vec<u8>)>, kk: Seq<u8>, vv: Seq<u8>)
    requires
        map_of(es) == Map::<Seq<u8>, Seq<u8>>::empty().insert(kk, vv),
    ensures
        spec_node_value(es, Seq::<u8>::empty()) == spec_header_bytes(1, 2 * kk.len())
            + spec_pack_pk(spec_nibbles(kk)) + spec_scale(vv),
        spec_merkle(es, Seq::<u8>::empty()) == crate::codec::blake2b256_of(
            spec_header_bytes(1, 2 * kk.len()) + spec_pack_pk(spec_nibbles(kk)) + spec_scale(vv),
        ),
{
    let m = map_of(es);
    let path = Seq::<u8>::empty();
    let kn = spec_nibbles(kk);
    assert(m.dom().contains(kk));
    assert(key_extends(kk, path)) by {
        assert(path =~= kn.subrange(0, 0));
    }
    assert(pk_characterizes(m, path, kn)) by {
        crate::nibbles::lemma_nibbles_valid(kk);
        assert forall|k: Seq<u8>|
            #[trigger] m.dom().contains(k) && key_extends(k, path) implies (path
            + kn).is_prefix_of(spec_nibbles(k)) by {
            assert(k == kk);
            assert(path + kn =~= kn);
        }
        assert forall|n: u8| #![trigger (path + kn).push(n)] n < 16 implies exists|k: Seq<u8>|
            #[trigger] m.dom().contains(k) && key_extends(k, path) && !(path + kn).push(
                n,
            ).is_prefix_of(spec_nibbles(k)) by {
            assert((path + kn).push(n).len() > kn.len());
            assert(m.dom().contains(kk) && key_extends(kk, path) && !(path + kn).push(
                n,
            ).is_prefix_of(spec_nibbles(kk)));
        }
    }
    lemma_spec_pk_characterizes(m, path);
    lemma_partial_key_unique(m, path, kn, spec_pk(m, path));
    let d = path + spec_pk(m, path);
    assert(d =~= kn);
    crate::nibbles::lemma_path_bytes_of_nibbles(kk);
    assert(crate::merkle::spec_has_value(m, d)) by {
        assert(spec_path_bytes(d) =~= spec_path_bytes(kn));
    }
    assert(!spec_has_children(m, d)) by {
        if spec_has_children(m, d) {
            let k = choose|k: Seq<u8>|
                #[trigger] m.dom().contains(k) && in_child_range(
                    k,
                    crate::merkle::even_front(d),
                );
            assert(k == kk);
            assert(crate::merkle::even_front(d) =~= kn);
        }
    }
    assert forall|j: nat| j < 16 implies !spec_has_children(
        m,
        d.push(#[trigger] (j as u8)),
    ) by {
        if spec_has_children(m, d.push((j as u8))) {
            let k = choose|k: Seq<u8>|
                #[trigger] m.dom().contains(k) && in_child_range(
                    k,
                    crate::merkle::even_front(d.push((j as u8))),
                );
            assert(k == kk);
            assert(crate::merkle::even_front(d.push((j as u8))) =~= kn);
        }
    }
    lemma_bitmap_zero(m, d, 16);
    assert(m[spec_path_bytes(d)] == vv) by {
        assert(spec_path_bytes(d) =~= kk);
    }
    assert(spec_node_value(es, path) =~= spec_header_bytes(1, 2 * kk.len()) + spec_pack_pk(kn)
        + spec_scale(vv)) by {
        assert(crate::merkle::spec_kind_at(m, d) == 1);
        assert(spec_pk(m, path).len() == 2 * kk.len());
        assert(spec_pack_pk(spec_pk(m, path)) == spec_pack_pk(kn));
    }
}


/// Packing an even nibble sequence into bytes is injective.
proof fn lemma_path_bytes_injective(p1: Seq<u8>, p2: Seq<u8>)
    requires
        valid_nibbles(p1),
        valid_nibbles(p2),
        p1.len() == p2.len(),
        p1.len() % 2 == 0,
        spec_path_bytes(p1) == spec_path_bytes(p2),
    ensures
        p1 == p2,
{
    assert forall|j: int| 0 <= j < p1.len() implies p1[j] == p2[j] by {
        let i = j / 2;
        assert(spec_path_bytes(p1)[i] == spec_path_bytes(p2)[i]);
        assert(p1[2 * i] * 16 + p1[2 * i + 1] == p2[2 * i] * 16 + p2[2 * i + 1]) by {
            assert((p1[2 * i] * 16 + p1[2 * i + 1]) < 256 && (p2[2 * i] * 16 + p2[2 * i + 1])
                < 256) by (nonlinear_arith)
                requires
                    p1[2 * i] < 16 && p1[2 * i + 1] < 16 && p2[2 * i] < 16 && p2[2 * i + 1]
                        < 16,
            ;
            assert(spec_path_bytes(p1)[i] == (p1[2 * i] * 16 + p1[2 * i + 1]) as u8);
            assert(spec_path_bytes(p2)[i] == (p2[2 * i] * 16 + p2[2 * i + 1]) as u8);
            assert(((p1[2 * i] * 16 + p1[2 * i + 1]) as u8) == ((p2[2 * i] * 16 + p2[2 * i
                + 1]) as u8));
        }
        assert(p1[2 * i] == p2[2 * i] && p1[2 * i + 1] == p2[2 * i + 1]) by (nonlinear_arith)
            requires
                p1[2 * i] < 16 && p1[2 * i + 1] < 16 && p2[2 * i] < 16 && p2[2 * i + 1] < 16,
                p1[2 * i] * 16 + p1[2 * i + 1] == p2[2 * i] * 16 + p2[2 * i + 1],
        ;
        if j % 2 == 0 {
            assert(j == 2 * i);
        } else {
            assert(j == 2 * i + 1);
        }
    }
    assert(p1 =~= p2);
}

/// Packing a partial key is injective for a fixed nibble count: a
/// decoder that learns the count from the header recovers the packed
/// nibble sequence exactly.
pub proof fn lemma_pack_pk_injective(p1: Seq<u8>, p2: Seq<u8>)
    requires
        valid_nibbles(p1),
        valid_nibbles(p2),
        p1.len() == p2.len(),
        spec_pack_pk(p1) == spec_pack_pk(p2),
    ensures
        p1 == p2,
{
    if p1.len() % 2 == 0 {
        lemma_path_bytes_injective(p1, p2);
    } else {
        let t1 = p1.subrange(1, p1.len() as int);
        let t2 = p2.subrange(1, p2.len() as int);
        assert(spec_pack_pk(p1)[0] == p1[0] * 16 && spec_pack_pk(p2)[0] == p2[0] * 16);
        assert(p1[0] == p2[0]);
        assert(spec_path_bytes(t1) == spec_path_bytes(t2)) by {
            assert(spec_path_bytes(t1) =~= spec_pack_pk(p1).subrange(
                1,
                spec_pack_pk(p1).len() as int,
            ));
            assert(spec_path_bytes(t2) =~= spec_pack_pk(p2).subrange(
                1,
                spec_pack_pk(p2).len() as int,
            ));
        }
        lemma_path_bytes_injective(t1, t2);
        assert(p1 =~= p2) by {
            assert forall|j: int| 0 <= j < p1.len() implies p1[j] == p2[j] by {
                if j > 0 {
                    assert(p1[j] == t1[j - 1] && p2[j] == t2[j - 1]);
                }
            }
        }
    }
}


/// The merkle value of every node depends only on the represented
/// key-value mapping, never on the order in which entries were inserted
/// or stored.
pub proof fn lemma_merkle_map_only(
    es1: Seq<(Vec<u8>, Vec<u8>)>,
    es2: Seq<(Vec<u8>, Vec<u8>)>,
    path: Seq<u8>,
)
    requires
        map_of(es1) == map_of(es2),
    ensures
        spec_merkle(es1, path) == spec_merkle(es2, path),
    decreases 2 * max_klen(es1) + 2 - path.len(), 3int, 0int,
{
    lemma_node_value_map_only(es1, es2, path);
}

proof fn lemma_node_value_map_only(
    es1: Seq<(Vec<u8>, Vec<u8>)>,
    es2: Seq<(Vec<u8>, Vec<u8>)>,
    path: Seq<u8>,
)
    requires
        map_of(es1) == map_of(es2),
    ensures
        spec_node_value(es1, path) == spec_node_value(es2, path),
    decreases 2 * max_klen(es1) + 2 - path.len(), 2int, 0int,
{
    let m = map_of(es1);
    let pk = spec_pk(m, path);
    let d = path + pk;
    if pk.len() > 0 {
        lemma_spec_pk_characterizes(m, path);
        let k0 = choose|k: Seq<u8>| #[trigger] m.dom().contains(k) && key_extends(k, path);
        assert((path + pk).is_prefix_of(crate::nibbles::spec_nibbles(k0)));
        lemma_dom_key_bound(es1, k0);
    }
    lemma_subvalue_map_only(es1, es2, d);
}

proof fn lemma_subvalue_map_only(
    es1: Seq<(Vec<u8>, Vec<u8>)>,
    es2: Seq<(Vec<u8>, Vec<u8>)>,
    d: Seq<u8>,
)
    requires
        map_of(es1) == map_of(es2),
    ensures
        spec_subvalue(es1, d) == spec_subvalue(es2, d),
    decreases 2 * max_klen(es1) + 2 - d.len(), 1int, 0int,
{
    let m = map_of(es1);
    assert(spec_value_enc(es1, d) == spec_value_enc(es2, d));
    if spec_bitmap_val(m, d, 16) != 0 {
        lemma_children_cat_map_only(es1, es2, d, 16);
    }
}

proof fn lemma_children_cat_map_only(
    es1: Seq<(Vec<u8>, Vec<u8>)>,
    es2: Seq<(Vec<u8>, Vec<u8>)>,
    d: Seq<u8>,
    n: nat,
)
    requires
        map_of(es1) == map_of(es2),
        n <= 16,
        spec_bitmap_val(map_of(es1), d, 16) != 0,
    ensures
        spec_children_cat(es1, d, n) == spec_children_cat(es2, d, n),
    decreases 2 * max_klen(es1) + 2 - d.len(), 0int, n,
{
    if n > 0 {
        lemma_children_cat_map_only(es1, es2, d, (n - 1) as nat);
        lemma_bitmap_nonzero(map_of(es1), d, 16);
        let j = choose|j: nat|
            j < 16 && spec_has_children(map_of(es1), d.push(#[trigger] (j as u8)));
        lemma_child_key_long(map_of(es1), d, j as u8);
        let k = choose|k: Seq<u8>|
            #[trigger] map_of(es1).dom().contains(k) && 2 * k.len() >= d.len() + 2;
        lemma_dom_key_bound(es1, k);
        lemma_merkle_map_only(es1, es2, d.push((n - 1) as u8));
    }
}

/// Prefix removal is exact: after inserting `k1 -> v1` and `k2 -> v2`
/// where `k2` starts with the bytes of `k1`, removing the keys prefixed by
/// `k1` removes both entries, and every key that does not start with `k1`
/// keeps exactly the binding it had.
pub proof fn lemma_remove_prefix_exact(
    m: Map<Seq<u8>, Seq<u8>>,
    k1: Seq<u8>,
    v1: Seq<u8>,
    k2: Seq<u8>,
    v2: Seq<u8>,
)
    requires
        k1.is_prefix_of(k2),
    ensures
        ({
            let after = m.insert(k1, v1).insert(k2, v2).remove_keys(
                Set::new(|k: Seq<u8>| k1.is_prefix_of(k)),
            );
            &&& !after.dom().contains(k1)
            &&& !after.dom().contains(k2)
            &&& forall|k: Seq<u8>|
                !k1.is_prefix_of(k) ==> after.dom().contains(k) == m.dom().contains(k)
            &&& forall|k: Seq<u8>|
                !k1.is_prefix_of(k) && m.dom().contains(k) ==> after[k] == m[k]
        }),
{
    assert(k1.is_prefix_of(k1)) by {
        assert(k1.subrange(0, k1.len() as int) =~= k1);
    }
    let pfxset = Set::new(|k: Seq<u8>| k1.is_prefix_of(k));
    let after = m.insert(k1, v1).insert(k2, v2).remove_keys(pfxset);
    assert(pfxset.contains(k1));
    assert(pfxset.contains(k2));
    assert forall|k: Seq<u8>| !k1.is_prefix_of(k) implies after.dom().contains(k)
        == m.dom().contains(k) by {
        assert(!pfxset.contains(k));
        assert(k != k1 && k != k2);
    }
    assert forall|k: Seq<u8>| !k1.is_prefix_of(k) && m.dom().contains(k) implies after[k]
        == m[k] by {
        assert(!pfxset.contains(k));
        assert(k != k1 && k != k2);
    }
}

} // verus!

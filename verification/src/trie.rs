//! The trie and its flat store: an owned list of key/value entries with
//! pairwise distinct keys, viewed as a map from byte-string key to
//! byte-string value.

use vstd::prelude::*;
use vstd::map::*;

verus! {

/// The index of the entry holding key `k`.
pub open spec fn idx_of(es: Seq<(Vec<u8>, Vec<u8>)>, k: Seq<u8>) -> int {
    choose|i: int| 0 <= i < es.len() && es[i].0@ == k
}

/// The mapping that a list of entries represents.
pub open spec fn map_of(es: Seq<(Vec<u8>, Vec<u8>)>) -> Map<Seq<u8>, Seq<u8>> {
    Map::new(
        |k: Seq<u8>| exists|i: int| 0 <= i < es.len() && es[i].0@ == k,
        |k: Seq<u8>| es[idx_of(es, k)].1@,
    )
}

/// No two entries share a key.
pub open spec fn keys_distinct(es: Seq<(Vec<u8>, Vec<u8>)>) -> bool {
    forall|i: int, j: int| 0 <= i < j < es.len() ==> es[i].0@ != es[j].0@
}

/// A radix-16 Merkle-Patricia trie over byte-string keys and values.
pub struct Trie {
    pub entries: Vec<(Vec<u8>, Vec<u8>)>,
}

impl View for Trie {
    type V = Map<Seq<u8>, Seq<u8>>;

    open spec fn view(&self) -> Map<Seq<u8>, Seq<u8>> {
        map_of(self.entries@)
    }
}

pub proof fn lemma_map_of_index(es: Seq<(Vec<u8>, Vec<u8>)>, i: int)
    requires
        keys_distinct(es),
        0 <= i < es.len(),
    ensures
        map_of(es).dom().contains(es[i].0@),
        map_of(es)[es[i].0@] == es[i].1@,
{
    let k = es[i].0@;
    let j = idx_of(es, k);
    assert(0 <= j < es.len() && es[j].0@ == k);
    assert(j == i);
}

impl Trie {
    /// The structural invariant: keys are unique and every stored value is
    /// short enough for its length-prefixed encoding.
    pub open spec fn wf(&self) -> bool {
        &&& keys_distinct(self.entries@)
        &&& forall|i: int|
            0 <= i < self.entries@.len() ==> self.entries@[i].1@.len() <= 0xFFFF_FFFF
    }

    /// Builds a new empty trie.
    pub fn new() -> (r: Trie)
        ensures
            r.wf(),
            r@ == Map::<Seq<u8>, Seq<u8>>::empty(),
    {
        let t = Trie { entries: Vec::new() };
        proof {
            assert(t@ =~= Map::<Seq<u8>, Seq<u8>>::empty());
        }
        t
    }

    /// Inserts a new entry in the trie, overwriting the value if the key is
    /// already present.  The value must be short enough for its
    /// length-prefixed encoding, a limit of the binary format.
    pub fn insert(&mut self, key: Vec<u8>, value: Vec<u8>)
        requires
            old(self).wf(),
            value@.len() <= 0xFFFF_FFFF,
        ensures
            final(self).wf(),
            final(self)@ == old(self)@.insert(key@, value@),
    {
        let ghost orig = self.entries@;
        let mut i: usize = 0;
        while i < self.entries.len()
            invariant
                orig == old(self).entries@,
                old(self).wf(),
                value@.len() <= 0xFFFF_FFFF,
                self.entries@ == orig,
                forall|j: int| 0 <= j < i ==> orig[j].0@ != key@,
                i <= orig.len(),
            decreases orig.len() - i,
        {
            if bytes_eq(&self.entries[i].0, &key) {
                self.entries[i] = (key, value);
                proof {
                    let es = self.entries@;
                    assert forall|k: Seq<u8>| true implies #[trigger] map_of(es).dom().contains(k)
                        == map_of(orig).insert(key@, value@).dom().contains(k) by {
                        if map_of(es).dom().contains(k) {
                            let j = choose|j: int| 0 <= j < es.len() && es[j].0@ == k;
                            if j != i {
                                assert(orig[j].0@ == k);
                            }
                        }
                        if map_of(orig).dom().contains(k) {
                            let j = choose|j: int| 0 <= j < orig.len() && orig[j].0@ == k;
                            if j != i {
                                assert(es[j].0@ == k);
                            }
                        }
                        assert(es[i as int].0@ == key@);
                    }
                    assert(keys_distinct(es)) by {
                        assert forall|a: int, b: int| 0 <= a < b < es.len() implies es[a].0@
                            != es[b].0@ by {
                            if a != i && b != i {
                                assert(orig[a].0@ != orig[b].0@);
                            } else if a == i {
                                assert(orig[b].0@ != orig[i as int].0@);
                            } else {
                                assert(orig[a].0@ != orig[i as int].0@);
                            }
                        }
                    }
                    assert forall|k: Seq<u8>| map_of(es).dom().contains(k) implies map_of(es)[k]
                        == map_of(orig).insert(key@, value@)[k] by {
                        let j = idx_of(es, k);
                        assert(0 <= j < es.len() && es[j].0@ == k);
                        if j == i {
                            assert(map_of(es)[k] == value@);
                        } else {
                            assert(k != key@);
                            lemma_map_of_index(orig, j);
                            assert(map_of(es)[k] == es[j].1@);
                        }
                    }
                    assert forall|j: int| 0 <= j < es.len() implies es[j].1@.len()
                        <= 0xFFFF_FFFF by {
                        if j != i {
                            assert(es[j] == orig[j]);
                            assert(old(self).entries@[j].1@.len() <= 0xFFFF_FFFF);
                            assert(orig[j].1@.len() <= 0xFFFF_FFFF);
                        } else {
                            assert(es[j].1@ == value@);
                        }
                    }
                    assert(map_of(es) =~= map_of(orig).insert(key@, value@));
                }
                return ;
            }
            i = i + 1;
        }
        self.entries.push((key, value));
        proof {
            let es = self.entries@;
            assert(es == orig.push((key, value)));
            assert forall|k: Seq<u8>| true implies #[trigger] map_of(es).dom().contains(k)
                == map_of(orig).insert(key@, value@).dom().contains(k) by {
                if map_of(es).dom().contains(k) {
                    let j = choose|j: int| 0 <= j < es.len() && es[j].0@ == k;
                    if j < orig.len() {
                        assert(orig[j].0@ == k);
                    } else {
                        assert(k == key@);
                    }
                }
                if map_of(orig).dom().contains(k) {
                    let j = choose|j: int| 0 <= j < orig.len() && orig[j].0@ == k;
                    assert(es[j].0@ == k);
                }
                assert(es[es.len() - 1].0@ == key@);
            }
            assert(keys_distinct(es)) by {
                assert forall|a: int, b: int| 0 <= a < b < es.len() implies es[a].0@ != es[b].0@
                    by {
                    if b < es.len() - 1 {
                        assert(orig[a].0@ != orig[b].0@);
                    } else {
                        assert(orig[a].0@ != key@);
                    }
                }
            }
            assert forall|k: Seq<u8>| map_of(es).dom().contains(k) implies map_of(es)[k] == map_of(
                orig,
            ).insert(key@, value@)[k] by {
                let j = idx_of(es, k);
                assert(0 <= j < es.len() && es[j].0@ == k);
                if j == es.len() - 1 {
                    assert(map_of(es)[k] == value@);
                } else {
                    assert(k != key@);
                    lemma_map_of_index(orig, j);
                }
            }
            assert(map_of(es) =~= map_of(orig).insert(key@, value@));
        }
    }

    /// Returns true if the trie is empty.
    pub fn is_empty(&self) -> (r: bool)
        ensures
            r == (self@ == Map::<Seq<u8>, Seq<u8>>::empty()),
    {
        let r = self.entries.len() == 0;
        proof {
            if self.entries@.len() == 0 {
                assert(self@ =~= Map::<Seq<u8>, Seq<u8>>::empty());
            } else {
                assert(self.entries@[0].0@ == self.entries@[0].0@);
                assert(self@.dom().contains(self.entries@[0].0@));
                assert(!Map::<Seq<u8>, Seq<u8>>::empty().dom().contains(self.entries@[0].0@));
            }
        }
        r
    }

    /// Removes all the elements from the trie.
    pub fn clear(&mut self)
        ensures
            final(self).wf(),
            final(self)@ == Map::<Seq<u8>, Seq<u8>>::empty(),
    {
        self.entries = Vec::new();
        proof {
            assert(self@ =~= Map::<Seq<u8>, Seq<u8>>::empty());
        }
    }

    /// The index of some entry whose key starts with `prefix`, if any.
    fn find_prefixed(&self, prefix: &Vec<u8>) -> (r: Option<usize>)
        ensures
            r is Some ==> 0 <= r->Some_0 < self.entries@.len() && prefix@.is_prefix_of(
                self.entries@[r->Some_0 as int].0@,
            ),
            r is None ==> forall|j: int|
                0 <= j < self.entries@.len() ==> !prefix@.is_prefix_of(
                    (#[trigger] self.entries@[j]).0@,
                ),
    {
        let mut i: usize = 0;
        while i < self.entries.len()
            invariant
                i <= self.entries@.len(),
                forall|j: int|
                    0 <= j < i ==> !prefix@.is_prefix_of((#[trigger] self.entries@[j]).0@),
            decreases self.entries@.len() - i,
        {
            if crate::nibbles::is_prefix(prefix, &self.entries[i].0) {
                return Some(i);
            }
            i = i + 1;
        }
        None
    }

    /// Removes from the trie all the keys that start with `prefix`,
    /// including `prefix` itself.
    pub fn remove_prefix(&mut self, prefix: &Vec<u8>)
        requires
            old(self).wf(),
        ensures
            final(self).wf(),
            final(self)@ == old(self)@.remove_keys(
                Set::new(|k: Seq<u8>| prefix@.is_prefix_of(k)),
            ),
    {
        let ghost pfxset = Set::new(|k: Seq<u8>| prefix@.is_prefix_of(k));
        let ghost target = old(self)@.remove_keys(pfxset);
        let mut found = self.find_prefixed(prefix);
        while found.is_some()
            invariant
                self.wf(),
                self@.remove_keys(pfxset) == target,
                pfxset == Set::new(|k: Seq<u8>| prefix@.is_prefix_of(k)),
                target == old(self)@.remove_keys(pfxset),
                found is Some ==> 0 <= found->Some_0 < self.entries@.len()
                    && prefix@.is_prefix_of(self.entries@[found->Some_0 as int].0@),
                found is None ==> forall|j: int|
                    0 <= j < self.entries@.len() ==> !prefix@.is_prefix_of(
                        (#[trigger] self.entries@[j]).0@,
                    ),
            decreases self.entries@.len(),
        {
            let i = match found {
                Some(i) => i,
                None => 0,
            };
            let ghost pre = self.entries@;
            let ghost k0 = pre[i as int].0@;
            let _removed = self.entries.remove(i);
            proof {
                lemma_map_of_remove(pre, i as int);
                assert(map_of(self.entries@).remove_keys(pfxset) =~= map_of(pre).remove_keys(
                    pfxset,
                )) by {
                    assert(map_of(self.entries@) == map_of(pre).remove(k0));
                    assert(pfxset.contains(k0));
                }
                assert forall|j: int| 0 <= j < self.entries@.len() implies self.entries@[j].1@.len()
                    <= 0xFFFF_FFFF by {
                    if j < i {
                        assert(self.entries@[j] == pre[j]);
                    } else {
                        assert(self.entries@[j] == pre[j + 1]);
                    }
                }
            }
            found = self.find_prefixed(prefix);
        }
        proof {
            assert(self@ =~= self@.remove_keys(pfxset)) by {
                assert forall|k: Seq<u8>| self@.dom().contains(k) implies !pfxset.contains(k) by {
                    let j = choose|j: int|
                        0 <= j < self.entries@.len() && self.entries@[j].0@ == k;
                    assert(!prefix@.is_prefix_of(self.entries@[j].0@));
                }
            }
        }
    }

    /// The value stored under the exact byte key, if any.
    pub fn stored_value(&self, key: &Vec<u8>) -> (r: Option<Vec<u8>>)
        requires
            self.wf(),
        ensures
            r is Some <==> self@.dom().contains(key@),
            r is Some ==> r->Some_0@ == self@[key@] && r->Some_0@.len() <= 0xFFFF_FFFF,
    {
        let mut i: usize = 0;
        while i < self.entries.len()
            invariant
                self.wf(),
                i <= self.entries@.len(),
                forall|j: int| 0 <= j < i ==> self.entries@[j].0@ != key@,
            decreases self.entries@.len() - i,
        {
            if bytes_eq(&self.entries[i].0, key) {
                let v = copy_bytes(&self.entries[i].1);
                proof {
                    lemma_map_of_index(self.entries@, i as int);
                }
                return Some(v);
            }
            i = i + 1;
        }
        proof {
            if self@.dom().contains(key@) {
                let j = choose|j: int|
                    0 <= j < self.entries@.len() && self.entries@[j].0@ == key@;
                assert(self.entries@[j].0@ != key@);
            }
        }
        None
    }
}

/// True exactly when the two byte strings are equal.
pub fn bytes_eq(a: &Vec<u8>, b: &Vec<u8>) -> (r: bool)
    ensures
        r == (a@ == b@),
{
    if a.len() != b.len() {
        return false;
    }
    let mut i: usize = 0;
    while i < a.len()
        invariant
            a@.len() == b@.len(),
            i <= a@.len(),
            forall|j: int| 0 <= j < i ==> a@[j] == b@[j],
        decreases a@.len() - i,
    {
        if a[i] != b[i] {
            return false;
        }
        i = i + 1;
    }
    proof {
        assert(a@ =~= b@);
    }
    true
}

/// A fresh copy of a byte string.
pub fn copy_bytes(v: &Vec<u8>) -> (r: Vec<u8>)
    ensures
        r@ == v@,
{
    let mut r: Vec<u8> = Vec::new();
    let mut i: usize = 0;
    while i < v.len()
        invariant
            i <= v@.len(),
            r@ == v@.subrange(0, i as int),
        decreases v@.len() - i,
    {
        r.push(v[i]);
        i = i + 1;
        proof {
            assert(r@ =~= v@.subrange(0, i as int));
        }
    }
    proof {
        assert(v@.subrange(0, v@.len() as int) =~= v@);
    }
    r
}

/// Removing the entry at index `i` removes exactly its key from the
/// represented mapping.
proof fn lemma_map_of_remove(es: Seq<(Vec<u8>, Vec<u8>)>, i: int)
    requires
        keys_distinct(es),
        0 <= i < es.len(),
    ensures
        keys_distinct(es.remove(i)),
        map_of(es.remove(i)) == map_of(es).remove(es[i].0@),
{
    let er = es.remove(i);
    let k0 = es[i].0@;
    assert forall|a: int, b: int| 0 <= a < b < er.len() implies er[a].0@ != er[b].0@ by {
        let oa: int = if a < i { a } else { a + 1 };
        let ob: int = if b < i { b } else { b + 1 };
        assert(er[a] == es[oa] && er[b] == es[ob]);
        assert(es[oa].0@ != es[ob].0@);
    }
    assert forall|k: Seq<u8>| true implies #[trigger] map_of(er).dom().contains(k) == map_of(
        es,
    ).remove(k0).dom().contains(k) by {
        if map_of(er).dom().contains(k) {
            let m = choose|m: int| 0 <= m < er.len() && er[m].0@ == k;
            let om: int = if m < i { m } else { m + 1 };
            assert(er[m] == es[om]);
            assert(es[om].0@ == k);
            assert(es[om].0@ != es[i].0@);
        }
        if map_of(es).remove(k0).dom().contains(k) {
            let j = choose|j: int| 0 <= j < es.len() && es[j].0@ == k;
            assert(j != i);
            let m: int = if j < i { j } else { j - 1 };
            assert(er[m] == es[j]);
            assert(er[m].0@ == k);
        }
    }
    assert forall|k: Seq<u8>| map_of(er).dom().contains(k) implies map_of(er)[k] == map_of(
        es,
    ).remove(k0)[k] by {
        let m = idx_of(er, k);
        assert(0 <= m < er.len() && er[m].0@ == k);
        let om: int = if m < i { m } else { m + 1 };
        assert(er[m] == es[om]);
        lemma_map_of_index(er, m);
        lemma_map_of_index(es, om);
    }
    assert(map_of(er) =~= map_of(es).remove(k0));
}

} // verus!

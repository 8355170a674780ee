//! The abstract model of a cache: its entries from most- to least-recently used.

use vstd::prelude::*;

verus! {

/// Whether some entry of `s` holds the key `k`.
pub open spec fn has_key<K, V>(s: Seq<(K, V)>, k: K) -> bool {
    exists|i: int| 0 <= i < s.len() && (#[trigger] s[i]).0 == k
}

/// No two entries of `s` hold the same key.
pub open spec fn keys_distinct<K, V>(s: Seq<(K, V)>) -> bool {
    forall|i: int, j: int|
        0 <= i < s.len() && 0 <= j < s.len() && (#[trigger] s[i]).0 == (#[trigger] s[j]).0 ==> i == j
}

/// The position of the entry that holds `k`, where there is one.
pub open spec fn key_index<K, V>(s: Seq<(K, V)>, k: K) -> int {
    choose|i: int| 0 <= i < s.len() && (#[trigger] s[i]).0 == k
}

/// The entries of `s` with the one at position `i` moved to the front.
pub open spec fn touched<K, V>(s: Seq<(K, V)>, i: int) -> Seq<(K, V)> {
    seq![s[i]] + s.remove(i)
}

/// The entries of `s` but the one that holds `k`.
pub open spec fn without_key<K, V>(s: Seq<(K, V)>, k: K) -> Seq<(K, V)> {
    if has_key(s, k) {
        s.remove(key_index(s, k))
    } else {
        s
    }
}

/// The entries after `(k, v)` is stored in a cache that holds `s` and at most
/// `capacity` entries: the new entry goes to the front, replacing any entry of
/// the same key, and the entry at the back leaves if the count exceeds the
/// capacity.
pub open spec fn inserted<K, V>(s: Seq<(K, V)>, k: K, v: V, capacity: nat) -> Seq<(K, V)> {
    let t = seq![(k, v)] + without_key(s, k);
    if t.len() > capacity {
        t.drop_last()
    } else {
        t
    }
}

/// The keys that the entries of `s` hold.
pub open spec fn key_set<K, V>(s: Seq<(K, V)>) -> Set<K> {
    s.map_values(|e: (K, V)| e.0).to_set()
}

/// Entries with distinct keys hold as many keys as there are entries.
pub proof fn lemma_key_count<K, V>(s: Seq<(K, V)>)
    requires
        keys_distinct(s),
    ensures
        key_set(s).len() == s.len(),
{
    let ks = s.map_values(|e: (K, V)| e.0);
    assert forall|i: int, j: int| 0 <= i < ks.len() && 0 <= j < ks.len() && i != j implies ks[i]
        != ks[j] by {
        assert(s[i].0 == ks[i] && s[j].0 == ks[j]);
    }
    ks.unique_seq_to_set();
}

/// Storing under a key that is already present replaces its value, makes
/// its entry the most recently used, keeps the others in their order, and
/// leaves the count unchanged: no other entry is evicted.
pub proof fn lemma_reinsert_present<K, V>(s: Seq<(K, V)>, k: K, v: V, capacity: nat)
    requires
        keys_distinct(s),
        s.len() <= capacity,
        has_key(s, k),
    ensures
        inserted(s, k, v, capacity).len() == s.len(),
        inserted(s, k, v, capacity)[0] == (k, v),
        inserted(s, k, v, capacity).drop_first() == s.remove(key_index(s, k)),
        forall|i: int| 0 < i < s.len() ==> (#[trigger] inserted(s, k, v, capacity)[i]).0 != k,
{
    let r = inserted(s, k, v, capacity);
    let p = key_index(s, k);
    assert(r.drop_first() =~= s.remove(p));
    assert forall|i: int| 0 < i < s.len() implies (#[trigger] inserted(s, k, v, capacity)[i]).0 != k by {
        if i - 1 < p {
            assert(r[i] == s[i - 1]);
        } else {
            assert(r[i] == s[i]);
        }
    }
}

/// Storing under a new key in a full cache evicts exactly the entry at the
/// back: the one that has gone longest without a lookup or an insertion.
pub proof fn lemma_evicts_least_recent<K, V>(s: Seq<(K, V)>, k: K, v: V, capacity: nat)
    requires
        keys_distinct(s),
        s.len() == capacity,
        capacity > 0,
        !has_key(s, k),
    ensures
        inserted(s, k, v, capacity) == seq![(k, v)] + s.drop_last(),
        !has_key(inserted(s, k, v, capacity), s.last().0),
        forall|i: int| 0 <= i < s.len() - 1 ==> has_key(inserted(s, k, v, capacity), #[trigger] s[i].0),
{
    let r = inserted(s, k, v, capacity);
    assert(r =~= seq![(k, v)] + s.drop_last());
    if has_key(r, s.last().0) {
        let i = choose|i: int| 0 <= i < r.len() && (#[trigger] r[i]).0 == s.last().0;
        if i == 0 {
            assert(s[s.len() - 1].0 == k);
        } else {
            assert(r[i] == s[i - 1]);
        }
    }
    assert forall|i: int| 0 <= i < s.len() - 1 implies has_key(r, #[trigger] s[i].0) by {
        assert(r[i + 1] == s[i]);
    }
}

} // verus!

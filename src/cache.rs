//! The cache: a hash index from key to arena slot, and a doubly-linked
//! recency list threaded through the arena by slot numbers.

use std::collections::HashMap;
use std::hash::Hash;
use vstd::prelude::*;
use vstd::pervasive::strictly_cloned;
use vstd::std_specs::hash::obeys_key_model;
use crate::recency::{has_key, inserted, key_index, key_set, keys_distinct, lemma_key_count, touched, without_key};

verus! {

broadcast use vstd::std_specs::hash::group_hash_axioms;

/// A stored key/value pair.
struct Entry<K, V> {
    key: K,
    value: V,
}

/// The neighbours of a slot in the recency list: `prev` is more recent,
/// `next` less recent.
#[derive(Clone, Copy)]
struct Link {
    prev: Option<usize>,
    next: Option<usize>,
}

/// Cloning a key gives an equal key.
pub open spec fn clone_preserves<K: Clone>() -> bool {
    forall|a: K, b: K| #[trigger] strictly_cloned(a, b) ==> a == b
}

/// A cache of at most `capacity` entries that, when full, evicts the entry
/// that has gone longest without a lookup or an insertion.
pub struct LruCache<K, V> {
    capacity: usize,
    index: HashMap<K, usize>,
    slots: Vec<Option<Entry<K, V>>>,
    links: Vec<Link>,
    free: Vec<usize>,
    head: Option<usize>,
    tail: Option<usize>,
    /// Slot numbers of the live entries, most recent first.
    order: Ghost<Seq<usize>>,
}

impl<K, V> LruCache<K, V> {
    spec fn entry_at(&self, j: usize) -> (K, V) {
        let e = self.slots@[j as int]->0;
        (e.key, e.value)
    }

    /// The links thread the slots of `order` in that order.
    spec fn list_wf(&self) -> bool {
        let ord = self.order@;
        &&& self.links@.len() == self.slots@.len()
        &&& ord.no_duplicates()
        &&& forall|i: int| 0 <= i < ord.len() ==> #[trigger] ord[i] < self.slots@.len()
        &&& forall|i: int| 0 <= i < ord.len() ==> (#[trigger] self.links@[ord[i] as int]).prev
            == (if i == 0 { None } else { Some(ord[i - 1]) })
        &&& forall|i: int| 0 <= i < ord.len() ==> (#[trigger] self.links@[ord[i] as int]).next
            == (if i == ord.len() - 1 { None } else { Some(ord[i + 1]) })
        &&& self.head == (if ord.len() == 0 { None } else { Some(ord[0]) })
        &&& self.tail == (if ord.len() == 0 { None } else { Some(ord.last()) })
    }

    /// The occupied slots are those of `order`.
    spec fn occupancy_wf(&self) -> bool {
        forall|x: usize| x < self.slots@.len() ==> ((#[trigger] self.slots@[x as int]) is Some
            <==> self.order@.contains(x))
    }

    /// The free stack holds distinct vacant slots.
    spec fn free_wf(&self) -> bool {
        &&& self.free@.no_duplicates()
        &&& forall|i: int| 0 <= i < self.free@.len() ==> #[trigger] self.free@[i] < self.slots@.len()
            && self.slots@[self.free@[i] as int] is None
    }

    /// The index maps each live key to its slot, and nothing else.
    spec fn index_wf(&self) -> bool {
        let ord = self.order@;
        &&& self.index@.len() == ord.len()
        &&& forall|i: int| 0 <= i < ord.len() ==> {
            let k = (#[trigger] self.slots@[ord[i] as int])->0.key;
            self.index@.contains_key(k) && self.index@[k] == ord[i]
        }
        &&& forall|k: K| #[trigger] self.index@.contains_key(k) ==> {
            let j = self.index@[k];
            j < self.slots@.len() && self.slots@[j as int] is Some
                && self.slots@[j as int]->0.key == k
        }
    }

    /// The largest number of entries the cache holds.
    pub closed spec fn max_len(&self) -> nat {
        self.capacity as nat
    }
}

impl<K, V> LruCache<K, V> {
    /// Takes the slot at position `p` of the recency list out of the list.
    fn unlink(&mut self, j: usize, Ghost(p): Ghost<int>)
        requires
            old(self).list_wf(),
            0 <= p < old(self).order@.len(),
            old(self).order@[p] == j,
        ensures
            final(self).list_wf(),
            final(self).order@ == old(self).order@.remove(p),
            final(self).slots == old(self).slots,
            final(self).index == old(self).index,
            final(self).free == old(self).free,
            final(self).capacity == old(self).capacity,
    {
        let ghost ord = self.order@;
        let link = self.links[j];
        match link.prev {
            Some(pj) => {
                let mut l = self.links[pj];
                l.next = link.next;
                self.links.set(pj, l);
            },
            None => {
                self.head = link.next;
            },
        }
        match link.next {
            Some(nj) => {
                let mut l = self.links[nj];
                l.prev = link.prev;
                self.links.set(nj, l);
            },
            None => {
                self.tail = link.prev;
            },
        }
        self.order = Ghost(ord.remove(p));
        proof {
            let nord = self.order@;
            assert forall|i: int| 0 <= i < nord.len() implies #[trigger] nord[i] < self.slots@.len() by {
                if i >= p {
                    assert(nord[i] == ord[i + 1]);
                }
            }
            assert forall|i: int| 0 <= i < nord.len() implies (#[trigger] self.links@[nord[i] as int]).prev
                == (if i == 0 { None } else { Some(nord[i - 1]) }) by {
                if i < p {
                    assert(nord[i] == ord[i]);
                } else {
                    assert(nord[i] == ord[i + 1]);
                }
            }
            assert forall|i: int| 0 <= i < nord.len() implies (#[trigger] self.links@[nord[i] as int]).next
                == (if i == nord.len() - 1 { None } else { Some(nord[i + 1]) }) by {
                if i < p {
                    assert(nord[i] == ord[i]);
                } else {
                    assert(nord[i] == ord[i + 1]);
                }
            }
        }
    }

    /// Puts the slot `j`, which is not in the recency list, at its front.
    fn push_front(&mut self, j: usize)
        requires
            old(self).list_wf(),
            j < old(self).slots@.len(),
            !old(self).order@.contains(j),
        ensures
            final(self).list_wf(),
            final(self).order@ == seq![j] + old(self).order@,
            final(self).slots == old(self).slots,
            final(self).index == old(self).index,
            final(self).free == old(self).free,
            final(self).capacity == old(self).capacity,
    {
        let ghost ord = self.order@;
        match self.head {
            Some(h) => {
                let mut l = self.links[h];
                l.prev = Some(j);
                self.links.set(h, l);
            },
            None => {
                self.tail = Some(j);
            },
        }
        self.links.set(j, Link { prev: None, next: self.head });
        self.head = Some(j);
        self.order = Ghost(seq![j] + ord);
        proof {
            let nord = self.order@;
            assert forall|i: int| 0 < i < nord.len() implies nord[i] == ord[i - 1] by {}
            assert(nord.no_duplicates());
        }
    }
}

impl<K: Hash + Eq + Clone, V> LruCache<K, V> {
    /// What the index says of the keys, stated over the model.
    proof fn lemma_index_model(&self)
        requires
            self.list_wf(),
            self.occupancy_wf(),
            self.index_wf(),
        ensures
            keys_distinct(self@),
            forall|k: K| #[trigger] has_key(self@, k) <==> self.index@.contains_key(k),
            forall|k: K| #[trigger] self.index@.contains_key(k) ==> {
                let p = key_index(self@, k);
                0 <= p < self@.len() && self.order@[p] == self.index@[k] && self@[p].0 == k
            },
    {
        let s = self@;
        let ord = self.order@;
        assert forall|i: int, j: int|
            0 <= i < s.len() && 0 <= j < s.len() && (#[trigger] s[i]).0 == (#[trigger] s[j]).0 implies i == j by {
            assert(self.slots@[ord[i] as int] is Some);
            assert(self.slots@[ord[j] as int] is Some);
        }
        assert forall|k: K| #[trigger] has_key(self@, k) implies self.index@.contains_key(k) by {
            let i = choose|i: int| 0 <= i < s.len() && (#[trigger] s[i]).0 == k;
            assert(self.slots@[ord[i] as int] is Some);
        }
        assert forall|k: K| #[trigger] self.index@.contains_key(k) implies {
            let p = key_index(self@, k);
            0 <= p < self@.len() && self.order@[p] == self.index@[k] && self@[p].0 == k
        } by {
            let j = self.index@[k];
            assert(self.slots@[j as int] is Some);
            assert(ord.contains(j));
            let q = choose|q: int| 0 <= q < ord.len() && ord[q] == j;
            assert(s[q].0 == k);
            assert(has_key(s, k));
            let p = key_index(s, k);
            assert(s[p].0 == s[q].0);
        }
    }

    /// Stores a new entry in a vacant slot, reusing a released one where
    /// there is one.
    fn get_free_entry(&mut self, key: K, value: V) -> (r: usize)
        requires
            old(self).list_wf(),
            old(self).occupancy_wf(),
            old(self).free_wf(),
        ensures
            final(self).list_wf(),
            final(self).free_wf(),
            final(self).order == old(self).order,
            final(self).index == old(self).index,
            final(self).capacity == old(self).capacity,
            r < final(self).slots@.len(),
            !old(self).order@.contains(r),
            final(self).slots@[r as int] == (Some(Entry { key, value })),
            final(self).slots@.len() == old(self).slots@.len() || (r == old(self).slots@.len()
                && final(self).slots@.len() == r + 1),
            forall|j: int| 0 <= j < old(self).slots@.len() && j != r ==> #[trigger] final(self).slots@[j]
                == old(self).slots@[j],
    {
        let e = Entry { key, value };
        match self.free.pop() {
            Some(j) => {
                assert(old(self).free@.last() == j);
                assert(old(self).slots@[j as int] is None);
                self.slots.set(j, Some(e));
                proof {
                    assert forall|i: int| 0 <= i < self.free@.len() implies #[trigger] self.free@[i] < self.slots@.len()
                        && self.slots@[self.free@[i] as int] is None by {
                        assert(old(self).free@[i] == self.free@[i]);
                        assert(self.free@[i] != j);
                    }
                }
                j
            },
            None => {
                let j = self.slots.len();
                self.slots.push(Some(e));
                self.links.push(Link { prev: None, next: None });
                proof {
                    let ord = self.order@;
                    assert forall|i: int| 0 <= i < ord.len() implies (#[trigger] self.links@[ord[i] as int]) == old(self).links@[ord[i] as int] by {}
                    if ord.contains(j) {
                        let q = choose|q: int| 0 <= q < ord.len() && ord[q] == j;
                        assert(ord[q] < old(self).slots@.len());
                    }
                }
                j
            },
        }
    }

    /// Releases the entry in slot `j`, which has left the recency list.
    fn free_entry(&mut self, j: usize) -> (r: Entry<K, V>)
        requires
            old(self).free_wf(),
            j < old(self).slots@.len(),
            old(self).slots@[j as int] is Some,
        ensures
            final(self).free_wf(),
            r == old(self).slots@[j as int]->0,
            final(self).slots@ == old(self).slots@.update(j as int, None),
            final(self).order == old(self).order,
            final(self).links == old(self).links,
            final(self).head == old(self).head,
            final(self).tail == old(self).tail,
            final(self).index == old(self).index,
            final(self).capacity == old(self).capacity,
    {
        let mut taken: Option<Entry<K, V>> = None;
        self.slots.set_and_swap(j, &mut taken);
        proof {
            assert forall|i: int| 0 <= i < self.free@.len() implies self.free@[i] != j by {}
        }
        self.free.push(j);
        taken.unwrap()
    }
}

impl<K, V> View for LruCache<K, V> {
    type V = Seq<(K, V)>;

    /// The entries, most recently used first.
    closed spec fn view(&self) -> Seq<(K, V)> {
        self.order@.map_values(|j: usize| self.entry_at(j))
    }
}

impl<K: Hash + Eq + Clone, V> LruCache<K, V> {
    /// The cache is consistent: index, arena and recency list agree, keys
    /// are distinct and the count is within the capacity.
    pub closed spec fn wf(&self) -> bool {
        &&& self.parts_wf()
        &&& self@.len() <= self.capacity
    }

    /// Consistency of the parts, whatever the count.
    spec fn parts_wf(&self) -> bool {
        &&& obeys_key_model::<K>()
        &&& clone_preserves::<K>()
        &&& self.list_wf()
        &&& self.occupancy_wf()
        &&& self.free_wf()
        &&& self.index_wf()
    }

    /// An empty cache that holds at most `capacity` entries.
    pub fn new(capacity: usize) -> (r: Self)
        requires
            obeys_key_model::<K>(),
            clone_preserves::<K>(),
        ensures
            r.wf(),
            r@ == Seq::<(K, V)>::empty(),
            r.max_len() == capacity,
    {
        LruCache {
            capacity,
            index: HashMap::with_capacity(capacity),
            slots: Vec::new(),
            links: Vec::new(),
            free: Vec::new(),
            head: None,
            tail: None,
            order: Ghost(Seq::empty()),
        }
    }

    /// The number of entries held.
    pub fn len(&self) -> (r: usize)
        requires
            self.wf(),
        ensures
            r == self@.len(),
    {
        self.index.len()
    }

    /// Moves the slot `j`, at position `p` of the recency list, to its front.
    fn touch(&mut self, j: usize, Ghost(p): Ghost<int>)
        requires
            old(self).wf(),
            0 <= p < old(self).order@.len(),
            old(self).order@[p] == j,
        ensures
            final(self).wf(),
            final(self)@ == touched(old(self)@, p),
            final(self).order@[0] == j,
            final(self).slots == old(self).slots,
            final(self).index == old(self).index,
            final(self).capacity == old(self).capacity,
    {
        let ghost s = self@;
        self.unlink(j, Ghost(p));
        self.push_front(j);
        proof {
            assert(self.order@ =~= seq![j] + old(self).order@.remove(p));
            assert forall|x: usize| x < self.slots@.len() implies ((#[trigger] self.slots@[x as int]) is Some
                <==> self.order@.contains(x)) by {
                if old(self).order@.contains(x) {
                    let q = choose|q: int| 0 <= q < old(self).order@.len() && old(self).order@[q] == x;
                    if q < p {
                        assert(self.order@[q + 1] == x);
                    } else if q > p {
                        assert(self.order@[q] == x);
                    }
                }
            }
            assert(self@ =~= touched(s, p));
            assert forall|i: int| 0 <= i < self.order@.len() implies {
                let k = (#[trigger] self.slots@[self.order@[i] as int])->0.key;
                self.index@.contains_key(k) && self.index@[k] == self.order@[i]
            } by {
                if i == 0 {
                } else if i - 1 < p {
                    assert(self.order@[i] == old(self).order@[i - 1]);
                } else {
                    assert(self.order@[i] == old(self).order@[i]);
                }
            }
        }
    }

    /// The value stored under `key`, if any; a hit makes the entry the most
    /// recently used, a miss changes nothing.
    pub fn get(&mut self, key: &K) -> (r: Option<&V>)
        requires
            old(self).wf(),
        ensures
            final(self).wf(),
            final(self).max_len() == old(self).max_len(),
            match r {
                Some(v) => {
                    let i = key_index(old(self)@, *key);
                    &&& has_key(old(self)@, *key)
                    &&& *v == old(self)@[i].1
                    &&& final(self)@ == touched(old(self)@, i)
                },
                None => !has_key(old(self)@, *key) && final(self)@ == old(self)@,
            },
    {
        proof {
            self.lemma_index_model();
        }
        let j = match self.index.get(key) {
            Some(j) => *j,
            None => {
                return None;
            },
        };
        let ghost p = key_index(self@, *key);
        self.touch(j, Ghost(p));
        match &self.slots[j] {
            Some(e) => Some(&e.value),
            None => None,
        }
    }

    /// Takes the entry in slot `j`, at position `p` of the recency list, out
    /// of the list and the index, and releases it.
    fn release(&mut self, j: usize, Ghost(p): Ghost<int>)
        requires
            old(self).parts_wf(),
            0 <= p < old(self).order@.len(),
            old(self).order@[p] == j,
        ensures
            final(self).parts_wf(),
            final(self)@ == old(self)@.remove(p),
            final(self).capacity == old(self).capacity,
    {
        let ghost s = self@;
        let ghost ord = self.order@;
        let ghost idx = self.index@;
        proof {
            self.lemma_index_model();
        }
        self.unlink(j, Ghost(p));
        let e = self.free_entry(j);
        self.index.remove(&e.key);
        proof {
            let nord = self.order@;
            let key = e.key;
            assert(idx.contains_key(key) && idx[key] == j);
            assert(self.index@ == idx.remove(key));
            assert forall|i: int| 0 <= i < nord.len() implies #[trigger] nord[i] != j by {
                if i < p {
                    assert(nord[i] == ord[i]);
                } else {
                    assert(nord[i] == ord[i + 1]);
                }
            }
            assert forall|x: usize| x < self.slots@.len() implies ((#[trigger] self.slots@[x as int]) is Some
                <==> nord.contains(x)) by {
                if x != j {
                    if ord.contains(x) {
                        let q = choose|q: int| 0 <= q < ord.len() && ord[q] == x;
                        if q < p {
                            assert(nord[q] == x);
                        } else {
                            assert(nord[q - 1] == x);
                        }
                    }
                    if nord.contains(x) {
                        let q = choose|q: int| 0 <= q < nord.len() && nord[q] == x;
                        if q < p {
                            assert(ord[q] == x);
                        } else {
                            assert(ord[q + 1] == x);
                        }
                    }
                }
            }
            assert forall|i: int| 0 <= i < nord.len() implies {
                let k = (#[trigger] self.slots@[nord[i] as int])->0.key;
                self.index@.contains_key(k) && self.index@[k] == nord[i]
            } by {
                if i < p {
                    assert(nord[i] == ord[i]);
                } else {
                    assert(nord[i] == ord[i + 1]);
                }
            }
            assert forall|k: K| #[trigger] self.index@.contains_key(k) implies {
                let x = self.index@[k];
                x < self.slots@.len() && self.slots@[x as int] is Some && self.slots@[x as int]->0.key == k
            } by {
                assert(idx.contains_key(k));
            }
            assert(self@ =~= s.remove(p));
        }
    }

    /// Removes the entry of `key`, if there is one.
    pub fn remove(&mut self, key: &K)
        requires
            old(self).wf(),
        ensures
            final(self).wf(),
            final(self).max_len() == old(self).max_len(),
            final(self)@ == without_key(old(self)@, *key),
    {
        proof {
            self.lemma_index_model();
        }
        let j = match self.index.get(key) {
            Some(j) => *j,
            None => {
                return;
            },
        };
        let ghost p = key_index(self@, *key);
        self.release(j, Ghost(p));
    }

    /// Stores `value` under `key` as the most recently used entry, replacing
    /// the entry of `key` if there is one, and otherwise evicting the least
    /// recently used entry when the count would exceed the capacity.
    pub fn insert(&mut self, key: K, value: V)
        requires
            old(self).wf(),
        ensures
            final(self).wf(),
            final(self).max_len() == old(self).max_len(),
            final(self)@ == inserted(old(self)@, key, value, old(self).max_len()),
    {
        let ghost s = self@;
        proof {
            self.lemma_index_model();
        }
        let found = match self.index.get(&key) {
            Some(j) => Some(*j),
            None => None,
        };
        match found {
            Some(j) => {
                let ghost p = key_index(s, key);
                self.touch(j, Ghost(p));
                let ghost mid = self@;
                self.slots.set(j, Some(Entry { key, value }));
                proof {
                    let ord = self.order@;
                    assert(s[p].0 == key);
                    assert forall|i: int| 0 < i < ord.len() implies #[trigger] ord[i] != j by {
                        assert(ord[0] == j);
                    }
                    assert(self@ =~= mid.update(0, (key, value)));
                    assert(self@ =~= inserted(s, key, value, self.capacity as nat));
                }
            },
            None => {
                let k2 = key.clone();
                proof {
                    assert(strictly_cloned(key, k2));
                }
                let j = self.get_free_entry(k2, value);
                let ghost ord0 = self.order@;
                let ghost slots0 = old(self).slots@;
                self.push_front(j);
                self.index.insert(key, j);
                proof {
                    let ord = self.order@;
                    assert forall|x: usize| x < self.slots@.len() implies ((#[trigger] self.slots@[x as int]) is Some
                        <==> ord.contains(x)) by {
                        if x != j {
                            assert(self.slots@[x as int] == slots0[x as int]);
                            if ord0.contains(x) {
                                let q = choose|q: int| 0 <= q < ord0.len() && ord0[q] == x;
                                assert(ord[q + 1] == x);
                            }
                            if ord.contains(x) {
                                let q = choose|q: int| 0 <= q < ord.len() && ord[q] == x;
                                assert(ord0[q - 1] == x);
                            }
                        } else {
                            assert(ord[0] == j);
                        }
                    }
                    assert forall|i: int| 0 < i < ord.len() implies #[trigger] ord[i] != j && ord[i] == ord0[i - 1]
                        && self.slots@[ord[i] as int] == slots0[ord[i] as int] by {
                        assert(ord0.contains(ord0[i - 1]));
                        assert(ord0[i - 1] < slots0.len());
                    }
                    assert forall|i: int| 0 <= i < ord.len() implies {
                        let k = (#[trigger] self.slots@[ord[i] as int])->0.key;
                        self.index@.contains_key(k) && self.index@[k] == ord[i]
                    } by {
                        if i > 0 {
                            assert(ord[i] == ord0[i - 1]);
                        }
                    }
                    assert forall|k: K| #[trigger] self.index@.contains_key(k) implies {
                        let x = self.index@[k];
                        x < self.slots@.len() && self.slots@[x as int] is Some
                            && self.slots@[x as int]->0.key == k
                    } by {
                        if k != key {
                            let x = old(self).index@[k];
                            assert(slots0[x as int] is Some);
                            assert(ord0.contains(x));
                        }
                    }
                    assert(self@ =~= seq![(key, value)] + s);
                }
                if self.index.len() > self.capacity {
                    match self.tail {
                        Some(t) => {
                            let ghost n = self.order@.len() - 1;
                            self.release(t, Ghost(n));
                            proof {
                                assert(self@ =~= inserted(s, key, value, self.capacity as nat));
                            }
                        },
                        None => {},
                    }
                }
            },
        }
    }
}

/// In every state a cache can reach, its entries hold distinct keys, its
/// count is the number of keys it tracks, and that count is within its
/// capacity (so a cache of capacity zero is always empty).
pub proof fn lemma_tracked_keys<K: Hash + Eq + Clone, V>(c: &LruCache<K, V>)
    requires
        c.wf(),
    ensures
        keys_distinct(c@),
        key_set(c@).len() == c@.len(),
        c@.len() <= c.max_len(),
        c.max_len() == 0 ==> c@.len() == 0,
{
    c.lemma_index_model();
    lemma_key_count(c@);
}

} // verus!

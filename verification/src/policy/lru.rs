use vstd::prelude::*;

use crate::ordered::{
    OrderedMap, has_key, key_set, keys_of, lemma_key_set_len, lemma_pos_of, lemma_push_unique,
    lemma_remove_unique, pos_of,
};

use super::{AccessOutcome, CacheKey, ReplacementPolicy, drop_key};

verus! {

/// Least-recently-used replacement.
pub struct Lru<K> {
    order: OrderedMap<K, ()>,
    capacity: usize,
}

/// The most entries a policy built with `capacity` keeps resident.
pub open spec fn resident_bound(capacity: nat) -> nat {
    if capacity == 0 {
        1
    } else {
        capacity
    }
}

impl<K: CacheKey> Lru<K> {
    /// Resident keys from least to most recently used.
    pub closed spec fn recency(&self) -> Seq<K> {
        keys_of(self.order@)
    }

    pub closed spec fn lru_valid(&self) -> bool {
        &&& self.order.wf()
        &&& self.order@.len() <= resident_bound(self.capacity as nat)
    }

    pub fn new(capacity: usize) -> (r: Self)
        ensures
            r.lru_valid(),
            r.recency() == Seq::<K>::empty(),
            r.resident() == Set::<K>::empty(),
            r.cap() == capacity,
    {
        let r = Lru { order: OrderedMap::new(), capacity };
        assert(r.recency() =~= Seq::<K>::empty());
        assert(r.resident() =~= Set::<K>::empty());
        r
    }

    proof fn lemma_resident(&self)
        requires
            self.order.wf(),
        ensures
            self.resident() == key_set(self.order@),
            self.resident().finite(),
            self.resident().len() == self.order@.len(),
            self.recency().len() == self.order@.len(),
            self.recency().no_duplicates(),
            forall|k: K| self.recency().contains(k) <==> has_key(self.order@, k),
    {
        lemma_key_set_len(self.order@);
        let s = self.order@;
        let r = self.recency();
        assert forall|k: K| r.contains(k) <==> has_key(s, k) by {
            if r.contains(k) {
                let i = choose|i: int| 0 <= i < r.len() && r[i] == k;
                assert(s[i].0 == k);
            }
            if has_key(s, k) {
                let i = choose|i: int| 0 <= i < s.len() && s[i].0 == k;
                assert(r[i] == k);
            }
        }
        assert forall|i: int, j: int| 0 <= i < r.len() && 0 <= j < r.len() && i != j implies r[i] != r[j] by {
            assert(r[i] == s[i].0);
            assert(r[j] == s[j].0);
        }
    }

    /// One access under LRU: a hit moves the key to the most-recent end; a
    /// miss at capacity evicts the least recently used key first.
    pub fn access_lru(&mut self, key: K) -> (out: AccessOutcome<K>)
        requires
            old(self).lru_valid(),
        ensures
            final(self).lru_valid(),
            final(self).cap() == old(self).cap(),
            out.hit == old(self).recency().contains(key),
            out.hit ==> out.evicted is None && final(self).recency() == old(self).recency().remove(
                old(self).recency().index_of(key),
            ).push(key),
            !out.hit && old(self).recency().len() >= old(self).cap() && old(self).recency().len() > 0
                ==> out.evicted == Some(old(self).recency()[0]) && final(self).recency()
                == old(self).recency().drop_first().push(key),
            !out.hit && !(old(self).recency().len() >= old(self).cap() && old(self).recency().len()
                > 0) ==> out.evicted is None && final(self).recency() == old(self).recency().push(key),
    {
        let ghost s0 = self.order@;
        let ghost r0 = self.recency();
        proof {
            self.lemma_resident();
        }
        if self.order.touch_back(&key, ()) {
            proof {
                lemma_pos_of(s0, key);
                let p = pos_of(s0, key);
                assert(r0[p] == key);
                assert(r0.contains(key));
                assert(r0.index_of(key) == p) by {
                    let q = r0.index_of(key);
                    assert(r0[q] == key);
                    assert(s0[q].0 == key);
                }
                assert(self.recency() =~= r0.remove(p).push(key)) by {
                    assert forall|j: int| 0 <= j < self.recency().len() implies self.recency()[j] == r0.remove(p).push(key)[j] by {
                        if j < r0.len() - 1 {
                            let j0 = if j < p { j } else { j + 1 };
                            assert(self.order@[j] == s0.remove(p)[j]);
                            assert(s0.remove(p)[j] == s0[j0]);
                        }
                    }
                }
            }
            return AccessOutcome { hit: true, evicted: None };
        }
        let evicted = if self.order.len() >= self.capacity {
            match self.order.pop_front() {
                Some((k, _)) => Some(k),
                None => None,
            }
        } else {
            None
        };
        let ghost s1 = self.order@;
        proof {
            assert(!has_key(s1, key)) by {
                if has_key(s1, key) {
                    let i = choose|i: int| 0 <= i < s1.len() && s1[i].0 == key;
                    if evicted is Some {
                        assert(s1[i] == s0[i + 1]);
                    } else {
                        assert(s1[i] == s0[i]);
                    }
                }
            }
        }
        self.order.push_back(key, ());
        proof {
            let r = self.recency();
            if evicted is Some {
                assert(s1 == s0.remove(0));
                assert(r =~= r0.drop_first().push(key)) by {
                    assert forall|j: int| 0 <= j < r.len() implies r[j] == r0.drop_first().push(key)[j] by {
                        if j < r.len() - 1 {
                            assert(s1[j] == s0[j + 1]);
                        }
                    }
                }
            } else {
                assert(r =~= r0.push(key));
            }
        }
        AccessOutcome { hit: false, evicted }
    }
}

impl<K: CacheKey> Lru<K> {
    /// `next` is this cache after an access of `key`: a hit moves the key to
    /// the most-recent end; a miss at capacity first drops the least recent
    /// key; a missed key joins at the most-recent end.
    pub open spec fn lru_accessed(&self, next: Self, key: K) -> bool {
        let r = self.recency();
        &&& next.cap() == self.cap()
        &&& next.recency() == if r.contains(key) {
            r.remove(r.index_of(key)).push(key)
        } else if r.len() >= self.cap() && r.len() > 0 {
            r.drop_first().push(key)
        } else {
            r.push(key)
        }
    }

    /// `next` is this cache without `key`.
    pub open spec fn lru_removed(&self, next: Self, key: K) -> bool {
        &&& next.cap() == self.cap()
        &&& next.recency() == drop_key(self.recency(), key)
    }

    /// An LRU cache never holds more keys than its capacity (one, if built with none).
    pub proof fn lemma_within_capacity(&self)
        requires
            self.valid(),
        ensures
            self.resident().finite(),
            self.resident().len() <= resident_bound(self.cap()),
    {
        self.lemma_resident();
    }

    /// The resident keys are exactly the keys of the recency order, each
    /// listed once.
    pub proof fn lemma_recency_is_resident(&self)
        requires
            self.valid(),
        ensures
            self.recency().no_duplicates(),
            self.resident().finite(),
            self.resident().len() == self.recency().len(),
            forall|k: K| #[trigger] self.resident().contains(k) <==> self.recency().contains(k),
    {
        self.lemma_resident();
    }

    /// The resident keys are a function of the recency order.
    pub proof fn lemma_resident_of_recency(&self, other: Self)
        requires
            self.recency() == other.recency(),
        ensures
            self.resident() == other.resident(),
    {
        self.lemma_resident_keys();
        other.lemma_resident_keys();
        assert(self.resident() =~= other.resident());
    }

    proof fn lemma_resident_keys(&self)
        ensures
            forall|k: K| #[trigger] self.resident().contains(k) <==> self.recency().contains(k),
    {
        let s = self.order@;
        let r = self.recency();
        assert(r.len() == s.len());
        assert forall|k: K| self.resident().contains(k) <==> r.contains(k) by {
            if has_key(s, k) {
                let i = choose|i: int| 0 <= i < s.len() && s[i].0 == k;
                assert(r[i] == k);
            }
            if r.contains(k) {
                let i = choose|i: int| 0 <= i < r.len() && r[i] == k;
                assert(r[i] == s[i].0);
            }
        }
    }
}

impl<K: CacheKey> ReplacementPolicy<K> for Lru<K> {
    open spec fn valid(&self) -> bool {
        self.lru_valid()
    }

    closed spec fn resident(&self) -> Set<K> {
        key_set(self.order@)
    }

    closed spec fn cap(&self) -> nat {
        self.capacity as nat
    }

    fn access(&mut self, key: K) -> (out: AccessOutcome<K>)
        ensures
            old(self).lru_accessed(*final(self), key),
    {
        let ghost r0 = self.recency();
        proof {
            self.lemma_resident();
        }
        let out = self.access_lru(key);
        proof {
            self.lemma_resident();
            let r = self.recency();
            assert forall|k: K| r.contains(k) <==> r.to_set().contains(k) by {}
            if out.hit {
                assert(self.resident() =~= old(self).resident()) by {
                    assert forall|k: K| self.resident().contains(k) <==> old(self).resident().contains(k) by {
                        let p = r0.index_of(key);
                        assert(r0.contains(key));
                        if r.contains(k) {
                            let i = choose|i: int| 0 <= i < r.len() && r[i] == k;
                            if i == r.len() - 1 {
                                assert(r0[p] == k);
                            } else if i < p {
                                assert(r0[i] == k);
                            } else {
                                assert(r0[i + 1] == k);
                            }
                        }
                        if r0.contains(k) {
                            let i = choose|i: int| 0 <= i < r0.len() && r0[i] == k;
                            if i == p {
                                assert(r[r.len() - 1] == k);
                            } else if i < p {
                                assert(r[i] == k);
                            } else {
                                assert(r[i - 1] == k);
                            }
                        }
                    }
                }
            } else {
                match out.evicted {
                    Some(v) => {
                        assert(r0[0] == v);
                        assert(r0.contains(v));
                        assert(self.resident() =~= old(self).resident().remove(v).insert(key)) by {
                            assert forall|k: K| self.resident().contains(k) <==> old(self).resident().remove(v).insert(key).contains(k) by {
                                if r.contains(k) {
                                    let i = choose|i: int| 0 <= i < r.len() && r[i] == k;
                                    if i < r.len() - 1 {
                                        assert(r0[i + 1] == k);
                                        assert(r0[0] != r0[i + 1]);
                                    }
                                }
                                if r0.contains(k) && k != v {
                                    let i = choose|i: int| 0 <= i < r0.len() && r0[i] == k;
                                    assert(i != 0);
                                    assert(r[i - 1] == k);
                                }
                                if k == key {
                                    assert(r[r.len() - 1] == k);
                                }
                            }
                        }
                    },
                    None => {
                        assert(self.resident() =~= old(self).resident().insert(key)) by {
                            assert forall|k: K| self.resident().contains(k) <==> old(self).resident().insert(key).contains(k) by {
                                if r.contains(k) {
                                    let i = choose|i: int| 0 <= i < r.len() && r[i] == k;
                                    if i < r.len() - 1 {
                                        assert(r0[i] == k);
                                    }
                                }
                                if r0.contains(k) {
                                    let i = choose|i: int| 0 <= i < r0.len() && r0[i] == k;
                                    assert(r[i] == k);
                                }
                                if k == key {
                                    assert(r[r.len() - 1] == k);
                                }
                            }
                        }
                    },
                }
            }
        }
        out
    }

    fn remove(&mut self, key: &K) -> (r: bool)
        ensures
            old(self).lru_removed(*final(self), *key),
    {
        let ghost s0 = self.order@;
        proof {
            self.lemma_resident();
        }
        let r = self.order.remove(key);
        proof {
            let k0 = keys_of(s0);
            if r is Some {
                lemma_pos_of(s0, *key);
                let p = pos_of(s0, *key);
                lemma_remove_unique(s0, p);
                assert(k0[p] == *key);
                assert(k0.contains(*key));
                assert(k0.index_of(*key) == p) by {
                    assert(k0.no_duplicates());
                }
                assert(self.recency() =~= k0.remove(p));
            } else {
                assert(!k0.contains(*key)) by {
                    if k0.contains(*key) {
                        let i = choose|i: int| 0 <= i < k0.len() && k0[i] == *key;
                        assert(s0[i].0 == *key);
                    }
                }
                assert(self.recency() =~= k0);
            }
            assert(self.resident() =~= old(self).resident().remove(*key));
        }
        r.is_some()
    }

    fn len(&self) -> (r: usize) {
        proof {
            self.lemma_resident();
        }
        self.order.len()
    }

    fn capacity(&self) -> (r: usize) {
        self.capacity
    }

    fn name(&self) -> (r: &'static str)
        ensures
            r@ == "lru"@,
    {
        "lru"
    }

    fn contains(&self, key: &K) -> (r: bool) {
        self.order.contains(key)
    }
}

} // verus!

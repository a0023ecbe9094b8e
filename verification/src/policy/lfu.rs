use std::collections::HashMap;

use vstd::prelude::*;

use crate::ordered::{
    OrderedMap, has_key, key_set, keys_of, lemma_key_set_len, lemma_pos_of, lemma_push_unique,
    lemma_remove_unique, lemma_update_value, pos_of, unique_keys,
};

use super::lru::resident_bound;
use super::{AccessOutcome, CacheKey, ReplacementPolicy, drop_key};

verus! {

broadcast use vstd::std_specs::hash::group_hash_axioms;

/// Least-frequently-used replacement; among the keys of the lowest frequency
/// the one that reached that frequency first is evicted.
pub struct Lfu<K> {
    capacity: usize,
    freq: OrderedMap<K, u64>,
    buckets: HashMap<u64, OrderedMap<K, ()>>,
    min_freq: u64,
}

/// The frequency after one more access (it stops at the largest `u64`).
pub open spec fn bumped(f: u64) -> u64 {
    if f < u64::MAX {
        (f + 1) as u64
    } else {
        f
    }
}

/// The smallest count among the entries of `s` (0 when `s` is empty).
pub open spec fn seq_min_val<K>(s: Seq<(K, u64)>) -> u64
    decreases s.len(),
{
    if s.len() == 0 {
        0
    } else if s.len() == 1 {
        s[0].1
    } else {
        let r = seq_min_val(s.drop_first());
        if s[0].1 <= r {
            s[0].1
        } else {
            r
        }
    }
}

proof fn lemma_seq_min<K>(s: Seq<(K, u64)>)
    requires
        s.len() > 0,
    ensures
        exists|i: int| 0 <= i < s.len() && s[i].1 == seq_min_val(s),
        forall|i: int| 0 <= i < s.len() ==> seq_min_val(s) <= s[i].1,
    decreases s.len(),
{
    if s.len() == 1 {
        assert(s[0].1 == seq_min_val(s));
    } else {
        let t = s.drop_first();
        lemma_seq_min(t);
        let j = choose|j: int| 0 <= j < t.len() && t[j].1 == seq_min_val(t);
        assert(s[j + 1] == t[j]);
        if s[0].1 <= seq_min_val(t) {
            assert(s[0].1 == seq_min_val(s));
        } else {
            assert(s[j + 1].1 == seq_min_val(s));
        }
        assert forall|i: int| 0 <= i < s.len() implies seq_min_val(s) <= s[i].1 by {
            if i > 0 {
                assert(s[i] == t[i - 1]);
            }
        }
    }
}

/// The count stored for `k` in `fq`.
pub open spec fn freq_in<K>(fq: Seq<(K, u64)>, k: K) -> u64 {
    fq[pos_of(fq, k)].1
}

/// `m` is the count of some key of `fm` and no key of `fm` has less.
pub open spec fn is_lowest_count<K>(fm: Map<K, u64>, m: u64) -> bool {
    &&& exists|k: K| #[trigger] fm.contains_key(k) && fm[k] == m
    &&& forall|k: K| #[trigger] fm.contains_key(k) ==> m <= fm[k]
}

/// The lowest count in `fm`.
pub open spec fn lowest_count<K>(fm: Map<K, u64>) -> u64 {
    choose|m: u64| #[trigger] is_lowest_count(fm, m)
}

/// `k` is listed in the bucket of frequency `g` of `bk`.
pub open spec fn listed<K: CacheKey>(bk: Map<u64, OrderedMap<K, ()>>, g: u64, k: K) -> bool {
    bk.contains_key(g) && has_key(bk[g]@, k)
}

impl<K: CacheKey> Lfu<K> {
    #[verifier::inline]
    spec fn freq_of(&self, k: K) -> u64 {
        freq_in(self.freq@, k)
    }

    /// The access count of every resident key.
    pub closed spec fn freq_map(&self) -> Map<K, u64> {
        Map::new(|k: K| has_key(self.freq@, k), |k: K| self.freq_of(k))
    }

    /// The keys of frequency `f`, in the order they reached it.
    pub closed spec fn bucket(&self, f: u64) -> Seq<K> {
        if self.buckets@.contains_key(f) {
            keys_of(self.buckets@[f]@)
        } else {
            Seq::empty()
        }
    }

    /// The lowest frequency among the resident keys.
    pub open spec fn min_frequency(&self) -> u64 {
        lowest_count(self.freq_map())
    }

    /// `m` is the frequency of some resident key and no resident key has less.
    pub open spec fn is_min_frequency(&self, m: u64) -> bool {
        is_lowest_count(self.freq_map(), m)
    }

    /// `k` is listed in the bucket of frequency `g`.
    #[verifier::inline]
    spec fn in_bucket(&self, g: u64, k: K) -> bool {
        listed(self.buckets@, g, k)
    }

    spec fn buckets_wf(&self) -> bool {
        forall|f: u64| #[trigger]
            self.buckets@.contains_key(f) ==> self.buckets@[f].wf() && self.buckets@[f]@.len() > 0
    }

    spec fn buckets_consistent(&self) -> bool {
        &&& self.buckets_wf()
        &&& forall|g: u64, k: K| #[trigger]
            self.in_bucket(g, k) <==> (has_key(self.freq@, k) && self.freq_of(k) == g)
    }

    pub closed spec fn lfu_valid(&self) -> bool {
        &&& self.freq.wf()
        &&& self.buckets_consistent()
        &&& self.freq@.len() <= resident_bound(self.capacity as nat)
        &&& forall|k: K| #[trigger] has_key(self.freq@, k) ==> self.min_freq <= self.freq_of(k)
            && 1 <= self.freq_of(k)
    }

    /// `next` is this cache after an access of `key`: a hit moves the key up
    /// one frequency, to the back of that bucket; a miss at capacity first
    /// drops the oldest key of the lowest frequency; a missed key joins the
    /// back of the bucket of frequency one.
    pub open spec fn lfu_accessed(&self, next: Self, key: K) -> bool {
        let fm = self.freq_map();
        &&& next.cap() == self.cap()
        &&& fm.contains_key(key) ==> {
            let f = fm[key];
            &&& next.freq_map() == fm.insert(key, bumped(f))
            &&& forall|g: u64| g != f && g != bumped(f) ==> #[trigger] next.bucket(g) == self.bucket(g)
            &&& f != bumped(f) ==> next.bucket(f) == self.bucket(f).remove(self.bucket(f).index_of(key))
                && next.bucket(bumped(f)) == self.bucket(bumped(f)).push(key)
            &&& f == bumped(f) ==> next.bucket(f) == self.bucket(f).remove(self.bucket(f).index_of(key)).push(
                key,
            )
        }
        &&& !fm.contains_key(key) && fm.len() >= self.cap() && fm.len() > 0 ==> {
            let m = self.min_frequency();
            let v = self.bucket(m)[0];
            &&& next.freq_map() == fm.remove(v).insert(key, 1)
            &&& forall|g: u64| g != m && g != 1 ==> #[trigger] next.bucket(g) == self.bucket(g)
            &&& m != 1 ==> next.bucket(m) == self.bucket(m).drop_first() && next.bucket(1) == self.bucket(
                1,
            ).push(key)
            &&& m == 1 ==> next.bucket(1) == self.bucket(1).drop_first().push(key)
        }
        &&& !fm.contains_key(key) && !(fm.len() >= self.cap() && fm.len() > 0) ==> {
            &&& next.freq_map() == fm.insert(key, 1)
            &&& forall|g: u64| g != 1 ==> #[trigger] next.bucket(g) == self.bucket(g)
            &&& next.bucket(1) == self.bucket(1).push(key)
        }
    }

    /// `next` is this cache without `key`: it leaves the frequency map and
    /// its bucket.
    pub open spec fn lfu_removed(&self, next: Self, key: K) -> bool {
        &&& next.cap() == self.cap()
        &&& next.freq_map() == self.freq_map().remove(key)
        &&& forall|g: u64| #[trigger] next.bucket(g) == drop_key(self.bucket(g), key)
    }

    pub fn new(capacity: usize) -> (r: Self)
        ensures
            r.lfu_valid(),
            r.freq_map() == Map::<K, u64>::empty(),
            r.resident() == Set::<K>::empty(),
            r.cap() == capacity,
    {
        let r = Lfu { capacity, freq: OrderedMap::new(), buckets: HashMap::new(), min_freq: 0 };
        assert(r.freq_map() =~= Map::<K, u64>::empty());
        assert(r.resident() =~= Set::<K>::empty());
        r
    }

    proof fn lemma_freq_map(&self)
        requires
            self.freq.wf(),
        ensures
            self.freq_map().dom() == key_set(self.freq@),
            self.freq_map().dom().finite(),
            self.freq_map().len() == self.freq@.len(),
            self.resident() == self.freq_map().dom(),
    {
        lemma_key_set_len(self.freq@);
        assert(self.freq_map().dom() =~= key_set(self.freq@));
    }
}


impl<K: CacheKey> Lfu<K> {
    proof fn lemma_freq_of(&self, k: K)
        requires
            self.freq.wf(),
            has_key(self.freq@, k),
        ensures
            self.freq_map().contains_key(k),
            self.freq_map()[k] == self.freq_of(k),
            0 <= pos_of(self.freq@, k) < self.freq@.len(),
            self.freq@[pos_of(self.freq@, k)].0 == k,
    {
        lemma_pos_of(self.freq@, k);
    }

    /// The stored minimum is the true minimum once its bucket exists.
    proof fn lemma_min_frequency(&self)
        requires
            self.lfu_valid(),
            self.buckets@.contains_key(self.min_freq),
        ensures
            self.min_frequency() == self.min_freq,
            self.is_min_frequency(self.min_freq),
            self.freq_map().contains_key(self.bucket(self.min_freq)[0]),
            self.bucket(self.min_freq).len() > 0,
    {
        let b = self.buckets@[self.min_freq]@;
        assert(b.len() > 0);
        let k0 = b[0].0;
        assert(has_key(b, k0));
        assert(self.in_bucket(self.min_freq, k0));
        assert(has_key(self.freq@, k0) && self.freq_of(k0) == self.min_freq);
        self.lemma_freq_of(k0);
        assert(self.freq_map().contains_key(k0) && self.freq_map()[k0] == self.min_freq);
        assert forall|k: K| #[trigger] self.freq_map().contains_key(k) implies self.min_freq <= self.freq_map()[k] by {
            assert(has_key(self.freq@, k));
        }
        assert(self.is_min_frequency(self.min_freq));
        let m = self.min_frequency();
        let k1 = choose|k: K| #[trigger] self.freq_map().contains_key(k) && self.freq_map()[k] == m;
        assert(m <= self.freq_map()[k0]);
        assert(self.min_freq <= self.freq_map()[k1]);
        assert(self.bucket(self.min_freq)[0] == k0);
    }

    /// Consistency carries over when only the listing and count of `x` changed.
    proof fn lemma_consistent_except(&self, pre: &Self, x: K)
        requires
            pre.buckets_consistent(),
            self.buckets_wf(),
            forall|g: u64, k: K| k != x ==> #[trigger] self.in_bucket(g, k) == pre.in_bucket(g, k),
            forall|k: K| k != x ==> #[trigger] has_key(self.freq@, k) == has_key(pre.freq@, k),
            forall|k: K| k != x && #[trigger] has_key(pre.freq@, k) ==> self.freq_of(k) == pre.freq_of(k),
            forall|g: u64| #[trigger] self.in_bucket(g, x) <==> (has_key(self.freq@, x) && self.freq_of(x) == g),
        ensures
            self.buckets_consistent(),
    {
        assert forall|g: u64, k: K| #[trigger] self.in_bucket(g, k) <==> (has_key(self.freq@, k) && self.freq_of(k) == g) by {
            if k != x {
                assert(self.in_bucket(g, k) == pre.in_bucket(g, k));
                if has_key(pre.freq@, k) {
                    assert(pre.in_bucket(pre.freq_of(k), k));
                }
            }
        }
    }

    proof fn lemma_min_unique(&self, m: u64)
        requires
            self.is_min_frequency(m),
        ensures
            self.min_frequency() == m,
    {
        let m2 = self.min_frequency();
        assert(self.is_min_frequency(m2));
        let k1 = choose|k: K| #[trigger] self.freq_map().contains_key(k) && self.freq_map()[k] == m;
        let k2 = choose|k: K| #[trigger] self.freq_map().contains_key(k) && self.freq_map()[k] == m2;
        assert(m <= self.freq_map()[k2]);
        assert(m2 <= self.freq_map()[k1]);
    }

    /// When some key is resident, the lowest frequency has a bucket.
    proof fn lemma_min_exists(&self)
        requires
            self.lfu_valid(),
            self.freq@.len() > 0,
        ensures
            self.buckets@.contains_key(self.min_frequency()),
    {
        let s = self.freq@;
        lemma_seq_min(s);
        let m0 = seq_min_val(s);
        let i = choose|i: int| 0 <= i < s.len() && s[i].1 == m0;
        let k = s[i].0;
        assert(has_key(s, k));
        self.lemma_freq_of(k);
        assert(pos_of(s, k) == i);
        assert(self.freq_map().contains_key(k) && self.freq_map()[k] == m0);
        assert forall|k2: K| #[trigger] self.freq_map().contains_key(k2) implies m0 <= self.freq_map()[k2] by {
            self.lemma_freq_of(k2);
        }
        assert(self.is_min_frequency(m0));
        let m = self.min_frequency();
        let k1 = choose|k: K| #[trigger] self.freq_map().contains_key(k) && self.freq_map()[k] == m;
        assert(m <= self.freq_map()[k]);
        assert(m0 <= self.freq_map()[k1]);
        assert(m == m0);
        assert(self.in_bucket(self.freq_of(k), k));
    }

    /// Takes `key` out of the bucket of frequency `f`, dropping the bucket if it empties.
    fn detach(&mut self, key: &K, f: u64)
        requires
            old(self).in_bucket(f, *key),
            old(self).buckets_wf(),
        ensures
            final(self).freq == old(self).freq,
            final(self).min_freq == old(self).min_freq,
            final(self).capacity == old(self).capacity,
            final(self).buckets_wf(),
            forall|g: u64, k: K| #[trigger] final(self).in_bucket(g, k) == (old(self).in_bucket(g, k) && !(g == f && k == *key)),
            forall|g: u64| g != f ==> final(self).bucket(g) == old(self).bucket(g),
            final(self).bucket(f) == old(self).bucket(f).remove(pos_of(old(self).buckets@[f]@, *key)),
            final(self).buckets@.contains_key(f) == (old(self).bucket(f).len() > 1),
    {
        let ghost b0 = self.buckets@[f]@;
        let ghost m0 = self.buckets@;
        match self.buckets.remove(&f) {
            Some(mut b) => {
                proof {
                    lemma_pos_of(b0, *key);
                    lemma_remove_unique(b0, pos_of(b0, *key));
                }
                b.remove(key);
                if !b.is_empty() {
                    self.buckets.insert(f, b);
                }
                proof {
                    assert forall|g: u64, k: K| #[trigger] self.in_bucket(g, k) == (old(self).in_bucket(g, k) && !(g == f && k == *key)) by {
                        if g != f {
                            assert(self.buckets@.contains_key(g) == m0.contains_key(g));
                            if m0.contains_key(g) {
                                assert(self.buckets@[g] == m0[g]);
                            }
                        }
                    }
                    assert forall|g: u64| g != f implies self.bucket(g) == old(self).bucket(g) by {
                        if m0.contains_key(g) {
                            assert(self.buckets@[g] == m0[g]);
                        }
                    }
                    let r = b0.remove(pos_of(b0, *key));
                    assert(keys_of(r) =~= keys_of(b0).remove(pos_of(b0, *key)));
                    if r.len() == 0 {
                        assert(self.bucket(f) =~= keys_of(r));
                    }
                }
            },
            None => {
                proof {
                    assert(false);
                }
            },
        }
    }

    /// Appends `key` to the bucket of frequency `f`, creating the bucket if needed.
    fn bucket_push(&mut self, f: u64, key: K)
        requires
            !old(self).in_bucket(f, key),
            old(self).buckets_wf(),
        ensures
            final(self).freq == old(self).freq,
            final(self).min_freq == old(self).min_freq,
            final(self).capacity == old(self).capacity,
            final(self).buckets_wf(),
            forall|g: u64, k: K| #[trigger] final(self).in_bucket(g, k) == (old(self).in_bucket(g, k) || (g == f && k == key)),
            forall|g: u64| g != f ==> final(self).bucket(g) == old(self).bucket(g),
            final(self).bucket(f) == old(self).bucket(f).push(key),
            final(self).buckets@.contains_key(f),
    {
        let ghost m0 = self.buckets@;
        let mut b = match self.buckets.remove(&f) {
            Some(b) => b,
            None => OrderedMap::new(),
        };
        let ghost b0 = b@;
        proof {
            if !m0.contains_key(f) {
                assert(b0.len() == 0);
                assert(!has_key(b0, key));
            }
        }
        b.push_back(key, ());
        self.buckets.insert(f, b);
        proof {
            lemma_push_unique(b0, (key, ()));
            assert forall|g: u64, k: K| #[trigger] self.in_bucket(g, k) == (old(self).in_bucket(g, k) || (g == f && k == key)) by {
                if g != f {
                    if m0.contains_key(g) {
                        assert(self.buckets@[g] == m0[g]);
                    }
                }
            }
            assert forall|g: u64| g != f implies self.bucket(g) == old(self).bucket(g) by {
                if m0.contains_key(g) {
                    assert(self.buckets@[g] == m0[g]);
                }
            }
            assert(keys_of(b0.push((key, ()))) =~= keys_of(b0).push(key));
            if !m0.contains_key(f) {
                assert(keys_of(b0) =~= Seq::<K>::empty());
            }
        }
    }

    /// Removes the oldest key of the bucket of frequency `f`.
    fn bucket_pop(&mut self, f: u64) -> (r: Option<K>)
        requires
            old(self).buckets@.contains_key(f),
            old(self).buckets_wf(),
        ensures
            final(self).freq == old(self).freq,
            final(self).min_freq == old(self).min_freq,
            final(self).capacity == old(self).capacity,
            final(self).buckets_wf(),
            r == Some(old(self).bucket(f)[0]),
            old(self).in_bucket(f, old(self).bucket(f)[0]),
            forall|g: u64, k: K| #[trigger] final(self).in_bucket(g, k) == (old(self).in_bucket(g, k) && !(g == f && k == old(self).bucket(f)[0])),
            forall|g: u64| g != f ==> final(self).bucket(g) == old(self).bucket(g),
            final(self).bucket(f) == old(self).bucket(f).drop_first(),
    {
        let ghost b0 = self.buckets@[f]@;
        let ghost m0 = self.buckets@;
        let mut b = match self.buckets.remove(&f) {
            Some(b) => b,
            None => {
                proof {
                    assert(false);
                }
                OrderedMap::new()
            },
        };
        let r = match b.pop_front() {
            Some((k, _)) => k,
            None => {
                proof {
                    assert(false);
                }
                return None;
            },
        };
        if !b.is_empty() {
            self.buckets.insert(f, b);
        }
        proof {
            assert(has_key(b0, r));
            lemma_remove_unique(b0, 0);
            assert forall|g: u64, k: K| #[trigger] self.in_bucket(g, k) == (old(self).in_bucket(g, k) && !(g == f && k == r)) by {
                if g != f {
                    if m0.contains_key(g) {
                        assert(self.buckets@[g] == m0[g]);
                    }
                }
            }
            assert forall|g: u64| g != f implies self.bucket(g) == old(self).bucket(g) by {
                if m0.contains_key(g) {
                    assert(self.buckets@[g] == m0[g]);
                }
            }
            assert(keys_of(b0.remove(0)) =~= keys_of(b0).drop_first());
        }
        Some(r)
    }

    /// Raises `min_freq` to the lowest frequency that has a bucket.
    fn fix_min_freq(&mut self)
        requires
            old(self).lfu_valid(),
        ensures
            final(self).lfu_valid(),
            final(self).freq == old(self).freq,
            final(self).buckets == old(self).buckets,
            final(self).capacity == old(self).capacity,
            old(self).freq@.len() > 0 ==> final(self).buckets@.contains_key(final(self).min_freq),
    {
        if self.freq.is_empty() {
            return;
        }
        let ghost k0 = self.freq@[0].0;
        proof {
            assert(has_key(self.freq@, k0));
        }
        while !self.buckets.contains_key(&self.min_freq)
            invariant
                self.lfu_valid(),
                has_key(self.freq@, k0),
                self.freq == old(self).freq,
                self.buckets == old(self).buckets,
                self.capacity == old(self).capacity,
            decreases self.freq_of(k0) - self.min_freq,
        {
            proof {
                assert(self.min_freq <= self.freq_of(k0));
                assert(self.in_bucket(self.freq_of(k0), k0));
                assert(self.buckets@.contains_key(self.freq_of(k0)));
                assert(self.min_freq < self.freq_of(k0));
                assert forall|k: K| #[trigger] has_key(self.freq@, k) implies self.min_freq + 1 <= self.freq_of(k) by {
                    assert(self.in_bucket(self.freq_of(k), k));
                    assert(self.buckets@.contains_key(self.freq_of(k)));
                }
            }
            self.min_freq = self.min_freq + 1;
        }
    }
}


impl<K: CacheKey> Lfu<K> {
    /// One access under LFU. A hit raises the key's frequency by one and moves
    /// it to the back of the next bucket. A miss at capacity first evicts the
    /// front (oldest) key of the lowest-frequency bucket; the new key enters
    /// with frequency 1 at the back of bucket 1.
    pub fn access_lfu(&mut self, key: K) -> (out: AccessOutcome<K>)
        requires
            old(self).lfu_valid(),
        ensures
            final(self).lfu_valid(),
            final(self).cap() == old(self).cap(),
            out.hit == old(self).freq_map().contains_key(key),
            out.hit ==> {
                let f = old(self).freq_map()[key];
                &&& out.evicted is None
                &&& final(self).freq_map() == old(self).freq_map().insert(key, bumped(f))
                &&& forall|g: u64| g != f && g != bumped(f) ==> final(self).bucket(g) == old(self).bucket(g)
                &&& f != bumped(f) ==> final(self).bucket(f) == old(self).bucket(f).remove(
                    old(self).bucket(f).index_of(key),
                ) && final(self).bucket(bumped(f)) == old(self).bucket(bumped(f)).push(key)
                &&& f == bumped(f) ==> final(self).bucket(f) == old(self).bucket(f).remove(
                    old(self).bucket(f).index_of(key),
                ).push(key)
            },
            !out.hit && old(self).freq_map().len() >= old(self).cap() && old(self).freq_map().len() > 0
                ==> {
                let m = old(self).min_frequency();
                let v = old(self).bucket(m)[0];
                &&& out.evicted == Some(v)
                &&& final(self).freq_map() == old(self).freq_map().remove(v).insert(key, 1)
                &&& forall|g: u64| g != m && g != 1 ==> final(self).bucket(g) == old(self).bucket(g)
                &&& m != 1 ==> final(self).bucket(m) == old(self).bucket(m).drop_first()
                    && final(self).bucket(1) == old(self).bucket(1).push(key)
                &&& m == 1 ==> final(self).bucket(1) == old(self).bucket(1).drop_first().push(key)
            },
            !out.hit && !(old(self).freq_map().len() >= old(self).cap() && old(self).freq_map().len()
                > 0) ==> {
                &&& out.evicted is None
                &&& final(self).freq_map() == old(self).freq_map().insert(key, 1)
                &&& forall|g: u64| g != 1 ==> final(self).bucket(g) == old(self).bucket(g)
                &&& final(self).bucket(1) == old(self).bucket(1).push(key)
            },
    {
        proof {
            self.lemma_freq_map();
        }
        let ghost fm0 = self.freq_map();
        let ghost pre = *self;
        match self.freq.get(&key) {
            Some(fr) => {
                let f = *fr;
                let ghost p = pos_of(self.freq@, key);
                proof {
                    self.lemma_freq_of(key);
                    assert(self.in_bucket(f, key));
                    let bf = self.buckets@[f]@;
                    lemma_pos_of(bf, key);
                    let q = pos_of(bf, key);
                    assert(self.bucket(f)[q] == key);
                    assert(self.bucket(f).contains(key));
                    let q2 = self.bucket(f).index_of(key);
                    assert(bf[q2].0 == key);
                    assert(q2 == q);
                }
                self.detach(&key, f);
                let ghost d = *self;
                let nf = if f < u64::MAX {
                    f + 1
                } else {
                    f
                };
                let ghost fq0 = self.freq@;
                self.freq.set_value(&key, nf);
                proof {
                    lemma_update_value(fq0, p, nf);
                    assert forall|k: K| has_key(pre.freq@, k) implies self.freq_of(k) == (if k == key { nf } else { pre.freq_of(k) }) by {
                        lemma_pos_of(pre.freq@, k);
                    }
                    assert(forall|g: u64, k: K| #[trigger] self.in_bucket(g, k) == d.in_bucket(g, k));
                    assert(!self.in_bucket(nf, key)) by {
                        if self.in_bucket(nf, key) {
                            assert(d.in_bucket(nf, key));
                            assert(pre.in_bucket(nf, key));
                            assert(nf != f);
                        }
                    }
                }
                let ghost e = *self;
                self.bucket_push(nf, key);
                let ghost pp = *self;
                if self.min_freq == f && !self.buckets.contains_key(&f) {
                    self.min_freq = nf;
                }
                proof {
                    assert(forall|g: u64| e.bucket(g) == d.bucket(g));
                    assert(forall|g: u64| self.bucket(g) == pp.bucket(g));
                    assert(pre.bucket(f).index_of(key) == pos_of(pre.buckets@[f]@, key));
                    assert(forall|g: u64, k: K| #[trigger] e.in_bucket(g, k) == d.in_bucket(g, k));
                    assert forall|g: u64| #[trigger] self.in_bucket(g, key) <==> (has_key(self.freq@, key) && self.freq_of(key) == g) by {
                        assert(e.in_bucket(g, key) == d.in_bucket(g, key));
                        if g == f {
                            assert(pre.in_bucket(f, key));
                        }
                        assert(pre.in_bucket(g, key) <==> g == f);
                    }
                    assert forall|g: u64, k: K| k != key implies #[trigger] self.in_bucket(g, k) == pre.in_bucket(g, k) by {
                        assert(e.in_bucket(g, k) == d.in_bucket(g, k));
                    }
                    self.lemma_consistent_except(&pre, key);
                    assert forall|k: K| #[trigger] has_key(self.freq@, k) implies self.min_freq <= self.freq_of(k) && 1 <= self.freq_of(k) by {
                        assert(has_key(pre.freq@, k));
                        assert(pre.min_freq <= pre.freq_of(k));
                        if k != key && pre.min_freq == f && !self.buckets@.contains_key(f) {
                            assert(pre.in_bucket(pre.freq_of(k), k));
                            assert(self.in_bucket(pre.freq_of(k), k));
                        }
                    }
                    self.lemma_freq_map();
                    assert(self.freq_map() =~= fm0.insert(key, bumped(f)));
                }
                AccessOutcome { hit: true, evicted: None }
            },
            None => {
                proof {
                    assert(!fm0.contains_key(key));
                }
                let mut evicted: Option<K> = None;
                if self.freq.len() >= self.capacity {
                    self.fix_min_freq();
                    if self.buckets.contains_key(&self.min_freq) {
                        let m = self.min_freq;
                        proof {
                            self.lemma_min_frequency();
                        }
                        let ghost mid = *self;
                        proof {
                            assert(forall|g: u64| mid.bucket(g) == pre.bucket(g));
                            assert(mid.freq_map() =~= pre.freq_map());
                            assert(pre.is_min_frequency(mid.min_frequency()));
                            pre.lemma_min_unique(mid.min_frequency());
                        }
                        let popped = self.bucket_pop(m);
                        let ghost p1 = *self;
                        let victim = match popped {
                            Some(v) => v,
                            None => {
                                proof {
                                    assert(false);
                                }
                                key
                            },
                        };
                        let ghost fq1 = self.freq@;
                        proof {
                            assert(has_key(fq1, victim));
                            lemma_pos_of(fq1, victim);
                        }
                        self.freq.remove(&victim);
                        proof {
                            let pv = pos_of(fq1, victim);
                            lemma_remove_unique(fq1, pv);
                            assert forall|k: K| has_key(self.freq@, k) implies self.freq_of(k) == pre.freq_of(k) by {
                                lemma_pos_of(fq1, k);
                                lemma_pos_of(self.freq@, k);
                                let i = pos_of(self.freq@, k);
                                let i0 = if i < pv { i } else { i + 1 };
                                assert(fq1[i0].0 == k);
                            }
                            assert forall|g: u64, k: K| #[trigger] self.in_bucket(g, k) <==> (has_key(self.freq@, k) && self.freq_of(k) == g) by {
                                if has_key(pre.freq@, k) {
                                    assert(pre.in_bucket(pre.freq_of(k), k));
                                }
                            }
                        }
                        proof {
                            assert(forall|g: u64| self.bucket(g) == p1.bucket(g));
                            assert forall|k: K| has_key(self.freq@, k) implies has_key(pre.freq@, k) by {}
                        }
                        evicted = Some(victim);
                    } else {
                        proof {
                            assert(pre.freq@.len() == 0);
                        }
                    }
                } else {
                    proof {
                        assert(pre.freq@.len() < pre.capacity);
                    }
                }
                let ghost mid2 = *self;
                proof {
                    assert forall|k: K| #[trigger] has_key(mid2.freq@, k) implies has_key(pre.freq@, k)
                        && mid2.freq_of(k) == pre.freq_of(k) by {}
                    if evicted is None {
                        assert(forall|g: u64| mid2.bucket(g) == pre.bucket(g));
                        assert(!(fm0.len() >= pre.cap() && fm0.len() > 0)) by {
                            if fm0.len() >= pre.cap() && fm0.len() > 0 {
                                assert(pre.freq@.len() > 0);
                            }
                        }
                    }
                }
                proof {
                    assert(!has_key(self.freq@, key)) by {
                        if has_key(self.freq@, key) {
                            assert(self.freq@.len() > 0);
                        }
                    }
                    assert(!self.in_bucket(1, key));
                }
                let ghost fq2 = self.freq@;
                self.freq.push_back(key, 1);
                let ghost q1 = *self;
                self.bucket_push(1, key);
                let ghost pb = *self;
                self.min_freq = 1;
                proof {
                    assert(forall|g: u64| q1.bucket(g) == mid2.bucket(g));
                    assert(forall|g: u64| self.bucket(g) == pb.bucket(g));
                    lemma_push_unique(fq2, (key, 1u64));
                    assert forall|k: K| has_key(fq2, k) implies self.freq_of(k) == mid2.freq_of(k) by {
                        lemma_pos_of(fq2, k);
                        lemma_pos_of(self.freq@, k);
                    }
                    assert(self.freq_of(key) == 1) by {
                        lemma_pos_of(self.freq@, key);
                        assert(self.freq@[fq2.len() as int].0 == key);
                    }
                    assert forall|g: u64, k: K| #[trigger] self.in_bucket(g, k) <==> (has_key(self.freq@, k) && self.freq_of(k) == g) by {
                        if has_key(fq2, k) {
                            assert(mid2.in_bucket(mid2.freq_of(k), k));
                        }
                    }
                    assert forall|k: K| #[trigger] has_key(self.freq@, k) implies self.min_freq <= self.freq_of(k) && 1 <= self.freq_of(k) by {
                        if k != key {
                            assert(has_key(mid2.freq@, k));
                            assert(has_key(pre.freq@, k));
                        }
                    }
                    self.lemma_freq_map();
                    match evicted {
                        Some(v) => {
                            assert(self.freq_map() =~= fm0.remove(v).insert(key, 1));
                        },
                        None => {
                            assert(self.freq_map() =~= fm0.insert(key, 1));
                        },
                    }
                }
                AccessOutcome { hit: false, evicted }
            },
        }
    }
}


impl<K: CacheKey> Lfu<K> {
    /// An LFU cache never holds more keys than its capacity (one, if built with none).
    pub proof fn lemma_within_capacity(&self)
        requires
            self.valid(),
        ensures
            self.resident().finite(),
            self.resident().len() <= resident_bound(self.cap()),
    {
        self.lemma_freq_map();
    }

    /// The resident keys are the keys of the frequency map.
    pub proof fn lemma_resident_is_counted(&self)
        ensures
            self.resident() == self.freq_map().dom(),
    {
    }

    /// The resident keys are exactly the keys with an access count, and the
    /// bucket of frequency `g` lists, each once, exactly the resident keys
    /// with count `g`.
    pub proof fn lemma_buckets_are_resident(&self, g: u64)
        requires
            self.valid(),
        ensures
            self.resident() == self.freq_map().dom(),
            self.resident().finite(),
            self.resident().len() == self.freq_map().len(),
            self.bucket(g).no_duplicates(),
            forall|k: K| #[trigger]
                self.bucket(g).contains(k) <==> (self.freq_map().contains_key(k) && self.freq_map()[k]
                    == g),
    {
        self.lemma_freq_map();
        let b = self.bucket(g);
        if self.buckets@.contains_key(g) {
            let s = self.buckets@[g]@;
            assert(self.buckets@[g].wf());
            assert forall|k: K| b.contains(k) <==> has_key(s, k) by {
                if b.contains(k) {
                    let i = choose|i: int| 0 <= i < b.len() && b[i] == k;
                    assert(s[i].0 == k);
                }
                if has_key(s, k) {
                    let i = choose|i: int| 0 <= i < s.len() && s[i].0 == k;
                    assert(b[i] == k);
                }
            }
            assert forall|i: int, j: int| 0 <= i < b.len() && 0 <= j < b.len() && i != j implies b[i]
                != b[j] by {
                assert(b[i] == s[i].0);
                assert(b[j] == s[j].0);
            }
        }
        assert forall|k: K| #[trigger]
            b.contains(k) <==> (self.freq_map().contains_key(k) && self.freq_map()[k] == g) by {
            assert(self.in_bucket(g, k) <==> (has_key(self.freq@, k) && self.freq_of(k) == g));
        }
    }
}

impl<K: CacheKey> ReplacementPolicy<K> for Lfu<K> {
    open spec fn valid(&self) -> bool {
        self.lfu_valid()
    }

    closed spec fn resident(&self) -> Set<K> {
        self.freq_map().dom()
    }

    closed spec fn cap(&self) -> nat {
        self.capacity as nat
    }

    fn access(&mut self, key: K) -> (out: AccessOutcome<K>)
        ensures
            old(self).lfu_accessed(*final(self), key),
    {
        let ghost fm0 = self.freq_map();
        let out = self.access_lfu(key);
        proof {
            if out.hit {
                assert(self.resident() =~= old(self).resident());
            } else {
                match out.evicted {
                    Some(v) => {
                        let m = old(self).min_frequency();
                        old(self).lemma_freq_map();
                        assert(old(self).buckets@.contains_key(m)) by {
                            old(self).lemma_min_exists();
                        }
                        assert(old(self).in_bucket(m, old(self).bucket(m)[0])) by {
                            let b = old(self).buckets@[m]@;
                            assert(b.len() > 0);
                            assert(has_key(b, b[0].0));
                        }
                        assert(self.resident() =~= old(self).resident().remove(v).insert(key));
                    },
                    None => {
                        assert(self.resident() =~= old(self).resident().insert(key));
                    },
                }
            }
        }
        out
    }

    fn remove(&mut self, key: &K) -> (r: bool)
        ensures
            old(self).lfu_removed(*final(self), *key),
    {
        proof {
            self.lemma_freq_map();
        }
        let ghost pre = *self;
        proof {
            assert forall|g: u64| #[trigger] pre.bucket(g).contains(*key) implies pre.in_bucket(g, *key) by {
                if pre.buckets@.contains_key(g) {
                    crate::ordered::lemma_keys_of(pre.buckets@[g]@);
                }
            }
        }
        match self.freq.get(key) {
            Some(fr) => {
                let f = *fr;
                proof {
                    self.lemma_freq_of(*key);
                }
                self.detach(key, f);
                let ghost fq1 = self.freq@;
                self.freq.remove(key);
                proof {
                    let pv = pos_of(fq1, *key);
                    lemma_remove_unique(fq1, pv);
                    assert forall|k: K| has_key(self.freq@, k) implies self.freq_of(k) == pre.freq_of(k) by {
                        lemma_pos_of(fq1, k);
                        lemma_pos_of(self.freq@, k);
                        let i = pos_of(self.freq@, k);
                        let i0 = if i < pv { i } else { i + 1 };
                        assert(fq1[i0].0 == k);
                    }
                    assert forall|g: u64, k: K| #[trigger] self.in_bucket(g, k) <==> (has_key(self.freq@, k) && self.freq_of(k) == g) by {
                        if has_key(pre.freq@, k) {
                            assert(pre.in_bucket(pre.freq_of(k), k));
                        }
                    }
                    assert forall|k: K| #[trigger] has_key(self.freq@, k) implies self.min_freq <= self.freq_of(k) && 1 <= self.freq_of(k) by {
                        assert(has_key(pre.freq@, k));
                        assert(pre.min_freq <= pre.freq_of(k));
                    }
                    self.lemma_freq_map();
                    assert(self.resident() =~= pre.resident().remove(*key));
                    assert(self.freq_map() =~= pre.freq_map().remove(*key));
                    assert forall|g: u64| #[trigger] self.bucket(g) == drop_key(pre.bucket(g), *key) by {
                        if g == f {
                            assert(pre.in_bucket(f, *key));
                            crate::ordered::lemma_keys_of(pre.buckets@[f]@);
                        } else {
                            assert(!pre.in_bucket(g, *key));
                        }
                    }
                }
                true
            },
            None => {
                proof {
                    assert(self.resident() =~= pre.resident().remove(*key));
                    assert(self.freq_map() =~= pre.freq_map().remove(*key));
                    assert forall|g: u64| #[trigger] self.bucket(g) == drop_key(pre.bucket(g), *key) by {
                        assert(!pre.in_bucket(g, *key));
                    }
                }
                false
            },
        }
    }

    fn len(&self) -> (r: usize) {
        proof {
            self.lemma_freq_map();
        }
        self.freq.len()
    }

    fn capacity(&self) -> (r: usize) {
        self.capacity
    }

    fn name(&self) -> (r: &'static str)
        ensures
            r@ == "lfu"@,
    {
        "lfu"
    }

    fn contains(&self, key: &K) -> (r: bool) {
        self.freq.contains(key)
    }
}

} // verus!

use vstd::prelude::*;

use crate::ordered::{
    OrderedMap, has_key, key_set, lemma_pos_of, lemma_remove_unique, lemma_to_map_entry, lemma_to_map_push,
    lemma_to_map_remove,
    lemma_to_map_skip, pos_of, to_map, unique_keys,
};
use crate::policy::CacheKey;

verus! {

/// Keys with the block at which each was last witnessed, oldest first; an
/// entry expires once `n` blocks have passed since then.
pub struct RetentionWindow<K> {
    n: u64,
    order: OrderedMap<K, u64>,
}

/// An entry last seen at `last_seen` has expired at block `now` under window `n`.
pub open spec fn expired_at(last_seen: u64, n: u64, now: u64) -> bool {
    last_seen + n <= now
}

/// Stamps never decrease from the oldest entry to the newest.
pub open spec fn stamps_ordered<K>(s: Seq<(K, u64)>) -> bool {
    forall|i: int, j: int| 0 <= i <= j < s.len() ==> s[i].1 <= s[j].1
}

/// `s` without the entry of `k` (unchanged when `k` has none).
pub open spec fn win_remove<K>(s: Seq<(K, u64)>, k: K) -> Seq<(K, u64)> {
    if has_key(s, k) {
        s.remove(pos_of(s, k))
    } else {
        s
    }
}

/// `s` with `k` stamped `now` as its newest entry.
pub open spec fn win_touch<K>(s: Seq<(K, u64)>, k: K, now: u64) -> Seq<(K, u64)> {
    win_remove(s, k).push((k, now))
}

/// The first `n` entries of `s` have expired at `now` under window `span`,
/// and the next one, if any, has not.
pub open spec fn expired_prefix<K>(s: Seq<(K, u64)>, span: u64, now: u64, n: nat) -> bool {
    &&& n <= s.len()
    &&& forall|i: int| 0 <= i < n ==> #[trigger] expired_at(s[i].1, span, now)
    &&& n < s.len() ==> !expired_at(s[n as int].1, span, now)
}

/// No stamp is later than block `now`.
pub open spec fn stamped_by<K>(s: Seq<(K, u64)>, now: u64) -> bool {
    forall|i: int| 0 <= i < s.len() ==> s[i].1 <= now
}

impl<K: CacheKey> View for RetentionWindow<K> {
    type V = Seq<(K, u64)>;

    closed spec fn view(&self) -> Seq<(K, u64)> {
        self.order@
    }
}

impl<K: CacheKey> RetentionWindow<K> {
    /// The window length in blocks.
    pub closed spec fn span(&self) -> u64 {
        self.n
    }

    /// The window length in blocks.
    pub fn span_exec(&self) -> (r: u64)
        ensures
            r == self.span(),
    {
        self.n
    }

    pub closed spec fn wf(&self) -> bool {
        self.order.wf()
    }

    /// The block at which each key in the window was last witnessed.
    pub open spec fn stamps(&self) -> Map<K, u64> {
        to_map(self@)
    }

    pub proof fn lemma_unique(&self)
        requires
            self.wf(),
        ensures
            unique_keys(self@),
    {
    }

    pub fn new(n: u64) -> (w: Self)
        ensures
            w.wf(),
            w@ == Seq::<(K, u64)>::empty(),
            w.span() == n,
    {
        RetentionWindow { n, order: OrderedMap::new() }
    }

    pub fn len(&self) -> (r: usize)
        requires
            self.wf(),
        ensures
            r == self@.len(),
    {
        self.order.len()
    }

    pub fn is_empty(&self) -> (r: bool)
        requires
            self.wf(),
        ensures
            r == (self@.len() == 0),
    {
        self.order.is_empty()
    }

    /// Records that `key` was witnessed at block `now`: it becomes the newest entry.
    pub fn touch(&mut self, key: K, now: u64)
        requires
            old(self).wf(),
        ensures
            final(self).wf(),
            final(self).span() == old(self).span(),
            has_key(old(self)@, key) ==> final(self)@ == old(self)@.remove(pos_of(old(self)@, key)).push(
                (key, now),
            ),
            !has_key(old(self)@, key) ==> final(self)@ == old(self)@.push((key, now)),
            final(self)@ == win_touch(old(self)@, key, now),
            final(self).stamps() == old(self).stamps().insert(key, now),
            stamps_ordered(old(self)@) && stamped_by(old(self)@, now) ==> stamps_ordered(final(self)@),
            forall|t: u64| stamped_by(old(self)@, t) && now <= t ==> stamped_by(final(self)@, t),
    {
        let ghost v0 = self@;
        if !self.order.touch_back(&key, now) {
            self.order.push_back(key, now);
            proof {
                lemma_to_map_push(v0, (key, now));
            }
        } else {
            proof {
                let p = pos_of(v0, key);
                lemma_pos_of(v0, key);
                lemma_to_map_remove(v0, p);
                lemma_remove_unique(v0, p);
                lemma_to_map_push(v0.remove(p), (key, now));
                assert(to_map(v0).remove(key).insert(key, now) =~= to_map(v0).insert(key, now));
            }
        }
    }

    /// Forgets `key`, returning the block it was last seen at.
    pub fn remove(&mut self, key: &K) -> (r: Option<u64>)
        requires
            old(self).wf(),
        ensures
            final(self).wf(),
            final(self).span() == old(self).span(),
            match r {
                Some(v) => has_key(old(self)@, *key) && v == old(self)@[pos_of(old(self)@, *key)].1
                    && final(self)@ == old(self)@.remove(pos_of(old(self)@, *key)),
                None => !has_key(old(self)@, *key) && final(self)@ == old(self)@,
            },
            final(self)@ == win_remove(old(self)@, *key),
            final(self).stamps() == old(self).stamps().remove(*key),
            r matches Some(v) ==> old(self).stamps().contains_key(*key) && v == old(self).stamps()[*key],
            old(self).stamps().contains_key(*key) ==> r is Some,
            stamps_ordered(old(self)@) ==> stamps_ordered(final(self)@),
            forall|t: u64| stamped_by(old(self)@, t) ==> stamped_by(final(self)@, t),
    {
        let ghost v0 = self@;
        let r = self.order.remove(key);
        proof {
            if v0.len() > 0 {
                lemma_to_map_entry(v0, 0);
            } else {
                assert(to_map(v0).dom() =~= key_set(v0));
            }
            if r is Some {
                lemma_pos_of(v0, *key);
                lemma_to_map_remove(v0, pos_of(v0, *key));
            } else {
                assert(to_map(v0).remove(*key) =~= to_map(v0));
            }
        }
        r
    }

    /// Removes and returns the leading entries that have expired at block `now`,
    /// oldest first; stops at the first entry that has not.
    pub fn drain_expired(&mut self, now: u64) -> (r: Vec<(K, u64)>)
        requires
            old(self).wf(),
            forall|i: int| 0 <= i < old(self)@.len() ==> old(self)@[i].1 + old(self).span() <= u64::MAX,
        ensures
            final(self).wf(),
            final(self).span() == old(self).span(),
            r@.len() <= old(self)@.len(),
            r@ == old(self)@.take(r@.len() as int),
            final(self)@ == old(self)@.skip(r@.len() as int),
            forall|i: int| 0 <= i < r@.len() ==> expired_at(r@[i].1, old(self).span(), now),
            r@.len() < old(self)@.len() ==> !expired_at(old(self)@[r@.len() as int].1, old(self).span(), now),
            expired_prefix(old(self)@, old(self).span(), now, r@.len()),
            final(self).stamps() == old(self).stamps().remove_keys(key_set(r@)),
            stamps_ordered(old(self)@) ==> stamps_ordered(final(self)@),
            forall|t: u64| stamped_by(old(self)@, t) ==> stamped_by(final(self)@, t),
            stamps_ordered(old(self)@) ==> forall|i: int|
                0 <= i < final(self)@.len() ==> !expired_at(final(self)@[i].1, final(self).span(), now),
    {
        let mut expired: Vec<(K, u64)> = Vec::new();
        let ghost v0 = self@;
        loop
            invariant
                self.wf(),
                self.n == old(self).n,
                v0 == old(self)@,
                forall|i: int| 0 <= i < v0.len() ==> v0[i].1 + self.n <= u64::MAX,
                expired@.len() <= v0.len(),
                expired@ == v0.take(expired@.len() as int),
                self@ == v0.skip(expired@.len() as int),
                forall|i: int| 0 <= i < expired@.len() ==> expired_at(expired@[i].1, self.n, now),
            ensures
                self.wf(),
                self.n == old(self).n,
                expired@.len() <= v0.len(),
                expired@ == v0.take(expired@.len() as int),
                self@ == v0.skip(expired@.len() as int),
                forall|i: int| 0 <= i < expired@.len() ==> expired_at(expired@[i].1, self.n, now),
                expired@.len() < v0.len() ==> !expired_at(v0[expired@.len() as int].1, self.n, now),
            decreases self@.len(),
        {
            let last_seen = match self.order.front() {
                Some((_, ls)) => *ls,
                None => {
                    proof {
                        assert(v0.skip(expired@.len() as int).len() == 0);
                    }
                    break;
                },
            };
            proof {
                assert(self@[0] == v0[expired@.len() as int]);
            }
            if last_seen + self.n <= now {
                let ghost e0 = expired@;
                match self.order.pop_front() {
                    Some(kv) => {
                        expired.push(kv);
                    },
                    None => {},
                }
                proof {
                    assert(expired@ =~= v0.take(expired@.len() as int));
                    assert(self@ =~= v0.skip(expired@.len() as int));
                }
            } else {
                break;
            }
        }
        proof {
            lemma_to_map_skip(v0, expired@.len() as int);
            assert forall|i: int| 0 <= i < expired@.len() implies #[trigger] expired_at(v0[i].1, self.n, now) by {
                assert(expired@[i] == v0[i]);
            }
        }
        expired
    }
}

} // verus!

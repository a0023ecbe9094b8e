use vstd::prelude::*;

use crate::model::Key;

pub mod arc;
pub mod lfu;
pub mod lru;

verus! {

/// A key a cache can hold: copyable, with a decidable equality and a
/// fingerprint that buckets equal keys together.
pub trait CacheKey: Copy + Sized {
    /// The fingerprint of a key; equal keys have equal fingerprints.
    spec fn key_hash(&self) -> u64;

    fn fingerprint(&self) -> (r: u64)
        ensures
            r == self.key_hash(),
    ;

    fn same_key(&self, other: &Self) -> (r: bool)
        ensures
            r == (*self == *other),
    ;
}

/// `s` without `x` (unchanged when `x` is absent).
pub open spec fn drop_key<K>(s: Seq<K>, x: K) -> Seq<K> {
    if s.contains(x) {
        s.remove(s.index_of(x))
    } else {
        s
    }
}

/// What one access did: whether the key was resident, and which resident key
/// (if any) was pushed out to make room for it.
#[derive(Debug, Clone, Copy, PartialEq, Eq)]
pub struct AccessOutcome<K> {
    pub hit: bool,
    pub evicted: Option<K>,
}

/// The contract every replacement policy meets: an access hits exactly when the
/// key is resident, a hit changes nothing, and a miss admits the key while
/// pushing out one other resident key exactly when the resident keys have
/// reached the capacity; a removal drops exactly the key.
pub trait ReplacementPolicy<K: CacheKey> {
    spec fn valid(&self) -> bool;

    /// The resident keys.
    spec fn resident(&self) -> Set<K>;

    /// The configured capacity.
    spec fn cap(&self) -> nat;

    fn access(&mut self, key: K) -> (out: AccessOutcome<K>)
        requires
            old(self).valid(),
        ensures
            final(self).valid(),
            final(self).cap() == old(self).cap(),
            out.hit == old(self).resident().contains(key),
            out.hit ==> final(self).resident() == old(self).resident() && out.evicted is None,
            out.evicted is Some ==> old(self).resident().len() >= old(self).cap(),
            !out.hit && old(self).resident().len() >= old(self).cap() && old(self).resident().len() > 0
                ==> out.evicted is Some,
            !out.hit ==> match out.evicted {
                Some(v) => old(self).resident().contains(v) && v != key && final(self).resident()
                    == old(self).resident().remove(v).insert(key),
                None => final(self).resident() == old(self).resident().insert(key),
            },
    ;

    fn remove(&mut self, key: &K) -> (r: bool)
        requires
            old(self).valid(),
        ensures
            final(self).valid(),
            final(self).cap() == old(self).cap(),
            r == old(self).resident().contains(*key),
            final(self).resident() == old(self).resident().remove(*key),
    ;

    fn len(&self) -> (r: usize)
        requires
            self.valid(),
        ensures
            self.resident().finite(),
            r == self.resident().len(),
    ;

    fn is_empty(&self) -> (r: bool)
        requires
            self.valid(),
        ensures
            r == (self.resident().len() == 0),
    {
        self.len() == 0
    }

    fn capacity(&self) -> (r: usize)
        ensures
            r == self.cap(),
    ;

    fn name(&self) -> &'static str;

    fn contains(&self, key: &K) -> (r: bool)
        requires
            self.valid(),
        ensures
            r == self.resident().contains(*key),
    ;
}

} // verus!

verus! {

/// The replacement policies a cache can be built with.
#[derive(Debug, Clone, Copy, PartialEq, Eq)]
pub enum PolicyKind {
    Lru,
    Lfu,
    Arc,
}

/// A replacement policy of one of the three kinds.
pub enum CachePolicy<K> {
    Lru(lru::Lru<K>),
    Lfu(lfu::Lfu<K>),
    Arc(arc::Arc<K>),
}

impl<K: CacheKey> CachePolicy<K> {
    pub open spec fn kind(&self) -> PolicyKind {
        match self {
            CachePolicy::Lru(_) => PolicyKind::Lru,
            CachePolicy::Lfu(_) => PolicyKind::Lfu,
            CachePolicy::Arc(_) => PolicyKind::Arc,
        }
    }
}

impl<K: CacheKey> CachePolicy<K> {
    /// `next` is this policy after an access of `key`, as its kind defines it.
    pub open spec fn accessed(&self, next: Self, key: K) -> bool {
        match (*self, next) {
            (CachePolicy::Lru(a), CachePolicy::Lru(b)) => a.lru_accessed(b, key),
            (CachePolicy::Lfu(a), CachePolicy::Lfu(b)) => a.lfu_accessed(b, key),
            (CachePolicy::Arc(a), CachePolicy::Arc(b)) => a.arc_accessed(b, key),
            _ => false,
        }
    }

    /// `next` is this policy without `key`, as its kind defines it.
    pub open spec fn removed(&self, next: Self, key: K) -> bool {
        match (*self, next) {
            (CachePolicy::Lru(a), CachePolicy::Lru(b)) => a.lru_removed(b, key),
            (CachePolicy::Lfu(a), CachePolicy::Lfu(b)) => a.lfu_removed(b, key),
            (CachePolicy::Arc(a), CachePolicy::Arc(b)) => a.arc_removed(b, key),
            _ => false,
        }
    }

    /// No policy ever holds more keys than its capacity (one, if built with
    /// none).
    pub proof fn lemma_within_capacity(&self)
        requires
            self.valid(),
        ensures
            self.resident().finite(),
            self.resident().len() <= lru::resident_bound(self.cap()),
    {
        match self {
            CachePolicy::Lru(p) => p.lemma_within_capacity(),
            CachePolicy::Lfu(p) => p.lemma_within_capacity(),
            CachePolicy::Arc(p) => p.lemma_within_capacity(),
        }
    }

    /// Two policies in the same abstract state: the same kind and capacity,
    /// and the same contents as their kind's contract describes them.
    pub open spec fn same_state(&self, other: Self) -> bool {
        &&& self.cap() == other.cap()
        &&& match (*self, other) {
            (CachePolicy::Lru(a), CachePolicy::Lru(b)) => a.recency() == b.recency(),
            (CachePolicy::Lfu(a), CachePolicy::Lfu(b)) => a.freq_map() == b.freq_map() && forall|g: u64|
                #[trigger] a.bucket(g) == b.bucket(g),
            (CachePolicy::Arc(a), CachePolicy::Arc(b)) => a.lists() == b.lists() && a.c_val() == b.c_val(),
            _ => false,
        }
    }

    /// Policies in the same state hold the same keys, and the same access or
    /// removal takes them to the same state again.
    pub proof fn lemma_same_state_steps(&self, other: Self, n1: Self, n2: Self, key: K)
        requires
            self.same_state(other),
        ensures
            self.resident() == other.resident(),
            self.kind() == other.kind(),
            self.accessed(n1, key) && other.accessed(n2, key) ==> n1.same_state(n2),
            self.removed(n1, key) && other.removed(n2, key) ==> n1.same_state(n2),
    {
        match (*self, other) {
            (CachePolicy::Lru(a), CachePolicy::Lru(b)) => {
                a.lemma_resident_of_recency(b);
                if let (CachePolicy::Lru(x), CachePolicy::Lru(y)) = (n1, n2) {
                    if self.accessed(n1, key) && other.accessed(n2, key) {
                        assert(a.lru_accessed(x, key) && b.lru_accessed(y, key));
                        assert(a.cap() == b.cap());
                        assert(x.recency() == y.recency());
                    }
                }
            },
            (CachePolicy::Lfu(a), CachePolicy::Lfu(b)) => {
                a.lemma_resident_is_counted();
                b.lemma_resident_is_counted();
                if let (CachePolicy::Lfu(x), CachePolicy::Lfu(y)) = (n1, n2) {
                    if self.accessed(n1, key) && other.accessed(n2, key) {
                        assert(x.freq_map() == y.freq_map());
                        assert forall|g: u64| #[trigger] x.bucket(g) == y.bucket(g) by {
                            assert(a.bucket(g) == b.bucket(g));
                        }
                    }
                    if self.removed(n1, key) && other.removed(n2, key) {
                        assert forall|g: u64| #[trigger] x.bucket(g) == y.bucket(g) by {
                            assert(a.bucket(g) == b.bucket(g));
                        }
                    }
                }
            },
            (CachePolicy::Arc(a), CachePolicy::Arc(b)) => {
                a.lemma_resident_is_t1_t2();
                b.lemma_resident_is_t1_t2();
                if let (CachePolicy::Arc(x), CachePolicy::Arc(y)) = (n1, n2) {
                    a.lemma_cap_is_c();
                    b.lemma_cap_is_c();
                    x.lemma_cap_is_c();
                    y.lemma_cap_is_c();
                }
            },
            _ => {},
        }
    }
}

impl<K: CacheKey> ReplacementPolicy<K> for CachePolicy<K> {
    open spec fn valid(&self) -> bool {
        match self {
            CachePolicy::Lru(p) => p.valid(),
            CachePolicy::Lfu(p) => p.valid(),
            CachePolicy::Arc(p) => p.valid(),
        }
    }

    open spec fn resident(&self) -> Set<K> {
        match self {
            CachePolicy::Lru(p) => p.resident(),
            CachePolicy::Lfu(p) => p.resident(),
            CachePolicy::Arc(p) => p.resident(),
        }
    }

    open spec fn cap(&self) -> nat {
        match self {
            CachePolicy::Lru(p) => p.cap(),
            CachePolicy::Lfu(p) => p.cap(),
            CachePolicy::Arc(p) => p.cap(),
        }
    }

    fn access(&mut self, key: K) -> (out: AccessOutcome<K>)
        ensures
            final(self).kind() == old(self).kind(),
            old(self).accessed(*final(self), key),
    {
        match self {
            CachePolicy::Lru(p) => p.access(key),
            CachePolicy::Lfu(p) => p.access(key),
            CachePolicy::Arc(p) => p.access(key),
        }
    }

    fn remove(&mut self, key: &K) -> (r: bool)
        ensures
            final(self).kind() == old(self).kind(),
            old(self).removed(*final(self), *key),
    {
        match self {
            CachePolicy::Lru(p) => p.remove(key),
            CachePolicy::Lfu(p) => p.remove(key),
            CachePolicy::Arc(p) => p.remove(key),
        }
    }

    fn len(&self) -> (r: usize) {
        match self {
            CachePolicy::Lru(p) => p.len(),
            CachePolicy::Lfu(p) => p.len(),
            CachePolicy::Arc(p) => p.len(),
        }
    }

    fn capacity(&self) -> (r: usize) {
        match self {
            CachePolicy::Lru(p) => p.capacity(),
            CachePolicy::Lfu(p) => p.capacity(),
            CachePolicy::Arc(p) => p.capacity(),
        }
    }

    fn name(&self) -> (r: &'static str)
        ensures
            r@ == self.kind().spec_name(),
    {
        match self {
            CachePolicy::Lru(p) => p.name(),
            CachePolicy::Lfu(p) => p.name(),
            CachePolicy::Arc(p) => p.name(),
        }
    }

    fn contains(&self, key: &K) -> (r: bool) {
        match self {
            CachePolicy::Lru(p) => p.contains(key),
            CachePolicy::Lfu(p) => p.contains(key),
            CachePolicy::Arc(p) => p.contains(key),
        }
    }
}

impl PolicyKind {
    pub open spec fn spec_name(self) -> Seq<char> {
        match self {
            PolicyKind::Lru => "lru"@,
            PolicyKind::Lfu => "lfu"@,
            PolicyKind::Arc => "arc"@,
        }
    }

    pub const ALL: [PolicyKind; 3] = [PolicyKind::Lru, PolicyKind::Lfu, PolicyKind::Arc];

    /// An empty policy of this kind holding at least one entry. An ARC
    /// policy's ghost lists hold up to twice its capacity, which must fit in
    /// a `usize`.
    pub fn build<K: CacheKey>(self, capacity: usize) -> (r: CachePolicy<K>)
        requires
            self == PolicyKind::Arc ==> capacity <= usize::MAX / 2,
        ensures
            r.valid(),
            r.kind() == self,
            r.resident() == Set::<K>::empty(),
            r.cap() == if capacity == 0 {
                1
            } else {
                capacity
            },
    {
        let capacity = if capacity == 0 {
            1
        } else {
            capacity
        };
        let r = match self {
            PolicyKind::Lru => CachePolicy::Lru(lru::Lru::new(capacity)),
            PolicyKind::Lfu => CachePolicy::Lfu(lfu::Lfu::new(capacity)),
            PolicyKind::Arc => CachePolicy::Arc(arc::Arc::new(capacity)),
        };
        r
    }

    pub fn name(self) -> (r: &'static str)
        ensures
            r@ == self.spec_name(),
    {
        match self {
            PolicyKind::Lru => "lru",
            PolicyKind::Lfu => "lfu",
            PolicyKind::Arc => "arc",
        }
    }
}

} // verus!

use std::collections::HashMap;

use vstd::prelude::*;

use crate::policy::CacheKey;

verus! {

broadcast use vstd::std_specs::hash::group_hash_axioms;

/// The link value that marks "no neighbour".
pub const NONE: usize = usize::MAX;

/// One slot of the intrusive list.
pub struct Node<K, V> {
    key: K,
    val: V,
    prev: usize,
    next: usize,
}

/// A map whose entries are kept in recency order: the front is the oldest
/// entry, the back the most recently linked one. Every operation is O(1)
/// expected: entries live in a slot vector threaded by `prev`/`next` links,
/// and a fingerprint index finds a key's slot.
pub struct OrderedMap<K, V> {
    nodes: Vec<Node<K, V>>,
    free: Vec<usize>,
    index: HashMap<u64, Vec<usize>>,
    head: usize,
    tail: usize,
    count: usize,
    order: Ghost<Seq<usize>>,
}

/// No two entries of `s` share a key.
pub open spec fn unique_keys<K, V>(s: Seq<(K, V)>) -> bool {
    forall|i: int, j: int| 0 <= i < s.len() && 0 <= j < s.len() && i != j ==> s[i].0 != s[j].0
}

/// Some entry of `s` has key `k`.
pub open spec fn has_key<K, V>(s: Seq<(K, V)>, k: K) -> bool {
    exists|i: int| 0 <= i < s.len() && s[i].0 == k
}

/// The position of key `k` in `s` (meaningful when `has_key(s, k)`).
pub open spec fn pos_of<K, V>(s: Seq<(K, V)>, k: K) -> int {
    choose|i: int| 0 <= i < s.len() && s[i].0 == k
}

/// The keys of `s`, in order.
pub open spec fn keys_of<K, V>(s: Seq<(K, V)>) -> Seq<K> {
    s.map_values(|e: (K, V)| e.0)
}

/// The set of keys of `s`.
pub open spec fn key_set<K, V>(s: Seq<(K, V)>) -> Set<K> {
    Set::new(|k: K| has_key(s, k))
}

/// A map view with unique keys has as many keys as entries.
pub proof fn lemma_key_set_len<K, V>(s: Seq<(K, V)>)
    requires
        unique_keys(s),
    ensures
        key_set(s).finite(),
        key_set(s).len() == s.len(),
{
    let ks = keys_of(s);
    assert(ks.no_duplicates()) by {
        assert forall|i: int, j: int| 0 <= i < ks.len() && 0 <= j < ks.len() && i != j implies ks[i] != ks[j] by {
            assert(ks[i] == s[i].0);
            assert(ks[j] == s[j].0);
        }
    }
    ks.unique_seq_to_set();
    vstd::seq_lib::seq_to_set_is_finite(ks);
    assert(ks.to_set() =~= key_set(s)) by {
        assert forall|k: K| ks.to_set().contains(k) <==> key_set(s).contains(k) by {
            if ks.contains(k) {
                let i = choose|i: int| 0 <= i < ks.len() && ks[i] == k;
                assert(s[i].0 == k);
            }
            if has_key(s, k) {
                let i = choose|i: int| 0 <= i < s.len() && s[i].0 == k;
                assert(ks[i] == k);
            }
        }
    }
}

/// Membership in the key sequence is membership as a key.
pub proof fn lemma_keys_of<K, V>(s: Seq<(K, V)>)
    requires
        unique_keys(s),
    ensures
        keys_of(s).len() == s.len(),
        keys_of(s).no_duplicates(),
        forall|k: K| #[trigger] keys_of(s).contains(k) <==> has_key(s, k),
        forall|i: int| 0 <= i < s.len() ==> #[trigger] keys_of(s)[i] == s[i].0,
        forall|k: K| has_key(s, k) ==> keys_of(s).index_of(k) == pos_of(s, k),
{
    let r = keys_of(s);
    assert forall|k: K| #[trigger] r.contains(k) <==> has_key(s, k) by {
        if r.contains(k) {
            let i = choose|i: int| 0 <= i < r.len() && r[i] == k;
            assert(s[i].0 == k);
        }
        if has_key(s, k) {
            let i = choose|i: int| 0 <= i < s.len() && s[i].0 == k;
            assert(r[i] == k);
        }
    }
    assert forall|i: int, j: int| 0 <= i < r.len() && 0 <= j < r.len() && i != j implies r[i] != r[j] by {
        assert(r[i] == s[i].0);
        assert(r[j] == s[j].0);
    }
    assert forall|k: K| has_key(s, k) implies r.index_of(k) == pos_of(s, k) by {
        assert(r.contains(k));
        let q = r.index_of(k);
        assert(s[q].0 == k);
        lemma_pos_of(s, k);
    }
}

/// The key sequence follows pushes and removals of entries.
pub proof fn lemma_keys_edit<K, V>(s: Seq<(K, V)>)
    ensures
        forall|e: (K, V)| #[trigger] keys_of(s.push(e)) == keys_of(s).push(e.0),
        forall|p: int| 0 <= p < s.len() ==> #[trigger] keys_of(s.remove(p)) == keys_of(s).remove(p),
        s.len() > 0 ==> keys_of(s.remove(0)) == keys_of(s).drop_first(),
{
    assert forall|e: (K, V)| #[trigger] keys_of(s.push(e)) == keys_of(s).push(e.0) by {
        assert(keys_of(s.push(e)) =~= keys_of(s).push(e.0));
    }
    assert forall|p: int| 0 <= p < s.len() implies #[trigger] keys_of(s.remove(p)) == keys_of(s).remove(p) by {
        assert(keys_of(s.remove(p)) =~= keys_of(s).remove(p));
    }
    if s.len() > 0 {
        assert(keys_of(s.remove(0)) =~= keys_of(s).drop_first());
    }
}

pub proof fn lemma_pos_of<K, V>(s: Seq<(K, V)>, k: K)
    requires
        unique_keys(s),
        has_key(s, k),
    ensures
        0 <= pos_of(s, k) < s.len(),
        s[pos_of(s, k)].0 == k,
        forall|i: int| 0 <= i < s.len() && s[i].0 == k ==> i == pos_of(s, k),
{
}

/// Replacing the value at position `p` keeps keys, their positions and uniqueness.
pub proof fn lemma_update_value<K, V>(s: Seq<(K, V)>, p: int, v: V)
    requires
        unique_keys(s),
        0 <= p < s.len(),
    ensures
        unique_keys(s.update(p, (s[p].0, v))),
        forall|k: K| has_key(s.update(p, (s[p].0, v)), k) == has_key(s, k),
        forall|k: K| has_key(s, k) ==> pos_of(s.update(p, (s[p].0, v)), k) == pos_of(s, k),
{
    let r = s.update(p, (s[p].0, v));
    assert forall|i: int| 0 <= i < s.len() implies r[i].0 == s[i].0 by {}
    assert forall|k: K| has_key(r, k) == has_key(s, k) by {
        if has_key(r, k) {
            let i = choose|i: int| 0 <= i < r.len() && r[i].0 == k;
            assert(s[i].0 == k);
        }
        if has_key(s, k) {
            let i = choose|i: int| 0 <= i < s.len() && s[i].0 == k;
            assert(r[i].0 == k);
        }
    }
    assert forall|k: K| has_key(s, k) implies pos_of(r, k) == pos_of(s, k) by {
        lemma_pos_of(s, k);
        lemma_pos_of(r, k);
    }
}

/// Removing one entry keeps the keys unique and drops exactly that key.
pub proof fn lemma_remove_unique<K, V>(s: Seq<(K, V)>, p: int)
    requires
        unique_keys(s),
        0 <= p < s.len(),
    ensures
        unique_keys(s.remove(p)),
        forall|k: K| has_key(s.remove(p), k) <==> (has_key(s, k) && k != s[p].0),
{
    let r = s.remove(p);
    assert forall|k: K| has_key(r, k) <==> (has_key(s, k) && k != s[p].0) by {
        if has_key(r, k) {
            let i = choose|i: int| 0 <= i < r.len() && r[i].0 == k;
            if i < p {
                assert(s[i].0 == k);
            } else {
                assert(s[i + 1].0 == k);
            }
        }
        if has_key(s, k) && k != s[p].0 {
            let i = choose|i: int| 0 <= i < s.len() && s[i].0 == k;
            if i < p {
                assert(r[i].0 == k);
            } else {
                assert(i != p);
                assert(r[i - 1].0 == k);
            }
        }
    }
}

/// Appending a fresh key keeps the keys unique.
pub proof fn lemma_push_unique<K, V>(s: Seq<(K, V)>, e: (K, V))
    requires
        unique_keys(s),
        !has_key(s, e.0),
    ensures
        unique_keys(s.push(e)),
        forall|k: K| has_key(s.push(e), k) <==> (has_key(s, k) || k == e.0),
{
    let r = s.push(e);
    assert forall|k: K| has_key(r, k) <==> (has_key(s, k) || k == e.0) by {
        if has_key(r, k) {
            let i = choose|i: int| 0 <= i < r.len() && r[i].0 == k;
            if i < s.len() {
                assert(s[i].0 == k);
            }
        }
        if has_key(s, k) {
            let i = choose|i: int| 0 <= i < s.len() && s[i].0 == k;
            assert(r[i].0 == k);
        }
        if k == e.0 {
            assert(r[s.len() as int].0 == k);
        }
    }
    assert forall|i: int, j: int| 0 <= i < r.len() && 0 <= j < r.len() && i != j implies r[i].0
        != r[j].0 by {
        if i == s.len() {
            assert(s[j].0 == r[j].0);
        } else if j == s.len() {
            assert(s[i].0 == r[i].0);
        }
    }
}

/// The entries of `s` as a map from key to value.
pub open spec fn to_map<K, V>(s: Seq<(K, V)>) -> Map<K, V> {
    Map::new(|k: K| has_key(s, k), |k: K| s[pos_of(s, k)].1)
}

/// Each entry is in the map under its key.
pub proof fn lemma_to_map_entry<K, V>(s: Seq<(K, V)>, i: int)
    requires
        unique_keys(s),
        0 <= i < s.len(),
    ensures
        to_map(s).contains_key(s[i].0),
        to_map(s)[s[i].0] == s[i].1,
        to_map(s).dom() == key_set(s),
{
    lemma_pos_of(s, s[i].0);
    assert(to_map(s).dom() =~= key_set(s));
}

/// Appending a fresh entry inserts it into the map.
pub proof fn lemma_to_map_push<K, V>(s: Seq<(K, V)>, e: (K, V))
    requires
        unique_keys(s),
        !has_key(s, e.0),
    ensures
        to_map(s.push(e)) == to_map(s).insert(e.0, e.1),
{
    let r = s.push(e);
    lemma_push_unique(s, e);
    assert(r[s.len() as int].0 == e.0);
    lemma_pos_of(r, e.0);
    assert forall|k: K| has_key(s, k) implies r[pos_of(r, k)].1 == s[pos_of(s, k)].1 by {
        lemma_pos_of(s, k);
        lemma_pos_of(r, k);
        assert(r[pos_of(s, k)] == s[pos_of(s, k)]);
    }
    assert(to_map(r) =~= to_map(s).insert(e.0, e.1));
}

/// Removing the entry at `p` removes its key from the map.
pub proof fn lemma_to_map_remove<K, V>(s: Seq<(K, V)>, p: int)
    requires
        unique_keys(s),
        0 <= p < s.len(),
    ensures
        to_map(s.remove(p)) == to_map(s).remove(s[p].0),
{
    let r = s.remove(p);
    lemma_remove_unique(s, p);
    assert forall|k: K| has_key(r, k) implies r[pos_of(r, k)].1 == s[pos_of(s, k)].1 by {
        lemma_pos_of(s, k);
        lemma_pos_of(r, k);
        let q = pos_of(r, k);
        if q < p {
            assert(r[q] == s[q]);
        } else {
            assert(r[q] == s[q + 1]);
        }
    }
    assert(to_map(r) =~= to_map(s).remove(s[p].0));
}

/// Dropping the first `d` entries drops their keys from the map.
pub proof fn lemma_to_map_skip<K, V>(s: Seq<(K, V)>, d: int)
    requires
        unique_keys(s),
        0 <= d <= s.len(),
    ensures
        to_map(s.skip(d)) == to_map(s).remove_keys(key_set(s.take(d))),
{
    let r = s.skip(d);
    let t = s.take(d);
    assert forall|k: K| has_key(r, k) <==> (has_key(s, k) && !has_key(t, k)) by {
        if has_key(r, k) {
            let i = choose|i: int| 0 <= i < r.len() && r[i].0 == k;
            assert(s[i + d].0 == k);
            if has_key(t, k) {
                let j = choose|j: int| 0 <= j < t.len() && t[j].0 == k;
                assert(s[j].0 == k);
            }
        }
        if has_key(s, k) && !has_key(t, k) {
            let i = choose|i: int| 0 <= i < s.len() && s[i].0 == k;
            if i < d {
                assert(t[i].0 == k);
            } else {
                assert(r[i - d].0 == k);
            }
        }
    }
    assert forall|k: K| has_key(r, k) implies r[pos_of(r, k)].1 == s[pos_of(s, k)].1 by {
        let q = pos_of(r, k);
        assert(r[q] == s[q + d]);
        lemma_pos_of(s, k);
    }
    assert(to_map(r) =~= to_map(s).remove_keys(key_set(t)));
}

spec fn prev_of(o: Seq<usize>, j: int) -> usize {
    if j == 0 {
        NONE
    } else {
        o[j - 1]
    }
}

spec fn next_of(o: Seq<usize>, j: int) -> usize {
    if j + 1 == o.len() {
        NONE
    } else {
        o[j + 1]
    }
}

spec fn distinct(o: Seq<usize>) -> bool {
    forall|a: int, b: int| 0 <= a < o.len() && 0 <= b < o.len() && a != b ==> o[a] != o[b]
}

/// The slot list `o` threads the nodes correctly from `head` to `tail`.
spec fn links_ok<K, V>(n: Seq<Node<K, V>>, o: Seq<usize>, head: usize, tail: usize) -> bool {
    &&& forall|j: int| 0 <= j < o.len() ==> (#[trigger] o[j]) < n.len()
    &&& distinct(o)
    &&& forall|j: int| 0 <= j < o.len() ==> n[#[trigger] o[j] as int].prev == prev_of(o, j)
    &&& forall|j: int| 0 <= j < o.len() ==> n[#[trigger] o[j] as int].next == next_of(o, j)
    &&& head == (if o.len() == 0 {
        NONE
    } else {
        o[0]
    })
    &&& tail == (if o.len() == 0 {
        NONE
    } else {
        o[o.len() - 1]
    })
}

/// Every free slot is a real slot that is not in use, and none is listed twice.
spec fn free_ok<K, V>(n: Seq<Node<K, V>>, o: Seq<usize>, f: Seq<usize>) -> bool {
    &&& forall|t: int| 0 <= t < f.len() ==> (#[trigger] f[t]) < n.len()
    &&& forall|t: int| 0 <= t < f.len() ==> !o.contains(#[trigger] f[t])
    &&& distinct(f)
}

/// Every bucket entry is a live slot whose key has the bucket's fingerprint;
/// no bucket is empty or lists a slot twice.
spec fn buckets_ok<K: CacheKey, V>(n: Seq<Node<K, V>>, o: Seq<usize>, ix: Map<u64, Vec<usize>>) -> bool {
    &&& forall|f: u64, t: int|
        ix.contains_key(f) && 0 <= t < ix[f]@.len() ==> o.contains(#[trigger] ix[f]@[t])
    &&& forall|f: u64, t: int|
        ix.contains_key(f) && 0 <= t < ix[f]@.len() ==> n[#[trigger] ix[f]@[t] as int].key.key_hash()
            == f
    &&& forall|f: u64| #[trigger] ix.contains_key(f) ==> distinct(ix[f]@) && ix[f]@.len() > 0
}

/// Every live slot except `skip` is listed under its key's fingerprint.
spec fn listed_except<K: CacheKey, V>(
    n: Seq<Node<K, V>>,
    o: Seq<usize>,
    ix: Map<u64, Vec<usize>>,
    skip: usize,
) -> bool {
    forall|j: int|
        0 <= j < o.len() && o[j] != skip ==> {
            let h = n[#[trigger] o[j] as int].key.key_hash();
            ix.contains_key(h) && ix[h]@.contains(o[j])
        }
}

/// `skip` appears in no bucket.
spec fn unlisted(ix: Map<u64, Vec<usize>>, skip: usize) -> bool {
    forall|f: u64| #[trigger] ix.contains_key(f) ==> !ix[f]@.contains(skip)
}

impl<K: CacheKey, V: Copy> View for OrderedMap<K, V> {
    type V = Seq<(K, V)>;

    closed spec fn view(&self) -> Seq<(K, V)> {
        self.order@.map_values(|i: usize| (self.nodes@[i as int].key, self.nodes@[i as int].val))
    }
}

impl<K: CacheKey, V: Copy> OrderedMap<K, V> {
    pub closed spec fn inv(&self) -> bool {
        &&& links_ok(self.nodes@, self.order@, self.head, self.tail)
        &&& free_ok(self.nodes@, self.order@, self.free@)
        &&& buckets_ok(self.nodes@, self.order@, self.index@)
        &&& listed_except(self.nodes@, self.order@, self.index@, NONE)
        &&& self.count == self.order@.len()
        &&& self.nodes@.len() == self.order@.len() + self.free@.len()
    }

    /// Well-formedness: the internal invariant holds and no key occurs twice.
    pub open spec fn wf(&self) -> bool {
        self.inv() && unique_keys(self@)
    }

    pub fn new() -> (m: Self)
        ensures
            m.wf(),
            m@ == Seq::<(K, V)>::empty(),
    {
        let m = OrderedMap {
            nodes: Vec::new(),
            free: Vec::new(),
            index: HashMap::new(),
            head: NONE,
            tail: NONE,
            count: 0,
            order: Ghost(Seq::empty()),
        };
        assert(m@ =~= Seq::<(K, V)>::empty());
        m
    }

    pub fn len(&self) -> (r: usize)
        requires
            self.wf(),
        ensures
            r == self@.len(),
    {
        self.count
    }

    pub fn is_empty(&self) -> (r: bool)
        requires
            self.wf(),
        ensures
            r == (self@.len() == 0),
    {
        self.count == 0
    }

    pub fn contains(&self, key: &K) -> (r: bool)
        requires
            self.wf(),
        ensures
            r == has_key(self@, *key),
    {
        match self.find(key) {
            Some(i) => {
                proof {
                    let j = choose|j: int| 0 <= j < self.order@.len() && self.order@[j] == i;
                    assert(self@[j].0 == *key);
                }
                true
            },
            None => {
                proof {
                    assert forall|j: int| 0 <= j < self@.len() implies self@[j].0 != *key by {
                        assert(self@[j].0 == self.nodes@[self.order@[j] as int].key);
                    }
                }
                false
            },
        }
    }

    /// The value stored under `key`, if any.
    pub fn get(&self, key: &K) -> (r: Option<&V>)
        requires
            self.wf(),
        ensures
            match r {
                Some(v) => has_key(self@, *key) && *v == self@[pos_of(self@, *key)].1,
                None => !has_key(self@, *key),
            },
    {
        match self.find(key) {
            Some(i) => {
                proof {
                    let j = choose|j: int| 0 <= j < self.order@.len() && self.order@[j] == i;
                    assert(self@[j].0 == *key);
                    lemma_pos_of(self@, *key);
                }
                Some(&self.nodes[i].val)
            },
            None => None,
        }
    }

    /// The slot holding `key`, if any.
    fn find(&self, key: &K) -> (r: Option<usize>)
        requires
            self.inv(),
        ensures
            match r {
                Some(i) => self.order@.contains(i) && i < self.nodes@.len() && self.nodes@[i as int].key
                    == *key,
                None => forall|j: int|
                    0 <= j < self.order@.len() ==> self.nodes@[self.order@[j] as int].key != *key,
            },
    {
        let h = key.fingerprint();
        match self.index.get(&h) {
            None => {
                proof {
                    assert forall|j: int| 0 <= j < self.order@.len() implies self.nodes@[self.order@[j] as int].key
                        != *key by {
                        let o = self.order@;
                        if self.nodes@[o[j] as int].key == *key {
                            assert(o[j] < self.nodes.len());
                        }
                    }
                }
                None
            },
            Some(bucket) => {
                let mut t: usize = 0;
                while t < bucket.len()
                    invariant
                        self.inv(),
                        self.index@.contains_key(h),
                        self.index@[h] == *bucket,
                        h == key.key_hash(),
                        0 <= t <= bucket@.len(),
                        forall|u: int| 0 <= u < t ==> self.nodes@[bucket@[u] as int].key != *key,
                    decreases bucket@.len() - t,
                {
                    let i = bucket[t];
                    proof {
                        assert(self.order@.contains(self.index@[h]@[t as int]));
                        let j = choose|j: int| 0 <= j < self.order@.len() && self.order@[j] == i;
                        assert(self.order@[j] < self.nodes@.len());
                    }
                    if self.nodes[i].key.same_key(key) {
                        return Some(i);
                    }
                    t = t + 1;
                }
                proof {
                    assert forall|j: int| 0 <= j < self.order@.len() implies self.nodes@[self.order@[j] as int].key
                        != *key by {
                        let o = self.order@;
                        if self.nodes@[o[j] as int].key == *key {
                            assert(o[j] < self.nodes.len());
                            assert(self.index@[h]@.contains(o[j]));
                            let u = choose|u: int| 0 <= u < bucket@.len() && bucket@[u] == o[j];
                            assert(self.nodes@[bucket@[u] as int].key != *key);
                        }
                    }
                }
                None
            },
        }
    }
}


/// All slots keep their keys (values and links may differ).
spec fn same_keys<K, V>(n1: Seq<Node<K, V>>, n2: Seq<Node<K, V>>) -> bool {
    &&& n1.len() == n2.len()
    &&& forall|x: int| 0 <= x < n1.len() ==> (#[trigger] n1[x]).key == n2[x].key
}

/// All slots keep their keys and values (only links may differ).
spec fn same_payload<K, V>(n1: Seq<Node<K, V>>, n2: Seq<Node<K, V>>) -> bool {
    &&& n1.len() == n2.len()
    &&& forall|x: int| 0 <= x < n1.len() ==> (#[trigger] n1[x]).key == n2[x].key && n1[x].val == n2[x].val
}

proof fn lemma_same_set_transfer<K: CacheKey, V>(
    n1: Seq<Node<K, V>>,
    n2: Seq<Node<K, V>>,
    o1: Seq<usize>,
    o2: Seq<usize>,
    f: Seq<usize>,
    ix: Map<u64, Vec<usize>>,
)
    requires
        same_keys(n1, n2),
        forall|x: usize| o1.contains(x) <==> o2.contains(x),
        forall|j: int| 0 <= j < o1.len() ==> (#[trigger] o1[j]) < n1.len(),
        buckets_ok(n1, o1, ix),
        listed_except(n1, o1, ix, NONE),
        free_ok(n1, o1, f),
    ensures
        buckets_ok(n2, o2, ix),
        listed_except(n2, o2, ix, NONE),
        free_ok(n2, o2, f),
{
    assert forall|f2: u64, t: int| ix.contains_key(f2) && 0 <= t < ix[f2]@.len() implies n2[#[trigger] ix[f2]@[t] as int].key.key_hash() == f2 by {
        let e = ix[f2]@[t];
        assert(o1.contains(e));
        let j = choose|j: int| 0 <= j < o1.len() && o1[j] == e;
        assert(n1[e as int].key == n2[e as int].key);
    }
    assert forall|j: int| 0 <= j < o2.len() && o2[j] != NONE implies {
        let h = n2[#[trigger] o2[j] as int].key.key_hash();
        ix.contains_key(h) && ix[h]@.contains(o2[j])
    } by {
        let e = o2[j];
        assert(o2.contains(e));
        assert(o1.contains(e));
        let j1 = choose|j1: int| 0 <= j1 < o1.len() && o1[j1] == e;
        assert(n1[o1[j1] as int].key == n2[e as int].key);
    }
}


/// Pointwise effect of unlinking the slot at position `p` gives a list threaded
/// along `o.remove(p)`.
#[verifier::rlimit(50)]
#[verifier::spinoff_prover]
proof fn lemma_unlink_links<K, V>(
    n: Seq<Node<K, V>>,
    n2: Seq<Node<K, V>>,
    o: Seq<usize>,
    p: int,
    head2: usize,
    tail2: usize,
)
    requires
        forall|j: int| 0 <= j < o.len() ==> (#[trigger] o[j]) < n.len(),
        distinct(o),
        forall|j: int| 0 <= j < o.len() ==> n[#[trigger] o[j] as int].prev == prev_of(o, j),
        forall|j: int| 0 <= j < o.len() ==> n[#[trigger] o[j] as int].next == next_of(o, j),
        0 <= p < o.len(),
        n2.len() == n.len(),
        n.len() <= NONE,
        forall|x: int|
            0 <= x < n.len() && x != o[p] && x != prev_of(o, p) && x != next_of(o, p) ==> (#[trigger] n2[x]).prev == n[x].prev && n2[x].next == n[x].next,
        p > 0 ==> n2[o[p - 1] as int].next == next_of(o, p) && n2[o[p - 1] as int].prev == n[o[p - 1] as int].prev,
        p + 1 < o.len() ==> n2[o[p + 1] as int].prev == prev_of(o, p) && n2[o[p + 1] as int].next == n[o[p + 1] as int].next,
        head2 == (if p == 0 { next_of(o, p) } else { if o.len() == 0 { NONE } else { o[0] } }),
        tail2 == (if p + 1 == o.len() { prev_of(o, p) } else { o[o.len() - 1] }),
    ensures
        links_ok(n2, o.remove(p), head2, tail2),
{
    let o2 = o.remove(p);
    assert forall|j: int| 0 <= j < o2.len() implies (#[trigger] o2[j]) < n2.len() by {
        if j < p { assert(o2[j] == o[j]); } else { assert(o2[j] == o[j + 1]); }
    }
    assert forall|a: int, b: int| 0 <= a < o2.len() && 0 <= b < o2.len() && a != b implies o2[a] != o2[b] by {
        let a1 = if a < p { a } else { a + 1 };
        let b1 = if b < p { b } else { b + 1 };
        assert(o2[a] == o[a1]);
        assert(o2[b] == o[b1]);
    }
    assert forall|j: int| 0 <= j < o2.len() implies n2[#[trigger] o2[j] as int].prev == prev_of(o2, j) by {
        if j < p {
            assert(o2[j] == o[j]);
            assert(o[j] != o[p]);
            if j == p - 1 {
            } else {
                assert(o[j] != o[p - 1]);
                if p + 1 < o.len() {
                    assert(o[j] != o[p + 1]);
                }
                assert(n2[o[j] as int].prev == n[o[j] as int].prev);
                if j > 0 {
                    assert(o2[j - 1] == o[j - 1]);
                }
            }
        } else {
            assert(o2[j] == o[j + 1]);
            assert(o[j + 1] != o[p]);
            if j == p {
            } else {
                assert(o[j + 1] != o[p + 1]);
                if p > 0 {
                    assert(o[j + 1] != o[p - 1]);
                }
                assert(n2[o[j + 1] as int].prev == n[o[j + 1] as int].prev);
                assert(o2[j - 1] == o[j]);
            }
        }
    }
    assert forall|j: int| 0 <= j < o2.len() implies n2[#[trigger] o2[j] as int].next == next_of(o2, j) by {
        if j < p {
            assert(o2[j] == o[j]);
            assert(o[j] != o[p]);
            if j == p - 1 {
                if p + 1 < o.len() {
                    assert(o2[j + 1] == o[p + 1]);
                }
            } else {
                assert(o[j] != o[p - 1]);
                if p + 1 < o.len() {
                    assert(o[j] != o[p + 1]);
                }
                assert(n2[o[j] as int].next == n[o[j] as int].next);
                assert(o2[j + 1] == o[j + 1]);
            }
        } else {
            assert(o2[j] == o[j + 1]);
            assert(o[j + 1] != o[p]);
            if j == p {
                if j + 1 < o2.len() {
                    assert(o2[j + 1] == o[j + 2]);
                }
            } else {
                assert(o[j + 1] != o[p + 1]);
                if p > 0 {
                    assert(o[j + 1] != o[p - 1]);
                }
                assert(n2[o[j + 1] as int].next == n[o[j + 1] as int].next);
                if j + 1 < o2.len() {
                    assert(o2[j + 1] == o[j + 2]);
                }
            }
        }
    }
}

impl<K: CacheKey, V: Copy> OrderedMap<K, V> {
    /// Unlinks the slot at position `p` of the list.
    fn unlink(&mut self, Ghost(p): Ghost<int>, i: usize)
        requires
            links_ok(old(self).nodes@, old(self).order@, old(self).head, old(self).tail),
            0 <= p < old(self).order@.len(),
            old(self).order@[p] == i,
        ensures
            final(self).order@ == old(self).order@.remove(p),
            links_ok(final(self).nodes@, final(self).order@, final(self).head, final(self).tail),
            same_payload(old(self).nodes@, final(self).nodes@),
            final(self).free == old(self).free,
            final(self).index == old(self).index,
            final(self).count == old(self).count,
    {
        let ghost o = self.order@;
        let ghost n0 = self.nodes@;
        proof {
            assert(self.nodes@.len() == self.nodes.len());
            assert(o[p] < self.nodes@.len());
            if p > 0 {
                assert(o[p - 1] < self.nodes@.len());
            }
            if p + 1 < o.len() {
                assert(o[p + 1] < self.nodes@.len());
            }
        }
        let pv = self.nodes[i].prev;
        let nx = self.nodes[i].next;
        if pv != NONE {
            self.nodes[pv].next = nx;
        } else {
            self.head = nx;
        }
        if nx != NONE {
            self.nodes[nx].prev = pv;
        } else {
            self.tail = pv;
        }
        self.nodes[i].prev = NONE;
        self.nodes[i].next = NONE;
        proof {
            lemma_unlink_links(n0, self.nodes@, o, p, self.head, self.tail);
            self.order@ = o.remove(p);
        }
    }

    /// Links the unused slot `i` at the back of the list.
    fn link_back(&mut self, i: usize)
        requires
            links_ok(old(self).nodes@, old(self).order@, old(self).head, old(self).tail),
            i < old(self).nodes@.len(),
            !old(self).order@.contains(i),
        ensures
            final(self).order@ == old(self).order@.push(i),
            links_ok(final(self).nodes@, final(self).order@, final(self).head, final(self).tail),
            same_payload(old(self).nodes@, final(self).nodes@),
            final(self).free == old(self).free,
            final(self).index == old(self).index,
            final(self).count == old(self).count,
    {
        let ghost o = self.order@;
        let t = self.tail;
        proof {
            if o.len() > 0 {
                assert(o[o.len() - 1] < self.nodes@.len());
                assert(o[o.len() - 1] != i);
            }
        }
        self.nodes[i].prev = t;
        self.nodes[i].next = NONE;
        if t != NONE {
            self.nodes[t].next = i;
        } else {
            self.head = i;
        }
        self.tail = i;
        proof {
            self.order@ = o.push(i);
            let o2 = self.order@;
            let n = self.nodes@;
            assert(self.nodes@.len() == self.nodes.len());
            assert forall|j: int| 0 <= j < o2.len() implies n[#[trigger] o2[j] as int].prev == prev_of(o2, j) && n[o2[j] as int].next == next_of(o2, j) by {
                if j < o.len() {
                    assert(o2[j] == o[j]);
                    assert(o[j] != i);
                }
            }
            assert forall|a: int, b: int| 0 <= a < o2.len() && 0 <= b < o2.len() && a != b implies o2[a] != o2[b] by {
                if a == o.len() {
                    assert(o2[b] == o[b]);
                } else if b == o.len() {
                    assert(o2[a] == o[a]);
                }
            }
        }
    }
}


impl<K: CacheKey, V: Copy> OrderedMap<K, V> {
    /// Takes a slot (a freed one if any) and fills it with an unlinked node.
    fn take_slot(&mut self, key: K, val: V) -> (i: usize)
        requires
            old(self).inv(),
        ensures
            final(self).order == old(self).order,
            final(self).head == old(self).head,
            final(self).tail == old(self).tail,
            final(self).count == old(self).count,
            final(self).index == old(self).index,
            i < final(self).nodes@.len(),
            !final(self).order@.contains(i),
            final(self).nodes@[i as int].key == key,
            final(self).nodes@[i as int].val == val,
            final(self).nodes@.len() >= old(self).nodes@.len(),
            forall|x: int| 0 <= x < old(self).nodes@.len() && x != i ==> final(self).nodes@[x] == old(self).nodes@[x],
            final(self).nodes@.len() == final(self).order@.len() + final(self).free@.len() + 1,
            links_ok(final(self).nodes@, final(self).order@, final(self).head, final(self).tail),
            free_ok(final(self).nodes@, final(self).order@, final(self).free@),
            !final(self).free@.contains(i),
            buckets_ok(final(self).nodes@, final(self).order@, final(self).index@),
            listed_except(final(self).nodes@, final(self).order@, final(self).index@, NONE),
    {
        let ghost n0 = self.nodes@;
        let ghost f0 = self.free@;
        let ghost o = self.order@;
        let i = match self.free.pop() {
            Some(slot) => {
                proof {
                    assert(f0[f0.len() - 1] == slot);
                    assert(slot < n0.len());
                }
                self.nodes[slot] = Node { key, val, prev: NONE, next: NONE };
                slot
            },
            None => {
                self.nodes.push(Node { key, val, prev: NONE, next: NONE });
                self.nodes.len() - 1
            },
        };
        proof {
            let n = self.nodes@;
            let f = self.free@;
            assert(!o.contains(i)) by {
                if o.contains(i) {
                    let j = choose|j: int| 0 <= j < o.len() && o[j] == i;
                    assert(o[j] < n0.len());
                }
            }
            assert forall|j: int| 0 <= j < o.len() implies n[#[trigger] o[j] as int] == n0[o[j] as int] by {
                assert(o[j] != i);
            }
            assert(!f.contains(i)) by {
                if f.contains(i) {
                    let t = choose|t: int| 0 <= t < f.len() && f[t] == i;
                    assert(f0[t] == i);
                    assert(f0[f0.len() - 1] == i);
                }
            }
            assert forall|fh: u64, t: int| self.index@.contains_key(fh) && 0 <= t < self.index@[fh]@.len() implies n[#[trigger] self.index@[fh]@[t] as int].key.key_hash() == fh by {
                let e = self.index@[fh]@[t];
                assert(o.contains(e));
                let j = choose|j: int| 0 <= j < o.len() && o[j] == e;
                assert(n[o[j] as int] == n0[o[j] as int]);
            }
        }
        i
    }

    /// Lists the live slot `i` under its key's fingerprint.
    fn index_insert(&mut self, i: usize)
        requires
            buckets_ok(old(self).nodes@, old(self).order@, old(self).index@),
            listed_except(old(self).nodes@, old(self).order@, old(self).index@, i),
            unlisted(old(self).index@, i),
            old(self).order@.contains(i),
            i < old(self).nodes@.len(),
        ensures
            buckets_ok(final(self).nodes@, final(self).order@, final(self).index@),
            listed_except(final(self).nodes@, final(self).order@, final(self).index@, NONE),
            final(self).nodes == old(self).nodes,
            final(self).order == old(self).order,
            final(self).free == old(self).free,
            final(self).head == old(self).head,
            final(self).tail == old(self).tail,
            final(self).count == old(self).count,
    {
        let ghost ix0 = self.index@;
        let h = self.nodes[i].key.fingerprint();
        let mut b = match self.index.remove(&h) {
            Some(b) => b,
            None => Vec::new(),
        };
        let ghost b0 = b@;
        b.push(i);
        self.index.insert(h, b);
        proof {
            let ix = self.index@;
            let n = self.nodes@;
            let o = self.order@;
            assert(ix0.contains_key(h) ==> b0 == ix0[h]@);
            assert(!ix0.contains_key(h) ==> b0.len() == 0);
            assert(ix[h]@ == b0.push(i));
            assert forall|fh: u64, t: int| ix.contains_key(fh) && 0 <= t < ix[fh]@.len() implies o.contains(#[trigger] ix[fh]@[t]) && n[ix[fh]@[t] as int].key.key_hash() == fh by {
                if fh == h {
                    if t < b0.len() {
                        assert(ix[fh]@[t] == ix0[h]@[t]);
                    }
                } else {
                    assert(ix[fh] == ix0[fh]);
                }
            }
            assert forall|fh: u64| #[trigger] ix.contains_key(fh) implies distinct(ix[fh]@) && ix[fh]@.len() > 0 by {
                if fh == h {
                    assert forall|a: int, c: int| 0 <= a < ix[fh]@.len() && 0 <= c < ix[fh]@.len() && a != c implies ix[fh]@[a] != ix[fh]@[c] by {
                        if a == b0.len() {
                            assert(!ix0[h]@.contains(i));
                            assert(ix0[h]@[c] == ix[fh]@[c]);
                        } else if c == b0.len() {
                            assert(!ix0[h]@.contains(i));
                            assert(ix0[h]@[a] == ix[fh]@[a]);
                        }
                    }
                } else {
                    assert(ix[fh] == ix0[fh]);
                }
            }
            assert forall|j: int| 0 <= j < o.len() && o[j] != NONE implies {
                let hh = n[#[trigger] o[j] as int].key.key_hash();
                ix.contains_key(hh) && ix[hh]@.contains(o[j])
            } by {
                let hh = n[o[j] as int].key.key_hash();
                if o[j] == i {
                    assert(ix[h]@[b0.len() as int] == i);
                } else if hh == h {
                    let u = choose|u: int| 0 <= u < ix0[h]@.len() && ix0[h]@[u] == o[j];
                    assert(ix[h]@[u] == o[j]);
                } else {
                    assert(ix[hh] == ix0[hh]);
                }
            }
        }
    }

    /// Drops the live slot at position `p` from the fingerprint index.
    #[verifier::rlimit(60)]
    #[verifier::spinoff_prover]
    fn index_remove(&mut self, Ghost(p): Ghost<int>, i: usize)
        requires
            buckets_ok(old(self).nodes@, old(self).order@, old(self).index@),
            listed_except(old(self).nodes@, old(self).order@, old(self).index@, NONE),
            links_ok(old(self).nodes@, old(self).order@, old(self).head, old(self).tail),
            0 <= p < old(self).order@.len(),
            old(self).order@[p] == i,
        ensures
            buckets_ok(final(self).nodes@, old(self).order@.remove(p), final(self).index@),
            listed_except(final(self).nodes@, old(self).order@.remove(p), final(self).index@, NONE),
            final(self).nodes == old(self).nodes,
            final(self).order == old(self).order,
            final(self).free == old(self).free,
            final(self).head == old(self).head,
            final(self).tail == old(self).tail,
            final(self).count == old(self).count,
    {
        let ghost ix0 = self.index@;
        let ghost o = self.order@;
        let ghost n = self.nodes@;
        proof {
            assert(o[p] < n.len());
            assert(self.nodes@.len() == self.nodes.len());
        }
        let h = self.nodes[i].key.fingerprint();
        proof {
            assert(ix0.contains_key(h) && ix0[h]@.contains(i));
        }
        let mut b = match self.index.remove(&h) {
            Some(b) => b,
            None => {
                proof {
                    assert(false);
                }
                Vec::new()
            },
        };
        let ghost b0 = b@;
        let mut t: usize = 0;
        while t < b.len() && b[t] != i
            invariant
                b@ == b0,
                b0 == ix0[h]@,
                b0.contains(i),
                0 <= t <= b0.len(),
                forall|u: int| 0 <= u < t ==> b0[u] != i,
            decreases b0.len() - t,
        {
            t = t + 1;
        }
        proof {
            if t == b0.len() {
                let u = choose|u: int| 0 <= u < b0.len() && b0[u] == i;
                assert(b0[u] != i);
            }
        }
        b.remove(t);
        let ghost b1 = b@;
        if b.len() > 0 {
            self.index.insert(h, b);
        }
        proof {
            let ix = self.index@;
            let o2 = o.remove(p);
            assert(b1 == b0.remove(t as int));
            assert forall|fh: u64, u: int| ix.contains_key(fh) && 0 <= u < ix[fh]@.len() implies o2.contains(#[trigger] ix[fh]@[u]) && n[ix[fh]@[u] as int].key.key_hash() == fh by {
                let e = ix[fh]@[u];
                if fh == h {
                    let u0 = if u < t { u } else { u + 1 };
                    assert(e == b0[u0]);
                    assert(u0 != t);
                    assert(b0[u0] != b0[t as int]);
                } else {
                    assert(ix[fh] == ix0[fh]);
                    assert(e != i) by {
                        if e == i {
                            assert(n[i as int].key.key_hash() == fh);
                        }
                    }
                }
                assert(o.contains(e));
                let j = choose|j: int| 0 <= j < o.len() && o[j] == e;
                assert(j != p);
                if j < p {
                    assert(o2[j] == e);
                } else {
                    assert(o2[j - 1] == e);
                }
            }
            assert forall|fh: u64| #[trigger] ix.contains_key(fh) implies distinct(ix[fh]@) && ix[fh]@.len() > 0 by {
                if fh == h {
                    assert forall|a: int, c: int| 0 <= a < b1.len() && 0 <= c < b1.len() && a != c implies b1[a] != b1[c] by {
                        let a0 = if a < t { a } else { a + 1 };
                        let c0 = if c < t { c } else { c + 1 };
                        assert(b1[a] == b0[a0]);
                        assert(b1[c] == b0[c0]);
                    }
                } else {
                    assert(ix[fh] == ix0[fh]);
                }
            }
            assert forall|j: int| 0 <= j < o2.len() && o2[j] != NONE implies {
                let hh = n[#[trigger] o2[j] as int].key.key_hash();
                ix.contains_key(hh) && ix[hh]@.contains(o2[j])
            } by {
                let j0 = if j < p { j } else { j + 1 };
                assert(o2[j] == o[j0]);
                assert(o[j0] != i);
                let e = o[j0];
                let hh = n[e as int].key.key_hash();
                assert(ix0.contains_key(hh) && ix0[hh]@.contains(e));
                if hh == h {
                    let u = choose|u: int| 0 <= u < b0.len() && b0[u] == e;
                    assert(u != t);
                    let u1 = if u < t { u } else { u - 1 };
                    assert(b1[u1] == e);
                } else {
                    assert(ix[hh] == ix0[hh]);
                }
            }
        }
    }
}



/// Moving the element at position `p` to the back keeps the set of elements.
proof fn lemma_move_to_back_same_set(o0: Seq<usize>, p: int)
    requires
        0 <= p < o0.len(),
    ensures
        forall|x: usize| o0.contains(x) <==> o0.remove(p).push(o0[p]).contains(x),
{
    let o = o0.remove(p).push(o0[p]);
    assert forall|x: usize| o0.contains(x) <==> o.contains(x) by {
        if o0.contains(x) {
            let j = choose|j: int| 0 <= j < o0.len() && o0[j] == x;
            if j < p {
                assert(o[j] == x);
            } else if j == p {
                assert(o[o.len() - 1] == x);
            } else {
                assert(o[j - 1] == x);
            }
        }
        if o.contains(x) {
            let j = choose|j: int| 0 <= j < o.len() && o[j] == x;
            if j == o.len() - 1 {
                assert(o0[p] == x);
            } else if j < p {
                assert(o0[j] == x);
            } else {
                assert(o0[j + 1] == x);
            }
        }
    }
}

impl<K: CacheKey, V: Copy> OrderedMap<K, V> {
    proof fn lemma_view_entry(&self, j: int)
        requires
            0 <= j < self.order@.len(),
        ensures
            self@[j] == (self.nodes@[self.order@[j] as int].key, self.nodes@[self.order@[j] as int].val),
    {
    }

    /// Appends a new entry at the back (most recent end).
    pub fn push_back(&mut self, key: K, val: V)
        requires
            old(self).wf(),
            !has_key(old(self)@, key),
        ensures
            final(self).wf(),
            final(self)@ == old(self)@.push((key, val)),
    {
        let ghost v0 = self@;
        let ghost o0 = self.order@;
        let ghost n0 = self.nodes@;
        let i = self.take_slot(key, val);
        let ghost n1 = self.nodes@;
        self.link_back(i);
        proof {
            let o = self.order@;
            let n = self.nodes@;
            assert forall|fh: u64, t: int| self.index@.contains_key(fh) && 0 <= t < self.index@[fh]@.len() implies o.contains(#[trigger] self.index@[fh]@[t]) by {
                let e = self.index@[fh]@[t];
                assert(o0.contains(e));
                let j = choose|j: int| 0 <= j < o0.len() && o0[j] == e;
                assert(o[j] == e);
            }
            assert forall|fh: u64, t: int| self.index@.contains_key(fh) && 0 <= t < self.index@[fh]@.len() implies n[#[trigger] self.index@[fh]@[t] as int].key.key_hash() == fh by {
                let e = self.index@[fh]@[t];
                assert(n1[e as int].key == n[e as int].key);
            }
            assert forall|j: int| 0 <= j < o.len() && o[j] != i implies {
                let hh = n[#[trigger] o[j] as int].key.key_hash();
                self.index@.contains_key(hh) && self.index@[hh]@.contains(o[j])
            } by {
                if j == o0.len() {
                    assert(o[j] == i);
                }
                assert(j < o0.len());
                assert(o[j] == o0[j]);
                assert(o0[j] < n0.len());
                assert(n0.len() <= n1.len());
                assert(n1.len() == self.nodes.len());
                assert(n1[o[j] as int].key == n[o[j] as int].key);
                assert(n1[o0[j] as int] == n0[o0[j] as int]);
            }
            assert forall|fh: u64| #[trigger] self.index@.contains_key(fh) implies !self.index@[fh]@.contains(i) by {
                if self.index@[fh]@.contains(i) {
                    let t = choose|t: int| 0 <= t < self.index@[fh]@.len() && self.index@[fh]@[t] == i;
                    assert(o0.contains(self.index@[fh]@[t]));
                }
            }
            assert(o.contains(i)) by {
                assert(o[o.len() - 1] == i);
            }
        }
        self.index_insert(i);
        proof {
            assert(self.nodes@.len() == self.nodes.len());
        }
        self.count = self.count + 1;
        proof {
            let o = self.order@;
            let n = self.nodes@;
            let f = self.free@;
            assert forall|t: int| 0 <= t < f.len() implies !o.contains(#[trigger] f[t]) by {
                if o.contains(f[t]) {
                    let j = choose|j: int| 0 <= j < o.len() && o[j] == f[t];
                    if j < o0.len() {
                        assert(o0[j] == f[t]);
                    } else {
                        assert(f.contains(i));
                    }
                }
            }
            assert(self@ =~= v0.push((key, val))) by {
                assert forall|j: int| 0 <= j < self@.len() implies self@[j] == v0.push((key, val))[j] by {
                    if j < v0.len() {
                        assert(o[j] == o0[j]);
                        assert(o0[j] != i);
                        assert(n[o[j] as int].key == n0[o0[j] as int].key);
                    }
                }
            }
            lemma_push_unique(v0, (key, val));
        }
    }

    /// Moves `key` to the back with value `val`; returns whether it was present.
    #[verifier::rlimit(80)]
    #[verifier::spinoff_prover]
    pub fn touch_back(&mut self, key: &K, val: V) -> (r: bool)
        requires
            old(self).wf(),
        ensures
            final(self).wf(),
            r == has_key(old(self)@, *key),
            r ==> final(self)@ == old(self)@.remove(pos_of(old(self)@, *key)).push((*key, val)),
            !r ==> final(self)@ == old(self)@,
    {
        let ghost v0 = self@;
        let ghost o0 = self.order@;
        let ghost n0 = self.nodes@;
        match self.find(key) {
            None => {
                proof {
                    assert forall|j: int| 0 <= j < v0.len() implies v0[j].0 != *key by {
                        self.lemma_view_entry(j);
                    }
                }
                false
            },
            Some(i) => {
                let ghost p = choose|j: int| 0 <= j < o0.len() && o0[j] == i;
                proof {
                    self.lemma_view_entry(p);
                    lemma_pos_of(v0, *key);
                }
                let ghost old_self = *self;
                self.unlink(Ghost(p), i);
                let ghost n_a = self.nodes@;
                self.nodes[i].val = val;
                proof {
                    let o1 = self.order@;
                    assert(o1 == o0.remove(p));
                    assert forall|j: int| 0 <= j < o1.len() implies (#[trigger] o1[j]) < self.nodes@.len() by {
                        let j0 = if j < p { j } else { j + 1 };
                        assert(o1[j] == o0[j0]);
                    }
                    assert forall|j: int| 0 <= j < o1.len() implies self.nodes@[#[trigger] o1[j] as int].prev == prev_of(o1, j) && self.nodes@[o1[j] as int].next == next_of(o1, j) by {
                        let j0 = if j < p { j } else { j + 1 };
                        assert(o1[j] == o0[j0]);
                        assert(o0[j0] != i);
                    }
                    assert(!o1.contains(i)) by {
                        if o1.contains(i) {
                            let j = choose|j: int| 0 <= j < o1.len() && o1[j] == i;
                            let j0 = if j < p { j } else { j + 1 };
                            assert(o0[j0] == i);
                        }
                    }
                }
                let ghost n_b = self.nodes@;
                self.link_back(i);
                proof {
                    assert forall|x: int| 0 <= x < n0.len() implies (#[trigger] n0[x]).key == self.nodes@[x].key && (x != i ==> n0[x].val == self.nodes@[x].val) by {
                        assert(n_a[x].key == n0[x].key);
                        assert(n_b[x].key == n_a[x].key);
                        if x != i {
                            assert(n_b[x] == n_a[x]);
                        }
                    }
                    self.lemma_relinked(&old_self, p, i, val);
                    lemma_remove_unique(v0, p);
                    assert(!has_key(v0.remove(p), *key));
                    lemma_push_unique(v0.remove(p), (*key, val));
                }
                true
            },
        }
    }

    #[verifier::rlimit(60)]
    #[verifier::spinoff_prover]
    proof fn lemma_relinked(&self, old_self: &Self, p: int, i: usize, val: V)
        requires
            old_self.inv(),
            0 <= p < old_self.order@.len(),
            old_self.order@[p] == i,
            self.order@ == old_self.order@.remove(p).push(i),
            self.nodes@.len() == old_self.nodes@.len(),
            forall|x: int| 0 <= x < old_self.nodes@.len() ==> (#[trigger] old_self.nodes@[x]).key == self.nodes@[x].key && (x != i ==> old_self.nodes@[x].val == self.nodes@[x].val),
            self.nodes@[i as int].val == val,
            links_ok(self.nodes@, self.order@, self.head, self.tail),
            self.free == old_self.free,
            self.index == old_self.index,
            self.count == old_self.count,
        ensures
            self.inv(),
            self@ == old_self@.remove(p).push((old_self@[p].0, val)),
    {
        let o0 = old_self.order@;
        let o = self.order@;
        let n0 = old_self.nodes@;
        let n = self.nodes@;
        assert(o0[p] < n0.len());
        lemma_move_to_back_same_set(o0, p);
        assert(same_keys(n0, n));
        lemma_same_set_transfer(n0, n, o0, o, self.free@, self.index@);
        let target = old_self@.remove(p).push((old_self@[p].0, val));
        assert(self@ =~= target) by {
            assert forall|j: int| 0 <= j < self@.len() implies self@[j] == target[j] by {
                if j < o.len() - 1 {
                    let j0 = if j < p { j } else { j + 1 };
                    assert(o[j] == o0[j0]);
                    assert(o0[j0] != i);
                    assert(o0[j0] < n0.len());
                } else {
                    assert(o[j] == i);
                }
            }
        }
    }

    /// Frees the slot at position `p` after it left the list and the index.
    #[verifier::rlimit(60)]
    #[verifier::spinoff_prover]
    proof fn lemma_freed(&self, old_self: &Self, p: int, i: usize)
        requires
            old_self.inv(),
            0 <= p < old_self.order@.len(),
            old_self.order@[p] == i,
            self.order@ == old_self.order@.remove(p),
            self.free@ == old_self.free@.push(i),
            same_payload(old_self.nodes@, self.nodes@),
            links_ok(self.nodes@, self.order@, self.head, self.tail),
            buckets_ok(self.nodes@, self.order@, self.index@),
            listed_except(self.nodes@, self.order@, self.index@, NONE),
            self.count == old_self.count - 1,
        ensures
            self.inv(),
            self@ == old_self@.remove(p),
    {
        let o0 = old_self.order@;
        let o = self.order@;
        let f = self.free@;
        let f0 = old_self.free@;
        assert(o0[p] < old_self.nodes@.len());
        assert forall|t: int| 0 <= t < f.len() implies !o.contains(#[trigger] f[t]) && f[t] < self.nodes@.len() by {
            if t < f0.len() {
                assert(f[t] == f0[t]);
                if o.contains(f[t]) {
                    let j = choose|j: int| 0 <= j < o.len() && o[j] == f[t];
                    let j0 = if j < p { j } else { j + 1 };
                    assert(o0[j0] == f[t]);
                }
            } else {
                if o.contains(i) {
                    let j = choose|j: int| 0 <= j < o.len() && o[j] == i;
                    let j0 = if j < p { j } else { j + 1 };
                    assert(o0[j0] == i);
                }
            }
        }
        assert forall|a: int, b: int| 0 <= a < f.len() && 0 <= b < f.len() && a != b implies f[a] != f[b] by {
            if a == f0.len() {
                assert(f[b] == f0[b]);
                assert(!o0.contains(f0[b]));
            } else if b == f0.len() {
                assert(f[a] == f0[a]);
                assert(!o0.contains(f0[a]));
            }
        }
        assert(self@ =~= old_self@.remove(p)) by {
            assert forall|j: int| 0 <= j < self@.len() implies self@[j] == old_self@.remove(p)[j] by {
                let j0 = if j < p { j } else { j + 1 };
                assert(o[j] == o0[j0]);
                assert(o0[j0] < old_self.nodes@.len());
            }
        }
    }

    /// Removes `key`, returning its value if it was present.
    pub fn remove(&mut self, key: &K) -> (r: Option<V>)
        requires
            old(self).wf(),
        ensures
            final(self).wf(),
            match r {
                Some(v) => has_key(old(self)@, *key) && v == old(self)@[pos_of(old(self)@, *key)].1
                    && final(self)@ == old(self)@.remove(pos_of(old(self)@, *key)),
                None => !has_key(old(self)@, *key) && final(self)@ == old(self)@,
            },
    {
        let ghost v0 = self@;
        let ghost o0 = self.order@;
        match self.find(key) {
            None => {
                proof {
                    assert forall|j: int| 0 <= j < v0.len() implies v0[j].0 != *key by {
                        self.lemma_view_entry(j);
                    }
                }
                None
            },
            Some(i) => {
                let ghost p = choose|j: int| 0 <= j < o0.len() && o0[j] == i;
                let ghost old_self = *self;
                proof {
                    self.lemma_view_entry(p);
                    lemma_pos_of(v0, *key);
                }
                let val = self.nodes[i].val;
                self.index_remove(Ghost(p), i);
                self.unlink(Ghost(p), i);
                self.free.push(i);
                self.count = self.count - 1;
                proof {
                    self.lemma_freed(&old_self, p, i);
                    lemma_remove_unique(v0, p);
                }
                Some(val)
            },
        }
    }

    /// The front (least recent) entry, if any.
    pub fn front(&self) -> (r: Option<(K, &V)>)
        requires
            self.wf(),
        ensures
            match r {
                Some((k, v)) => self@.len() > 0 && k == self@[0].0 && *v == self@[0].1,
                None => self@.len() == 0,
            },
    {
        if self.head == NONE {
            proof {
                if self.order@.len() > 0 {
                    assert(self.order@[0] < self.nodes@.len());
                    assert(self.nodes@.len() == self.nodes.len());
                }
            }
            None
        } else {
            proof {
                assert(self.order@[0] < self.nodes@.len());
                self.lemma_view_entry(0);
            }
            let i = self.head;
            Some((self.nodes[i].key, &self.nodes[i].val))
        }
    }

    /// Removes and returns the front (least recent) entry, if any.
    pub fn pop_front(&mut self) -> (r: Option<(K, V)>)
        requires
            old(self).wf(),
        ensures
            final(self).wf(),
            match r {
                Some(e) => old(self)@.len() > 0 && e == old(self)@[0] && final(self)@
                    == old(self)@.remove(0),
                None => old(self)@.len() == 0 && final(self)@ == old(self)@,
            },
    {
        if self.head == NONE {
            proof {
                if self.order@.len() > 0 {
                    assert(self.order@[0] < self.nodes@.len());
                    assert(self.nodes@.len() == self.nodes.len());
                }
            }
            return None;
        }
        let ghost v0 = self@;
        let ghost old_self = *self;
        let i = self.head;
        proof {
            assert(self.order@[0] < self.nodes@.len());
            self.lemma_view_entry(0);
        }
        let key = self.nodes[i].key;
        let val = self.nodes[i].val;
        self.index_remove(Ghost(0), i);
        self.unlink(Ghost(0), i);
        self.free.push(i);
        self.count = self.count - 1;
        proof {
            self.lemma_freed(&old_self, 0, i);
            lemma_remove_unique(v0, 0);
        }
        Some((key, val))
    }

    /// Replaces the value stored under `key` in place; returns whether it was present.
    pub fn set_value(&mut self, key: &K, val: V) -> (r: bool)
        requires
            old(self).wf(),
        ensures
            final(self).wf(),
            r == has_key(old(self)@, *key),
            r ==> final(self)@ == old(self)@.update(pos_of(old(self)@, *key), (*key, val)),
            !r ==> final(self)@ == old(self)@,
    {
        let ghost v0 = self@;
        let ghost o0 = self.order@;
        let ghost n0 = self.nodes@;
        match self.find(key) {
            None => {
                proof {
                    assert forall|j: int| 0 <= j < v0.len() implies v0[j].0 != *key by {
                        self.lemma_view_entry(j);
                    }
                }
                false
            },
            Some(i) => {
                let ghost p = choose|j: int| 0 <= j < o0.len() && o0[j] == i;
                proof {
                    self.lemma_view_entry(p);
                    lemma_pos_of(v0, *key);
                }
                self.nodes[i].val = val;
                proof {
                    let n = self.nodes@;
                    assert forall|j: int| 0 <= j < o0.len() implies n[#[trigger] o0[j] as int].prev == prev_of(o0, j) && n[o0[j] as int].next == next_of(o0, j) by {
                        assert(o0[j] < n0.len());
                    }
                    assert(same_keys(n0, n));
                    lemma_same_set_transfer(n0, n, o0, o0, self.free@, self.index@);
                    assert(self@ =~= v0.update(p, (*key, val))) by {
                        assert forall|j: int| 0 <= j < self@.len() implies self@[j] == v0.update(p, (*key, val))[j] by {
                            assert(o0[j] < n0.len());
                            if j != p {
                                assert(o0[j] != i);
                            }
                        }
                    }
                }
                true
            },
        }
    }

    /// All entries, front to back.
    pub fn entries(&self) -> (r: Vec<(K, V)>)
        requires
            self.wf(),
        ensures
            r@ == self@,
    {
        let mut out: Vec<(K, V)> = Vec::new();
        let mut cur = self.head;
        let mut j: usize = 0;
        while cur != NONE
            invariant
                self.wf(),
                j <= self.order@.len(),
                cur == (if j == self.order@.len() {
                    NONE
                } else {
                    self.order@[j as int]
                }),
                out@ == self@.subrange(0, j as int),
            decreases self.order@.len() - j,
        {
            proof {
                assert(self.order@[j as int] < self.nodes@.len());
                self.lemma_view_entry(j as int);
            }
            out.push((self.nodes[cur].key, self.nodes[cur].val));
            cur = self.nodes[cur].next;
            j = j + 1;
            proof {
                assert(out@ =~= self@.subrange(0, j as int));
            }
        }
        proof {
            if j < self.order@.len() {
                assert(self.order@[j as int] < self.nodes@.len());
                assert(self.nodes@.len() == self.nodes.len());
            }
            assert(out@ =~= self@);
        }
        out
    }
}

} // verus!

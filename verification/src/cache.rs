use vstd::prelude::*;

use crate::metrics::{
    BlockEvents, BlockOutcome, RunMetrics, absorbed, footprint_bytes,
    outcome_ok,
};
use crate::model::{Address, BlockRecord, Key};
use crate::ordered::{
    OrderedMap, has_key, key_set, keys_of, lemma_key_set_len, lemma_to_map_entry, to_map,
    unique_keys,
};
use crate::policy::{CacheKey, CachePolicy, PolicyKind, ReplacementPolicy};
use crate::policy::lru::resident_bound;
use crate::window::{
    RetentionWindow, expired_at, expired_prefix, stamped_by, stamps_ordered, win_remove, win_touch,
};
use crate::witness::{
    BlockWitnessAccum, CacheFootprint, IPA_FLOOR_BYTES, LEAF_ENTRY_BYTES, LeafId, LeafState,
    STEM_ENTRY_BYTES, StemId, key_to_leaf, key_to_leaf_spec, lemma_groups_shape, lemma_leaf_totals,
    recorded, seal, sealed,
};

verus! {

/// A metrics sink, and whether the current block counts for it.
pub struct MetricSink<'a> {
    pub metrics: &'a mut RunMetrics,
    pub active: bool,
}

/// The witness cache: a leaf cache and an extension-node cache, each a
/// replacement policy shadowed by a retention window that stamps the
/// resident keys it has witnessed.
pub struct WitnessCache {
    policy: CachePolicy<Key>,
    window: RetentionWindow<Key>,
    stem_policy: CachePolicy<StemId>,
    stem_window: RetentionWindow<StemId>,
}

/// A policy and its retention window agree: the window stamps only resident
/// keys, and every stamp can be aged by the window without overflow.
pub open spec fn tracks<K: CacheKey>(p: CachePolicy<K>, w: RetentionWindow<K>) -> bool {
    &&& p.valid()
    &&& w.wf()
    &&& w.stamps().dom().subset_of(p.resident())
    &&& forall|k: K| #[trigger] w.stamps().contains_key(k) ==> w.stamps()[k] + w.span() <= u64::MAX
}

/// The block at which `k` was last witnessed, taking a key the window never
/// stamped as witnessed `now`.
pub open spec fn stamp_or<K>(m: Map<K, u64>, k: K, now: u64) -> u64 {
    if m.contains_key(k) {
        m[k]
    } else {
        now
    }
}

/// No stamp of `m` has expired at block `now` under a window of `span` blocks.
pub open spec fn fresh_stamps<K>(m: Map<K, u64>, span: u64, now: u64) -> bool {
    forall|k: K| #[trigger] m.contains_key(k) ==> !expired_at(m[k], span, now)
}

/// One access as the resident set sees it: a resident key leaves the set as
/// it was; any other key joins it, pushing out at most one resident key, and
/// only once the set has reached the capacity.
pub open spec fn step_ok<K>(a: Set<K>, b: Set<K>, k: K, cap: nat) -> bool {
    if a.contains(k) {
        b == a
    } else {
        b == a.insert(k) || exists|v: K|
            #![trigger a.remove(v)]
            a.contains(v) && v != k && a.len() >= cap && b == a.remove(v).insert(k)
    }
}

/// `trace` lists the resident sets before each access of `reads` and after
/// the last.
pub open spec fn read_trace<K>(trace: Seq<Set<K>>, reads: Seq<K>, cap: nat) -> bool {
    &&& trace.len() == reads.len() + 1
    &&& forall|i: int| 0 <= i < reads.len() ==> #[trigger] step_ok(trace[i], trace[i + 1], reads[i], cap)
}

/// How many of the first `n` accesses found their key resident.
pub open spec fn hit_count<K>(trace: Seq<Set<K>>, reads: Seq<K>, n: int) -> nat
    decreases n,
{
    if n <= 0 {
        0
    } else {
        hit_count(trace, reads, n - 1) + if trace[n - 1].contains(reads[n - 1]) {
            1nat
        } else {
            0nat
        }
    }
}

/// The hit count of a prefix depends only on that prefix of the trace.
proof fn lemma_hit_count_prefix<K>(a: Seq<Set<K>>, b: Seq<Set<K>>, reads: Seq<K>, n: int)
    requires
        0 <= n,
        n <= a.len(),
        n <= b.len(),
        forall|j: int| 0 <= j < n ==> a[j] == b[j],
    ensures
        hit_count(a, reads, n) == hit_count(b, reads, n),
    decreases n,
{
    if n > 0 {
        lemma_hit_count_prefix(a, b, reads, n - 1);
    }
}

/// The stem a key's leaf lives under.
pub open spec fn stem_of(k: Key) -> StemId {
    key_to_leaf_spec(k).stem
}

/// Blocks from `last_seen` to `now`, or 0 if `last_seen` is not earlier.
pub open spec fn age(now: u64, last_seen: u64) -> u64 {
    if now >= last_seen {
        (now - last_seen) as u64
    } else {
        0
    }
}

/// Every age in `v` is at most `now`.
pub open spec fn all_within(v: Seq<u64>, now: u64) -> bool {
    forall|i: int| 0 <= i < v.len() ==> v[i] <= now
}

/// Some key of `keys` lives under stem `s`.
pub open spec fn has_stem(keys: Seq<Key>, s: StemId) -> bool {
    exists|i: int| 0 <= i < keys.len() && stem_of(keys[i]) == s
}

/// The touched leaves after recording `keys` in order, the `i`th as held
/// when `held[i]`, all as written or all as read.
pub open spec fn record_keys(
    s: Seq<(LeafId, LeafState)>,
    keys: Seq<Key>,
    held: Seq<bool>,
    written: bool,
) -> Seq<(LeafId, LeafState)>
    decreases keys.len(),
{
    if keys.len() == 0 {
        s
    } else {
        recorded(record_keys(s, keys.drop_last(), held.drop_last(), written), keys.last(), held.last(), written)
    }
}

/// The distinct stems of `keys`, in the order they first occur.
pub open spec fn stem_order(keys: Seq<Key>) -> Seq<StemId>
    decreases keys.len(),
{
    if keys.len() == 0 {
        Seq::empty()
    } else {
        let prev = stem_order(keys.drop_last());
        let s = stem_of(keys.last());
        if prev.contains(s) {
            prev
        } else {
            prev.push(s)
        }
    }
}

/// The contract addresses of the writes that find their key among `held`,
/// each key counted at its first write.
pub open spec fn invalidated_addrs(writes: Seq<Key>, held: Set<Key>) -> Seq<Address>
    decreases writes.len(),
{
    if writes.len() == 0 {
        Seq::empty()
    } else {
        let w = writes.last();
        let prev = invalidated_addrs(writes.drop_last(), held);
        if held.contains(w) && !writes.drop_last().contains(w) {
            prev.push(w.addr)
        } else {
            prev
        }
    }
}

/// How many distinct stems of `writes` are among `held`.
pub open spec fn stem_invalidation_count(writes: Seq<Key>, held: Set<StemId>) -> nat
    decreases writes.len(),
{
    if writes.len() == 0 {
        0
    } else {
        let s = stem_of(writes.last());
        stem_invalidation_count(writes.drop_last(), held) + if held.contains(s) && !has_stem(
            writes.drop_last(),
            s,
        ) {
            1nat
        } else {
            0nat
        }
    }
}

/// The window entries after removing each of `keys` in order.
pub open spec fn window_without<K>(w: Seq<(K, u64)>, keys: Seq<K>) -> Seq<(K, u64)>
    decreases keys.len(),
{
    if keys.len() == 0 {
        w
    } else {
        win_remove(window_without(w, keys.drop_last()), keys.last())
    }
}

/// The window entries after the accesses of `keys`, the policy holding
/// `trace[i]` before access `i`: each access first drops the entry of the key
/// it pushed out, if any, then stamps its own key `now` as the newest entry.
pub open spec fn window_after_accesses<K>(w: Seq<(K, u64)>, trace: Seq<Set<K>>, keys: Seq<K>, now: u64) -> Seq<(K, u64)>
    decreases keys.len(),
{
    if keys.len() == 0 {
        w
    } else {
        let n = keys.len() - 1;
        let prev = window_after_accesses(w, trace, keys.drop_last(), now);
        let mid = if trace[n].subset_of(trace[n + 1]) {
            prev
        } else {
            win_remove(prev, choose|v: K| trace[n].contains(v) && !trace[n + 1].contains(v))
        };
        win_touch(mid, keys.last(), now)
    }
}

/// Window entries after accesses over `keys` depend on the trace only up to
/// `keys.len()`.
proof fn lemma_window_after_prefix<K>(
    w: Seq<(K, u64)>,
    t1: Seq<Set<K>>,
    t2: Seq<Set<K>>,
    keys: Seq<K>,
    now: u64,
)
    requires
        forall|j: int| 0 <= j <= keys.len() ==> #[trigger] t1[j] == t2[j],
    ensures
        window_after_accesses(w, t1, keys, now) == window_after_accesses(w, t2, keys, now),
    decreases keys.len(),
{
    if keys.len() > 0 {
        let n = keys.len() - 1;
        assert(t1[n] == t2[n]);
        assert(t1[n + 1] == t2[n + 1]);
        lemma_window_after_prefix(w, t1, t2, keys.drop_last(), now);
    }
}

/// `states` runs a policy through removing each of `keys` in order.
pub open spec fn removes_each<K: CacheKey>(states: Seq<CachePolicy<K>>, keys: Seq<K>) -> bool {
    &&& states.len() == keys.len() + 1
    &&& forall|i: int| 0 <= i < keys.len() ==> #[trigger] states[i].removed(states[i + 1], keys[i])
}

/// `states` runs a policy through accessing each of `keys` in order.
pub open spec fn accesses_each<K: CacheKey>(states: Seq<CachePolicy<K>>, keys: Seq<K>) -> bool {
    &&& states.len() == keys.len() + 1
    &&& forall|i: int| 0 <= i < keys.len() ==> #[trigger] states[i].accessed(states[i + 1], keys[i])
}

/// The stem of each key, in order.
pub open spec fn stems_of(keys: Seq<Key>) -> Seq<StemId> {
    keys.map_values(|k: Key| stem_of(k))
}

/// `dropped` lists, once each and with its stamp, the keys of `before` that
/// are not in `after`.
pub open spec fn lists_dropped<K>(before: Set<K>, stamps: Map<K, u64>, after: Set<K>, dropped: Seq<(K, u64)>) -> bool {
    &&& unique_keys(dropped)
    &&& forall|k: K| #[trigger] has_key(dropped, k) <==> before.contains(k) && !after.contains(k)
    &&& forall|i: int| 0 <= i < dropped.len() ==> #[trigger] dropped[i].1 == stamps[dropped[i].0]
}

/// The survival age at `now` of each listed key.
pub open spec fn ages_of<K>(dropped: Seq<(K, u64)>, now: u64) -> Seq<u64> {
    dropped.map_values(|e: (K, u64)| age(now, e.1))
}

/// The survival ages of the keys the writes invalidate, in write order.
pub open spec fn invalidation_ages(writes: Seq<Key>, held: Set<Key>, stamps: Map<Key, u64>, now: u64) -> Seq<u64>
    decreases writes.len(),
{
    if writes.len() == 0 {
        Seq::empty()
    } else {
        let w = writes.last();
        let prev = invalidation_ages(writes.drop_last(), held, stamps, now);
        if held.contains(w) && !writes.drop_last().contains(w) {
            prev.push(age(now, stamp_or(stamps, w, now)))
        } else {
            prev
        }
    }
}

/// The survival ages of the stems the writes invalidate, in write order.
pub open spec fn stem_invalidation_ages(
    writes: Seq<Key>,
    held: Set<StemId>,
    stamps: Map<StemId, u64>,
    now: u64,
) -> Seq<u64>
    decreases writes.len(),
{
    if writes.len() == 0 {
        Seq::empty()
    } else {
        let s = stem_of(writes.last());
        let prev = stem_invalidation_ages(writes.drop_last(), held, stamps, now);
        if held.contains(s) && !has_stem(writes.drop_last(), s) {
            prev.push(age(now, stamp_or(stamps, s, now)))
        } else {
            prev
        }
    }
}

/// The survival ages of the keys pushed out while `trace` evolves over
/// `keys`, in order: a key accessed earlier in the run carries the stamp
/// `now`, any other the stamp it has in `stamps` (`now` if it has none).
pub open spec fn eviction_ages<K>(trace: Seq<Set<K>>, keys: Seq<K>, stamps: Map<K, u64>, now: u64) -> Seq<u64>
    decreases keys.len(),
{
    if keys.len() == 0 {
        Seq::empty()
    } else {
        let n = keys.len() - 1;
        let prev = eviction_ages(trace, keys.drop_last(), stamps, now);
        if trace[n].subset_of(trace[n + 1]) {
            prev
        } else {
            let v = choose|v: K| trace[n].contains(v) && !trace[n + 1].contains(v);
            prev.push(
                age(
                    now,
                    if keys.drop_last().contains(v) {
                        now
                    } else {
                        stamp_or(stamps, v, now)
                    },
                ),
            )
        }
    }
}

/// Eviction ages depend on the stamps only of keys found resident before
/// they are accessed.
proof fn lemma_eviction_ages_agree<K>(
    trace: Seq<Set<K>>,
    keys: Seq<K>,
    s1: Map<K, u64>,
    s2: Map<K, u64>,
    now: u64,
)
    requires
        forall|i: int, v: K|
            0 <= i < keys.len() && #[trigger] trace[i].contains(v) && !#[trigger] keys.take(i).contains(v)
                ==> stamp_or(s1, v, now) == stamp_or(s2, v, now),
    ensures
        eviction_ages(trace, keys, s1, now) == eviction_ages(trace, keys, s2, now),
    decreases keys.len(),
{
    if keys.len() > 0 {
        let n = keys.len() - 1;
        let d = keys.drop_last();
        assert forall|i: int, v: K|
            0 <= i < d.len() && #[trigger] trace[i].contains(v) && !#[trigger] d.take(i).contains(v)
                implies stamp_or(s1, v, now) == stamp_or(s2, v, now) by {
            assert(d.take(i) =~= keys.take(i));
        }
        lemma_eviction_ages_agree(trace, d, s1, s2, now);
        assert(keys.take(n) =~= d);
    }
}

/// Eviction ages over `keys` depend on the trace only up to `keys.len()`.
proof fn lemma_eviction_ages_prefix<K>(
    t1: Seq<Set<K>>,
    t2: Seq<Set<K>>,
    keys: Seq<K>,
    stamps: Map<K, u64>,
    now: u64,
)
    requires
        forall|j: int| 0 <= j <= keys.len() ==> #[trigger] t1[j] == t2[j],
    ensures
        eviction_ages(t1, keys, stamps, now) == eviction_ages(t2, keys, stamps, now),
    decreases keys.len(),
{
    if keys.len() > 0 {
        let n = keys.len() - 1;
        assert(t1[n] == t2[n]);
        assert(t1[n + 1] == t2[n + 1]);
        lemma_eviction_ages_prefix(t1, t2, keys.drop_last(), stamps, now);
    }
}

/// Invalidation ages depend on the stamps only of the held keys.
proof fn lemma_invalidation_ages_agree(
    writes: Seq<Key>,
    held: Set<Key>,
    s1: Map<Key, u64>,
    s2: Map<Key, u64>,
    sh: Set<StemId>,
    t1: Map<StemId, u64>,
    t2: Map<StemId, u64>,
    now: u64,
)
    requires
        forall|k: Key| #[trigger] held.contains(k) ==> stamp_or(s1, k, now) == stamp_or(s2, k, now),
        forall|s: StemId| #[trigger] sh.contains(s) ==> stamp_or(t1, s, now) == stamp_or(t2, s, now),
    ensures
        invalidation_ages(writes, held, s1, now) == invalidation_ages(writes, held, s2, now),
        stem_invalidation_ages(writes, sh, t1, now) == stem_invalidation_ages(writes, sh, t2, now),
    decreases writes.len(),
{
    if writes.len() > 0 {
        lemma_invalidation_ages_agree(writes.drop_last(), held, s1, s2, sh, t1, t2, now);
    }
}

/// Whatever a trace holds before access `i` was held at the start or
/// accessed earlier.
proof fn lemma_trace_from_start<K>(trace: Seq<Set<K>>, keys: Seq<K>, cap: nat, i: int)
    requires
        read_trace(trace, keys, cap),
        0 <= i <= keys.len(),
    ensures
        forall|v: K| #[trigger] trace[i].contains(v) ==> trace[0].contains(v) || keys.take(i).contains(v),
    decreases i,
{
    if i > 0 {
        lemma_trace_from_start(trace, keys, cap, i - 1);
        let j = i - 1;
        assert(step_ok(trace[j], trace[j + 1], keys[j], cap));
        assert forall|v: K| #[trigger] trace[i].contains(v) implies trace[0].contains(v) || keys.take(
            i,
        ).contains(v) by {
            if v == keys[i - 1] {
                assert(keys.take(i)[i - 1] == v);
            } else {
                assert(trace[i - 1].contains(v));
                if keys.take(i - 1).contains(v) {
                    let j = choose|j: int| 0 <= j < i - 1 && #[trigger] keys.take(i - 1)[j] == v;
                    assert(keys.take(i)[j] == v);
                }
            }
        }
    }
}

fn age_at(now: u64, last_seen: u64) -> (r: u64)
    ensures
        r == age(now, last_seen),
        r <= now,
{
    now.saturating_sub(last_seen)
}

/// Drops from `policy` every key that `window` finds expired at `now`, and
/// records each one's survival age.
fn expire_window<K: CacheKey>(
    policy: &mut CachePolicy<K>,
    window: &mut RetentionWindow<K>,
    now: u64,
    ages: &mut Vec<u64>,
)
    requires
        tracks(*old(policy), *old(window)),
        all_within(old(ages)@, now),
    ensures
        tracks(*final(policy), *final(window)),
        final(policy).cap() == old(policy).cap(),
        final(policy).kind() == old(policy).kind(),
        final(window).span() == old(window).span(),
        final(policy).resident().subset_of(old(policy).resident()),
        forall|k: K|
            old(policy).resident().contains(k) && !final(policy).resident().contains(k)
                ==> old(window).stamps().contains_key(k) && expired_at(
                old(window).stamps()[k],
                old(window).span(),
                now,
            ),
        forall|k: K| #[trigger]
            final(policy).resident().contains(k) ==> (final(window).stamps().contains_key(k)
                <==> old(window).stamps().contains_key(k)),
        forall|k: K| #[trigger]
            final(window).stamps().contains_key(k) ==> final(window).stamps()[k] == old(window).stamps()[k],
        all_within(final(ages)@, now),
        final(ages)@.len() <= old(ages)@.len() + old(policy).resident().len(),
        stamps_ordered(old(window)@) ==> stamps_ordered(final(window)@) && fresh_stamps(
            final(window).stamps(),
            final(window).span(),
            now,
        ),
        forall|t: u64| stamped_by(old(window)@, t) ==> stamped_by(final(window)@, t),
        exists|dropped: Seq<(K, u64)>, states: Seq<CachePolicy<K>>|
            #![trigger lists_dropped(old(policy).resident(), old(window).stamps(), final(policy).resident(), dropped), removes_each(states, keys_of(dropped))]
            lists_dropped(old(policy).resident(), old(window).stamps(), final(policy).resident(), dropped)
                && final(ages)@ == old(ages)@ + ages_of(dropped, now) && removes_each(states, keys_of(dropped))
                && states[0] == *old(policy) && states.last() == *final(policy) && dropped == old(
                window,
            )@.take(dropped.len() as int) && expired_prefix(old(window)@, old(window).span(), now, dropped.len())
                && final(window)@ == old(window)@.skip(dropped.len() as int),
{
    let ghost r0 = policy.resident();
    let ghost s0 = window.stamps();
    let ghost w0 = window@;
    let ghost n = window.span();
    proof {
        window.lemma_unique();
        if w0.len() > 0 {
            lemma_to_map_entry(w0, 0);
        } else {
            assert(to_map(w0).dom() =~= key_set(w0));
        }
        lemma_key_set_len(w0);
        policy.lemma_within_capacity();
        vstd::set_lib::lemma_len_subset(key_set(w0), r0);
        assert forall|i: int| 0 <= i < w0.len() implies w0[i].1 + n <= u64::MAX by {
            lemma_to_map_entry(w0, i);
        }
    }
    let expired = window.drain_expired(now);
    let ghost a0 = ages@;
    let ghost mut states: Seq<CachePolicy<K>> = seq![*policy];
    let mut i: usize = 0;
    while i < expired.len()
        invariant
            0 <= i <= expired@.len(),
            expired@.len() <= w0.len(),
            w0.len() <= r0.len(),
            expired@ == w0.take(expired@.len() as int),
            policy.valid(),
            policy.cap() == old(policy).cap(),
            policy.kind() == old(policy).kind(),
            forall|k: K| #[trigger]
                policy.resident().contains(k) <==> (r0.contains(k) && !has_key(expired@.take(i as int), k)),
            all_within(ages@, now),
            ages@.len() == a0.len() + i,
            ages@ == a0 + ages_of(expired@.take(i as int), now),
            states.len() == i + 1,
            states[0] == *old(policy),
            states.last() == *policy,
            forall|j: int| 0 <= j < i ==> #[trigger] states[j].removed(states[j + 1], expired@[j].0),
        decreases expired@.len() - i,
    {
        let (key, last_seen) = expired[i];
        let ghost ah = ages@;
        let ghost pr = policy.resident();
        let ghost st0 = states;
        policy.remove(&key);
        proof {
            states = states.push(*policy);
            assert(states[i as int] == st0.last());
            assert forall|j: int| 0 <= j < i + 1 implies #[trigger] states[j].removed(states[j + 1], expired@[j].0) by {
                if j < i {
                    assert(states[j] == st0[j]);
                    assert(states[j + 1] == st0[j + 1]);
                }
            }
        }
        ages.push(age_at(now, last_seen));
        proof {
            let t0 = expired@.take(i as int);
            let t1 = expired@.take(i + 1);
            assert(ages_of(t1, now) =~= ages_of(t0, now).push(age(now, last_seen)));
            assert(ages@ =~= a0 + ages_of(t1, now));
            assert forall|k: K| #[trigger]
                policy.resident().contains(k) <==> (r0.contains(k) && !has_key(t1, k)) by {
                if has_key(t1, k) && k != key {
                    let j = choose|j: int| 0 <= j < t1.len() && t1[j].0 == k;
                    assert(t0[j].0 == k);
                }
                if has_key(t0, k) {
                    let j = choose|j: int| 0 <= j < t0.len() && t0[j].0 == k;
                    assert(t1[j].0 == k);
                }
                if k == key {
                    assert(t1[i as int].0 == k);
                }
            }
        }
        i = i + 1;
    }
    proof {
        assert(expired@.take(expired@.len() as int) =~= expired@);
        let d = expired@;
        assert forall|k: K| #[trigger] window.stamps().contains_key(k) implies policy.resident().contains(k) by {
            assert(s0.contains_key(k));
            assert(!key_set(d).contains(k));
        }
        assert(unique_keys(d)) by {
            assert forall|p: int, q: int| 0 <= p < d.len() && 0 <= q < d.len() && p != q implies d[p].0
                != d[q].0 by {
                assert(d[p] == w0[p]);
                assert(d[q] == w0[q]);
            }
        }
        assert forall|k: K| #[trigger] has_key(d, k) implies r0.contains(k) by {
            let j = choose|j: int| 0 <= j < d.len() && d[j].0 == k;
            assert(w0[j] == d[j]);
            lemma_to_map_entry(w0, j);
        }
        assert forall|j: int| 0 <= j < d.len() implies #[trigger] d[j].1 == s0[d[j].0] by {
            assert(w0[j] == d[j]);
            lemma_to_map_entry(w0, j);
        }
        assert(lists_dropped(r0, s0, policy.resident(), d));
        assert forall|j: int| 0 <= j < keys_of(d).len() implies #[trigger] states[j].removed(
            states[j + 1],
            keys_of(d)[j],
        ) by {
            assert(keys_of(d)[j] == d[j].0);
        }
        assert(removes_each(states, keys_of(d)));
        window.lemma_unique();
        if stamps_ordered(w0) {
            let w1 = window@;
            assert forall|k: K| #[trigger] window.stamps().contains_key(k) implies !expired_at(
                window.stamps()[k],
                n,
                now,
            ) by {
                let i = choose|i: int| 0 <= i < w1.len() && w1[i].0 == k;
                lemma_to_map_entry(w1, i);
            }
        }
        assert forall|k: K|
            r0.contains(k) && !policy.resident().contains(k) implies s0.contains_key(k) && expired_at(s0[k], n, now) by {
            let j = choose|j: int| 0 <= j < expired@.len() && expired@[j].0 == k;
            assert(w0[j] == expired@[j]);
            lemma_to_map_entry(w0, j);
        }
    }
}

/// Accesses `key` in `policy`, keeping `window` in step; returns whether it hit
/// and, if a resident key was pushed out, its survival age.
fn access_tracked<K: CacheKey>(
    policy: &mut CachePolicy<K>,
    window: &mut RetentionWindow<K>,
    key: K,
    now: u64,
) -> (r: (bool, Option<u64>))
    requires
        tracks(*old(policy), *old(window)),
        now + old(window).span() <= u64::MAX,
    ensures
        tracks(*final(policy), *final(window)),
        final(policy).cap() == old(policy).cap(),
        final(policy).kind() == old(policy).kind(),
        final(window).span() == old(window).span(),
        r.0 == old(policy).resident().contains(key),
        final(policy).resident().contains(key),
        forall|k: K| #[trigger]
            final(policy).resident().contains(k) ==> old(policy).resident().contains(k) || k == key,
        forall|k: K|
            #![trigger final(policy).resident().contains(k)]
            old(policy).resident().contains(k) && !final(policy).resident().contains(k) ==> r.1 is Some,
        final(window).stamps().contains_key(key),
        final(window).stamps()[key] == now,
        forall|k: K| #[trigger]
            final(window).stamps().contains_key(k) && k != key ==> old(window).stamps().contains_key(k)
                && final(window).stamps()[k] == old(window).stamps()[k],
        forall|k: K|
            #![trigger final(window).stamps().contains_key(k)]
            old(window).stamps().contains_key(k) && final(policy).resident().contains(k)
                ==> final(window).stamps().contains_key(k),
        r.1 matches Some(a) ==> a <= now,
        r.1 is Some ==> !old(policy).resident().subset_of(final(policy).resident()),
        forall|k: K|
            #![trigger final(policy).resident().contains(k)]
            old(policy).resident().contains(k) && !final(policy).resident().contains(k) ==> r.1 == Some(
                age(now, stamp_or(old(window).stamps(), k, now)),
            ),
        r.0 ==> r.1 is None,
        stamps_ordered(old(window)@) && stamped_by(old(window)@, now) ==> stamps_ordered(final(window)@),
        forall|t: u64| stamped_by(old(window)@, t) && now <= t ==> stamped_by(final(window)@, t),
        step_ok(old(policy).resident(), final(policy).resident(), key, old(policy).cap()),
        old(policy).accessed(*final(policy), key),
        final(window)@ == win_touch(
            if old(policy).resident().subset_of(final(policy).resident()) {
                old(window)@
            } else {
                win_remove(
                    old(window)@,
                    choose|v: K| old(policy).resident().contains(v) && !final(policy).resident().contains(v),
                )
            },
            key,
            now,
        ),
{
    let ghost s0 = window.stamps();
    let out = policy.access(key);
    proof {
        if let Some(v) = out.evicted {
            assert(policy.resident() == old(policy).resident().remove(v).insert(key));
            assert(!policy.resident().contains(v));
            let c = choose|c: K| old(policy).resident().contains(c) && !policy.resident().contains(c);
            assert(c == v);
        } else {
            assert(old(policy).resident().subset_of(policy.resident()));
        }
    }
    let mut aged: Option<u64> = None;
    match out.evicted {
        Some(v) => {
            let last_seen = match window.remove(&v) {
                Some(t) => t,
                None => now,
            };
            aged = Some(age_at(now, last_seen));
        },
        None => {},
    }
    window.touch(key, now);
    proof {
        assert(window.stamps().dom().subset_of(policy.resident()));
    }
    (out.hit, aged)
}

impl WitnessCache {
    pub closed spec fn wf(&self) -> bool {
        &&& tracks(self.policy, self.window)
        &&& tracks(self.stem_policy, self.stem_window)
        &&& self.window.span() == self.stem_window.span()
    }

    /// The resident leaves.
    pub closed spec fn resident(&self) -> Set<Key> {
        self.policy.resident()
    }

    /// The resident extension nodes.
    pub closed spec fn stem_resident(&self) -> Set<StemId> {
        self.stem_policy.resident()
    }

    /// The leaf window's entries, oldest first, each with its stamp.
    pub closed spec fn leaf_window_entries(&self) -> Seq<(Key, u64)> {
        self.window@
    }

    /// The extension-node window's entries, oldest first.
    pub closed spec fn stem_window_entries(&self) -> Seq<(StemId, u64)> {
        self.stem_window@
    }

    /// The leaf replacement policy, as its own contract describes it.
    pub closed spec fn leaf_state(&self) -> CachePolicy<Key> {
        self.policy
    }

    /// The extension-node replacement policy.
    pub closed spec fn stem_state(&self) -> CachePolicy<StemId> {
        self.stem_policy
    }

    /// The block at which each resident leaf was last witnessed.
    pub closed spec fn stamps(&self) -> Map<Key, u64> {
        self.window.stamps()
    }

    /// The block at which each resident extension node was last witnessed.
    pub closed spec fn stem_stamps(&self) -> Map<StemId, u64> {
        self.stem_window.stamps()
    }

    /// Both windows list their entries oldest stamp first, and no stamp is
    /// later than block `now`: what feeding blocks in order keeps true.
    pub closed spec fn settled_by(&self, now: u64) -> bool {
        &&& stamps_ordered(self.window@)
        &&& stamped_by(self.window@, now)
        &&& stamps_ordered(self.stem_window@)
        &&& stamped_by(self.stem_window@, now)
    }

    /// The retention window in blocks.
    pub closed spec fn span(&self) -> u64 {
        self.window.span()
    }

    /// The leaf policy's kind and capacity.
    pub closed spec fn leaf_policy(&self) -> (PolicyKind, nat) {
        (self.policy.kind(), self.policy.cap())
    }

    /// The extension-node policy's kind and capacity.
    pub closed spec fn stem_policy_of(&self) -> (PolicyKind, nat) {
        (self.stem_policy.kind(), self.stem_policy.cap())
    }

    /// Each retention window stamps only its cache's resident keys.
    pub proof fn lemma_windows_match(&self)
        requires
            self.wf(),
        ensures
            self.stamps().dom().subset_of(self.resident()),
            self.stem_stamps().dom().subset_of(self.stem_resident()),
            self.resident().finite(),
            self.stem_resident().finite(),
    {
        self.window.lemma_unique();
        self.stem_window.lemma_unique();
        lemma_key_set_len(self.window@);
        lemma_key_set_len(self.stem_window@);
        assert(to_map(self.window@).dom() =~= key_set(self.window@));
        assert(to_map(self.stem_window@).dom() =~= key_set(self.stem_window@));
        self.policy.lemma_within_capacity();
        self.stem_policy.lemma_within_capacity();
    }

    /// Neither cache outgrows its policy's capacity (one entry, if built with none).
    pub proof fn lemma_within_capacity(&self)
        requires
            self.wf(),
        ensures
            self.resident().len() <= resident_bound(self.leaf_policy().1),
            self.stem_resident().len() <= resident_bound(self.stem_policy_of().1),
    {
        self.policy.lemma_within_capacity();
        self.stem_policy.lemma_within_capacity();
    }

    /// Whether `rec` fits this cache (`block_fits`).
    pub fn fits(&self, rec: &BlockRecord) -> (r: bool)
        requires
            self.wf(),
        ensures
            r == block_fits(*self, *rec),
    {
        let now = rec.block_number;
        let r = rec.reads.len();
        let w = rec.writes.len();
        let l = self.policy.len();
        let sl = self.stem_policy.len();
        if r > 0xffff_ffff || w > 0xffff_ffff {
            return false;
        }
        let r64 = r as u64;
        let w64 = w as u64;
        let l64 = l as u64;
        let sl64 = sl as u64;
        if now > u64::MAX - self.window.span_exec() {
            return false;
        }
        assert(IPA_FLOOR_BYTES + 193 * (r64 + w64) <= u64::MAX);
        let leaf = match l64.checked_add(r64) {
            Some(x) => x,
            None => {
                return false;
            },
        };
        let stem = match sl64.checked_add(r64) {
            Some(x) => x,
            None => {
                return false;
            },
        };
        let leaf_bytes = match leaf.checked_mul(LEAF_ENTRY_BYTES) {
            Some(x) => x,
            None => {
                return false;
            },
        };
        let stem_bytes = match stem.checked_mul(STEM_ENTRY_BYTES) {
            Some(x) => x,
            None => {
                return false;
            },
        };
        leaf_bytes.checked_add(stem_bytes).is_some()
    }

    /// A cache over two fresh policies with an `window_n`-block retention window.
    pub fn new(policy: CachePolicy<Key>, stem_policy: CachePolicy<StemId>, window_n: u64) -> (c: Self)
        requires
            policy.valid(),
            stem_policy.valid(),
        ensures
            c.wf(),
            c.resident() == policy.resident(),
            c.stem_resident() == stem_policy.resident(),
            c.stamps() == Map::<Key, u64>::empty(),
            c.stem_stamps() == Map::<StemId, u64>::empty(),
            c.span() == window_n,
            c.leaf_policy() == (policy.kind(), policy.cap()),
            c.stem_policy_of() == (stem_policy.kind(), stem_policy.cap()),
            c.leaf_state() == policy,
            c.stem_state() == stem_policy,
            forall|now: u64| c.settled_by(now),
    {
        let c = WitnessCache {
            policy,
            window: RetentionWindow::new(window_n),
            stem_policy,
            stem_window: RetentionWindow::new(window_n),
        };
        proof {
            assert(c.window.stamps().dom() =~= Set::<Key>::empty());
            assert(c.stem_window.stamps().dom() =~= Set::<StemId>::empty());
        }
        c
    }

    /// How many leaves are resident.
    pub fn occupancy(&self) -> (r: usize)
        requires
            self.wf(),
        ensures
            r == self.resident().len(),
    {
        self.policy.len()
    }

    /// How many extension nodes are resident.
    pub fn stem_occupancy(&self) -> (r: usize)
        requires
            self.wf(),
        ensures
            r == self.stem_resident().len(),
    {
        self.stem_policy.len()
    }

    /// The entries both caches hold.
    pub fn footprint(&self) -> (r: CacheFootprint)
        requires
            self.wf(),
        ensures
            r.leaf_entries == self.resident().len(),
            r.stem_entries == self.stem_resident().len(),
    {
        CacheFootprint {
            leaf_entries: self.policy.len() as u64,
            stem_entries: self.stem_policy.len() as u64,
        }
    }
}


/// A block the cache can take: its number plus the window does not overflow,
/// its read and write counts fit the per-block counters, and the witness and
/// footprint byte counts fit in 64 bits.
pub open spec fn block_fits(c: WitnessCache, rec: BlockRecord) -> bool {
    &&& rec.block_number + c.span() <= u64::MAX
    &&& rec.reads@.len() <= u32::MAX
    &&& rec.writes@.len() <= u32::MAX
    &&& IPA_FLOOR_BYTES + 193 * (rec.reads@.len() + rec.writes@.len()) <= u64::MAX
    &&& LEAF_ENTRY_BYTES * (c.resident().len() + rec.reads@.len()) + STEM_ENTRY_BYTES * (
    c.stem_resident().len() + rec.reads@.len()) <= u64::MAX
}

/// A sink ready to absorb the block: valid, with room in every counter for
/// what the block's run reports.
pub open spec fn sink_ready(m: RunMetrics, c: WitnessCache, rec: BlockRecord) -> bool {
    &&& m.wf()
    &&& forall|c1: WitnessCache, ev: BlockEvents| #[trigger] advanced(c, c1, rec, ev) ==> m.room_for_events(ev)
}

/// A block's expiry keeps `kept` of the `resident` keys: a subset that holds
/// every key the window has not aged out (an unstamped key never ages out)
/// and, when blocks came in order, no other.
pub open spec fn expiry_keeps<K>(
    resident: Set<K>,
    stamps: Map<K, u64>,
    span: u64,
    now: u64,
    settled: bool,
    kept: Set<K>,
) -> bool {
    &&& kept.subset_of(resident)
    &&& forall|k: K| #[trigger]
        resident.contains(k) && !(stamps.contains_key(k) && expired_at(stamps[k], span, now)) ==> kept.contains(k)
    &&& settled ==> forall|k: K| #[trigger]
        kept.contains(k) && stamps.contains_key(k) ==> !expired_at(stamps[k], span, now)
}

/// The leaves a block's witness records, in first-touch order: each write,
/// held when its key was kept through expiry; then each read, held when it hit
/// or when its key was kept and is also written by the block.
pub open spec fn block_leaves(rec: BlockRecord, kept: Set<Key>, trace: Seq<Set<Key>>) -> Seq<(LeafId, LeafState)> {
    let writes = rec.writes@;
    let reads = rec.reads@;
    record_keys(
        record_keys(
            Seq::empty(),
            writes,
            Seq::new(writes.len(), |i: int| kept.contains(writes[i])),
            true,
        ),
        reads,
        Seq::new(
            reads.len(),
            |i: int| trace[i].contains(reads[i]) || (kept.contains(reads[i]) && writes.contains(reads[i])),
        ),
        false,
    )
}

/// The extension-node residency a block's witness records: each distinct stem
/// read, in first-read order, with whether the stem cache held it when accessed.
pub open spec fn block_stem_records(reads: Seq<Key>, trace: Seq<Set<StemId>>) -> Seq<(StemId, bool)> {
    let ids = stem_order(reads);
    Seq::new(ids.len(), |q: int| (ids[q], trace[q].contains(ids[q])))
}

/// One block's run through the cache, phase by phase. Expiry drops the
/// `dropped` leaves (the window's oldest entries, with their stamps) and keeps `kept`, the
/// leaf policy passing through `leaf_expiry`; each write then removes its key
/// (`leaf_writes`); each read then accesses its key (`leaf_reads`), the policy
/// holding `trace[i]` before read `i`. The stem fields record the same for
/// the extension-node cache, whose writes remove each written key's stem and
/// whose accesses are the block's distinct stems.
pub struct BlockRun {
    pub dropped: Seq<(Key, u64)>,
    pub kept: Set<Key>,
    pub trace: Seq<Set<Key>>,
    pub leaf_expiry: Seq<CachePolicy<Key>>,
    pub leaf_writes: Seq<CachePolicy<Key>>,
    pub leaf_reads: Seq<CachePolicy<Key>>,
    pub stem_dropped: Seq<(StemId, u64)>,
    pub stem_kept: Set<StemId>,
    pub stem_trace: Seq<Set<StemId>>,
    pub stem_expiry: Seq<CachePolicy<StemId>>,
    pub stem_writes: Seq<CachePolicy<StemId>>,
    pub stem_reads: Seq<CachePolicy<StemId>>,
}

/// A policy that starts as `p0` removes each of `expired`, holding `kept`
/// after the last; removes each of `written`; then accesses each of `read`,
/// holding `trace[i]` before access `i`, and ends as `p1`. The three
/// sequences list its states before each step of a phase and after the last.
pub open spec fn policy_phases<K: CacheKey>(
    p0: CachePolicy<K>,
    p1: CachePolicy<K>,
    expired: Seq<K>,
    written: Seq<K>,
    read: Seq<K>,
    kept: Set<K>,
    trace: Seq<Set<K>>,
    e: Seq<CachePolicy<K>>,
    w: Seq<CachePolicy<K>>,
    r: Seq<CachePolicy<K>>,
) -> bool {
    &&& removes_each(e, expired)
    &&& e[0] == p0
    &&& e.last().resident() == kept
    &&& removes_each(w, written)
    &&& w[0] == e.last()
    &&& accesses_each(r, read)
    &&& r[0] == w.last()
    &&& r.last() == p1
    &&& trace.len() == r.len()
    &&& forall|i: int| 0 <= i < r.len() ==> #[trigger] trace[i] == r[i].resident()
}

/// The block ran as `run` says, each policy following its own contract step
/// by step; the hits, the invalidations, the survival ages (expired, then
/// invalidated, then pushed out) and the witness bytes are those of that run.
pub open spec fn ran_block(old: WitnessCache, new: WitnessCache, rec: BlockRecord, ev: BlockEvents, run: BlockRun) -> bool {
    let now = rec.block_number;
    let reads = rec.reads@;
    let writes = rec.writes@;
    let o = ev.outcome;
    let settled = old.settled_by(now);
    let kept = run.kept;
    let trace = run.trace;
    let stem_kept = run.stem_kept;
    let stem_trace = run.stem_trace;
    &&& policy_phases(
        old.leaf_state(),
        new.leaf_state(),
        keys_of(run.dropped),
        writes,
        reads,
        kept,
        trace,
        run.leaf_expiry,
        run.leaf_writes,
        run.leaf_reads,
    )
    &&& policy_phases(
        old.stem_state(),
        new.stem_state(),
        keys_of(run.stem_dropped),
        stems_of(writes),
        stem_order(reads),
        stem_kept,
        stem_trace,
        run.stem_expiry,
        run.stem_writes,
        run.stem_reads,
    )
    &&& expiry_keeps(old.resident(), old.stamps(), old.span(), now, settled, kept)
    &&& expiry_keeps(old.stem_resident(), old.stem_stamps(), old.span(), now, settled, stem_kept)
    &&& run.dropped == old.leaf_window_entries().take(run.dropped.len() as int)
    &&& expired_prefix(old.leaf_window_entries(), old.span(), now, run.dropped.len())
    &&& new.leaf_window_entries() == window_after_accesses(
        window_without(old.leaf_window_entries().skip(run.dropped.len() as int), writes),
        trace,
        reads,
        now,
    )
    &&& run.stem_dropped == old.stem_window_entries().take(run.stem_dropped.len() as int)
    &&& expired_prefix(old.stem_window_entries(), old.span(), now, run.stem_dropped.len())
    &&& new.stem_window_entries() == window_after_accesses(
        window_without(old.stem_window_entries().skip(run.stem_dropped.len() as int), stems_of(writes)),
        stem_trace,
        stem_order(reads),
        now,
    )
    &&& lists_dropped(old.resident(), old.stamps(), kept, run.dropped)
    &&& lists_dropped(old.stem_resident(), old.stem_stamps(), stem_kept, run.stem_dropped)
    &&& ev.survival@ == ages_of(run.dropped, now) + invalidation_ages(writes, kept, old.stamps(), now)
        + eviction_ages(trace, reads, old.stamps(), now)
    &&& ev.stem_survival@ == ages_of(run.stem_dropped, now) + stem_invalidation_ages(
        writes,
        stem_kept,
        old.stem_stamps(),
        now,
    ) + eviction_ages(stem_trace, stem_order(reads), old.stem_stamps(), now)
    &&& read_trace(trace, reads, new.leaf_policy().1)
    &&& trace[0] == kept.filter(|k: Key| !writes.contains(k))
    &&& trace.last() == new.resident()
    &&& o.hits == hit_count(trace, reads, reads.len() as int)
    &&& read_trace(stem_trace, stem_order(reads), new.stem_policy_of().1)
    &&& stem_trace[0] == stem_kept.filter(|s: StemId| !has_stem(writes, s))
    &&& stem_trace.last() == new.stem_resident()
    &&& ev.invalidated@ == invalidated_addrs(writes, kept)
    &&& o.stem_invalidations == stem_invalidation_count(writes, stem_kept)
    &&& o.witness == sealed(block_leaves(rec, kept, trace), block_stem_records(reads, stem_trace))
}

/// One block's effect on the cache, and what it reports.
pub open spec fn advanced(old: WitnessCache, new: WitnessCache, rec: BlockRecord, ev: BlockEvents) -> bool {
    let now = rec.block_number;
    let reads = rec.reads@;
    let writes = rec.writes@;
    let o = ev.outcome;
    &&& new.wf()
    &&& new.span() == old.span()
    &&& new.leaf_policy() == old.leaf_policy()
    &&& new.stem_policy_of() == old.stem_policy_of()
    &&& outcome_ok(o)
    &&& o.block_number == now
    &&& o.reads == reads.len()
    &&& o.invalidations == ev.invalidated@.len()
    &&& o.invalidations <= writes.len()
    &&& o.stem_invalidations <= writes.len()
    &&& o.occupancy == new.resident().len()
    &&& o.stem_occupancy == new.stem_resident().len()
    &&& o.footprint == (CacheFootprint {
        leaf_entries: o.occupancy,
        stem_entries: o.stem_occupancy,
    })
    &&& o.witness.naive <= IPA_FLOOR_BYTES + 193 * (reads.len() + writes.len())
    &&& all_within(ev.survival@, now)
    &&& all_within(ev.stem_survival@, now)
    &&& ev.survival@.len() <= old.resident().len() + writes.len() + reads.len()
    &&& ev.stem_survival@.len() <= old.stem_resident().len() + writes.len() + reads.len()
    &&& new.resident().len() <= old.resident().len() + reads.len()
    &&& new.stem_resident().len() <= old.stem_resident().len() + reads.len()
    // Nothing becomes resident unless read.
    &&& forall|k: Key| #[trigger]
        new.resident().contains(k) ==> old.resident().contains(k) || reads.contains(k)
    // A write invalidates the key's cached leaf.
    &&& forall|k: Key| #[trigger]
        writes.contains(k) && !reads.contains(k) ==> !new.resident().contains(k)
    // The window stamps only resident keys; a read stamps the key with the block.
    &&& new.stamps().dom().subset_of(new.resident())
    &&& forall|k: Key| #[trigger]
        new.resident().contains(k) && reads.contains(k) ==> new.stamps().contains_key(k) && new.stamps()[k] == now
    // A resident key that is not read keeps its stamp, or its lack of one.
    &&& forall|k: Key| #[trigger]
        new.resident().contains(k) && !reads.contains(k) ==> (new.stamps().contains_key(k)
            <==> old.stamps().contains_key(k)) && (new.stamps().contains_key(k) ==> new.stamps()[k]
            == old.stamps()[k])
    // The last key read stays resident.
    &&& reads.len() > 0 ==> new.resident().contains(reads.last())
    // The same three for extension nodes, keyed by stem.
    &&& forall|s: StemId| #[trigger]
        new.stem_resident().contains(s) ==> old.stem_resident().contains(s) || has_stem(reads, s)
    &&& forall|s: StemId| #[trigger]
        has_stem(writes, s) && !has_stem(reads, s) ==> !new.stem_resident().contains(s)
    &&& new.stem_stamps().dom().subset_of(new.stem_resident())
    &&& forall|s: StemId| #[trigger]
        new.stem_resident().contains(s) && has_stem(reads, s) ==> new.stem_stamps().contains_key(s)
            && new.stem_stamps()[s] == now
    // The hits, invalidations and witness bytes are those of a run of the
    // block through expiry, invalidation and the policies' accesses.
    &&& exists|run: BlockRun| #[trigger] ran_block(old, new, rec, ev, run)
    // Blocks fed in order keep both windows ordered, and then nothing that
    // stays resident without being read this block has sat out the window.
    &&& old.settled_by(now) ==> new.settled_by(now)
    &&& old.settled_by(now) ==> forall|k: Key| #[trigger]
        new.stamps().contains_key(k) && !reads.contains(k) ==> !expired_at(new.stamps()[k], new.span(), now)
    &&& old.settled_by(now) ==> forall|s: StemId| #[trigger]
        new.stem_stamps().contains_key(s) && !has_stem(reads, s) ==> !expired_at(
            new.stem_stamps()[s],
            new.span(),
            now,
        )
}

impl WitnessCache {
    /// The keys of `writes` resident now.
    fn written_resident(&self, writes: &Vec<Key>) -> (r: OrderedMap<Key, ()>)
        requires
            self.wf(),
        ensures
            r.wf(),
            forall|k: Key| has_key(r@, k) <==> writes@.contains(k) && self.resident().contains(k),
    {
        let mut r: OrderedMap<Key, ()> = OrderedMap::new();
        let mut i: usize = 0;
        while i < writes.len()
            invariant
                self.wf(),
                0 <= i <= writes@.len(),
                r.wf(),
                forall|k: Key| has_key(r@, k) <==> writes@.take(i as int).contains(k) && self.resident().contains(k),
            decreases writes@.len() - i,
        {
            let w = writes[i];
            let ghost r0 = r@;
            if self.policy.contains(&w) && !r.contains(&w) {
                r.push_back(w, ());
                proof {
                    crate::ordered::lemma_push_unique(r0, (w, ()));
                }
            }
            proof {
                let t0 = writes@.take(i as int);
                let t1 = writes@.take(i + 1);
                assert(t1 =~= t0.push(w));
                assert forall|k: Key| t1.contains(k) <==> (t0.contains(k) || k == w) by {
                    if t1.contains(k) && k != w {
                        let j = choose|j: int| 0 <= j < t1.len() && t1[j] == k;
                        assert(t0[j] == k);
                    }
                    if t0.contains(k) {
                        let j = choose|j: int| 0 <= j < t0.len() && t0[j] == k;
                        assert(t1[j] == k);
                    }
                    if k == w {
                        assert(t1[i as int] == k);
                    }
                }
                assert forall|k: Key| has_key(r@, k) <==> t1.contains(k) && self.resident().contains(k) by {
                    assert(has_key(r0, k) <==> t0.contains(k) && self.resident().contains(k));
                    assert(t1.contains(k) <==> (t0.contains(k) || k == w));
                    if k == w {
                        assert(t1.contains(w));
                    }
                }
            }
            i = i + 1;
        }
        proof {
            assert(writes@.take(writes@.len() as int) =~= writes@);
        }
        r
    }

    /// Drops every written key from both caches, recording the invalidations.
    fn invalidate(
        &mut self,
        rec: &BlockRecord,
        snap: &OrderedMap<Key, ()>,
        accum: &mut BlockWitnessAccum,
        survival: &mut Vec<u64>,
        stem_survival: &mut Vec<u64>,
        invalidated: &mut Vec<Address>,
    ) -> (r: (u32, u32))
        requires
            old(self).wf(),
            snap.wf(),
            old(accum).wf(),
            rec.writes@.len() <= u32::MAX,
            all_within(old(survival)@, rec.block_number),
            all_within(old(stem_survival)@, rec.block_number),
        ensures
            final(self).wf(),
            final(self).span() == old(self).span(),
            final(self).leaf_policy() == old(self).leaf_policy(),
            final(self).stem_policy_of() == old(self).stem_policy_of(),
            forall|k: Key| #[trigger]
                final(self).resident().contains(k) <==> (old(self).resident().contains(k)
                    && !rec.writes@.contains(k)),
            forall|s: StemId| #[trigger]
                final(self).stem_resident().contains(s) <==> (old(self).stem_resident().contains(s)
                    && !has_stem(rec.writes@, s)),
            final(accum).wf(),
            final(accum).stems() == old(accum).stems(),
            final(accum).leaves().len() <= old(accum).leaves().len() + rec.writes@.len(),
            final(accum).leaves() == record_keys(
                old(accum).leaves(),
                rec.writes@,
                Seq::new(rec.writes@.len(), |i: int| has_key(snap@, rec.writes@[i])),
                true,
            ),
            r.0 <= rec.writes@.len(),
            r.1 <= rec.writes@.len(),
            final(invalidated)@ == old(invalidated)@ + invalidated_addrs(rec.writes@, old(self).resident()),
            r.1 == stem_invalidation_count(rec.writes@, old(self).stem_resident()),
            final(self).leaf_window_entries() == window_without(old(self).leaf_window_entries(), rec.writes@),
            final(self).stem_window_entries() == window_without(
                old(self).stem_window_entries(),
                stems_of(rec.writes@),
            ),
            exists|states: Seq<CachePolicy<Key>>|
                #[trigger] removes_each(states, rec.writes@) && states[0] == old(self).leaf_state()
                    && states.last() == final(self).leaf_state(),
            exists|states: Seq<CachePolicy<StemId>>|
                #[trigger] removes_each(states, stems_of(rec.writes@)) && states[0] == old(self).stem_state()
                    && states.last() == final(self).stem_state(),
            final(invalidated)@.len() == old(invalidated)@.len() + r.0,
            final(survival)@.len() == old(survival)@.len() + r.0,
            final(stem_survival)@.len() == old(stem_survival)@.len() + r.1,
            final(survival)@ == old(survival)@ + invalidation_ages(
                rec.writes@,
                old(self).resident(),
                old(self).stamps(),
                rec.block_number,
            ),
            final(stem_survival)@ == old(stem_survival)@ + stem_invalidation_ages(
                rec.writes@,
                old(self).stem_resident(),
                old(self).stem_stamps(),
                rec.block_number,
            ),
            all_within(final(survival)@, rec.block_number),
            all_within(final(stem_survival)@, rec.block_number),
            forall|k: Key| #[trigger]
                final(self).stamps().contains_key(k) ==> final(self).stamps()[k] == old(self).stamps()[k],
            forall|s: StemId| #[trigger]
                final(self).stem_stamps().contains_key(s) ==> final(self).stem_stamps()[s] == old(
                    self,
                ).stem_stamps()[s],
            forall|k: Key|
                !#[trigger] rec.writes@.contains(k) ==> (final(self).stamps().contains_key(k)
                    <==> old(self).stamps().contains_key(k)),
            forall|s: StemId|
                !#[trigger] has_stem(rec.writes@, s) ==> (final(self).stem_stamps().contains_key(s)
                    <==> old(self).stem_stamps().contains_key(s)),
            forall|t: u64| old(self).settled_by(t) ==> final(self).settled_by(t),
    {
        let now = rec.block_number;
        let ghost r0 = self.resident();
        let ghost sr0 = self.stem_resident();
        let ghost st0 = self.stamps();
        let ghost sst0 = self.stem_stamps();
        let ghost c0 = *self;
        let ghost l0 = accum.leaves().len();
        let ghost sv0 = survival@.len();
        let ghost ss0 = stem_survival@.len();
        let ghost iv0 = invalidated@.len();
        let ghost ivs0 = invalidated@;
        let ghost svs0 = survival@;
        let ghost sss0 = stem_survival@;
        let ghost lv0 = accum.leaves();
        let ghost mut flags: Seq<bool> = Seq::empty();
        let ghost mut lstates: Seq<CachePolicy<Key>> = seq![self.policy];
        let ghost mut sstates: Seq<CachePolicy<StemId>> = seq![self.stem_policy];
        let mut inv: u32 = 0;
        let mut stem_inv: u32 = 0;
        let mut i: usize = 0;
        while i < rec.writes.len()
            invariant
                self.wf(),
                self.span() == old(self).span(),
                self.leaf_policy() == old(self).leaf_policy(),
                self.stem_policy_of() == old(self).stem_policy_of(),
                0 <= i <= rec.writes@.len(),
                rec.writes@.len() <= u32::MAX,
                now == rec.block_number,
                snap.wf(),
                forall|k: Key| #[trigger]
                    self.resident().contains(k) <==> (r0.contains(k) && !rec.writes@.take(i as int).contains(k)),
                forall|s: StemId| #[trigger]
                    self.stem_resident().contains(s) <==> (sr0.contains(s) && !has_stem(rec.writes@.take(i as int), s)),
                accum.wf(),
                accum.stems() == old(accum).stems(),
                accum.leaves().len() <= l0 + i,
                inv <= i,
                stem_inv <= i,
                invalidated@.len() == iv0 + inv,
                flags.len() == i,
                forall|j: int| 0 <= j < i ==> #[trigger] flags[j] == has_key(snap@, rec.writes@[j]),
                accum.leaves() == record_keys(lv0, rec.writes@.take(i as int), flags, true),
                invalidated@ == ivs0 + invalidated_addrs(rec.writes@.take(i as int), r0),
                stem_inv == stem_invalidation_count(rec.writes@.take(i as int), sr0),
                survival@ == svs0 + invalidation_ages(rec.writes@.take(i as int), r0, st0, now),
                lstates.len() == i + 1,
                lstates[0] == old(self).policy,
                lstates.last() == self.policy,
                forall|j: int| 0 <= j < i ==> #[trigger] lstates[j].removed(lstates[j + 1], rec.writes@[j]),
                sstates.len() == i + 1,
                sstates[0] == old(self).stem_policy,
                sstates.last() == self.stem_policy,
                forall|j: int|
                    0 <= j < i ==> #[trigger] sstates[j].removed(sstates[j + 1], stem_of(rec.writes@[j])),
                stem_survival@ == sss0 + stem_invalidation_ages(rec.writes@.take(i as int), sr0, sst0, now),
                survival@.len() == sv0 + inv,
                stem_survival@.len() == ss0 + stem_inv,
                all_within(survival@, now),
                all_within(stem_survival@, now),
                forall|k: Key| #[trigger] self.stamps().contains_key(k) ==> self.stamps()[k] == st0[k],
                forall|s: StemId| #[trigger]
                    self.stem_stamps().contains_key(s) ==> self.stem_stamps()[s] == sst0[s],
                forall|k: Key|
                    !#[trigger] rec.writes@.take(i as int).contains(k) ==> (self.stamps().contains_key(k)
                        <==> st0.contains_key(k)),
                forall|s: StemId|
                    !#[trigger] has_stem(rec.writes@.take(i as int), s) ==> (self.stem_stamps().contains_key(s)
                        <==> sst0.contains_key(s)),
                forall|t: u64| c0.settled_by(t) ==> self.settled_by(t),
                self.window@ == window_without(old(self).window@, rec.writes@.take(i as int)),
                self.stem_window@ == window_without(
                    old(self).stem_window@,
                    stems_of(rec.writes@).take(i as int),
                ),
            decreases rec.writes@.len() - i,
        {
            let w = rec.writes[i];
            let ghost rh = self.resident();
            let ghost srh = self.stem_resident();
            let ghost sth = self.stamps();
            let ghost ssth = self.stem_stamps();
            let ghost ivh = invalidated@;
            let ghost svh = survival@;
            let ghost ssh = stem_survival@;
            proof {
                self.lemma_windows_match();
            }
            let ghost fh = flags;
            let ghost lh = accum.leaves();
            let was = snap.contains(&w);
            accum.record_leaf(&w, was, true);
            proof {
                flags = flags.push(was);
            }
            let ghost ls0 = lstates;
            let ghost ss0 = sstates;
            let ghost wv0 = self.window@;
            let ghost swv0 = self.stem_window@;
            proof {
                self.window.lemma_unique();
                self.stem_window.lemma_unique();
                if has_key(wv0, w) {
                    let q = choose|q: int| 0 <= q < wv0.len() && wv0[q].0 == w;
                    lemma_to_map_entry(wv0, q);
                }
            }
            let removed = self.policy.remove(&w);
            proof {
                lstates = lstates.push(self.policy);
                assert(lstates[i as int] == ls0.last());
                assert forall|j: int| 0 <= j < i + 1 implies #[trigger] lstates[j].removed(lstates[j + 1], rec.writes@[j]) by {
                    if j < i {
                        assert(lstates[j] == ls0[j]);
                        assert(lstates[j + 1] == ls0[j + 1]);
                    }
                }
            }
            if removed {
                let last_seen = match self.window.remove(&w) {
                    Some(t) => t,
                    None => now,
                };
                survival.push(age_at(now, last_seen));
                invalidated.push(w.addr);
                inv = inv + 1;
            }
            proof {
                assert(self.window.stamps().dom().subset_of(self.policy.resident()));
            }
            proof {
                assert(self.window@ == win_remove(wv0, w));
            }
            let (stem, _) = key_to_leaf(&w);
            proof {
                if has_key(swv0, stem) {
                    let q = choose|q: int| 0 <= q < swv0.len() && swv0[q].0 == stem;
                    lemma_to_map_entry(swv0, q);
                }
            }
            let stem_removed = self.stem_policy.remove(&stem);
            proof {
                sstates = sstates.push(self.stem_policy);
                assert(sstates[i as int] == ss0.last());
                assert forall|j: int|
                    0 <= j < i + 1 implies #[trigger] sstates[j].removed(sstates[j + 1], stem_of(rec.writes@[j])) by {
                    if j < i {
                        assert(sstates[j] == ss0[j]);
                        assert(sstates[j + 1] == ss0[j + 1]);
                    }
                }
            }
            if stem_removed {
                let last_seen = match self.stem_window.remove(&stem) {
                    Some(t) => t,
                    None => now,
                };
                stem_survival.push(age_at(now, last_seen));
                stem_inv = stem_inv + 1;
            }
            proof {
                assert(self.stem_window.stamps().dom().subset_of(self.stem_policy.resident()));
                assert(self.stem_window@ == win_remove(swv0, stem));
                let t0 = rec.writes@.take(i as int);
                let t1 = rec.writes@.take(i + 1);
                let u0 = stems_of(rec.writes@).take(i as int);
                let u1 = stems_of(rec.writes@).take(i + 1);
                assert(u1.drop_last() =~= u0);
                assert(u1.last() == stem);
                assert(t1 =~= t0.push(w));
                assert(t1.drop_last() =~= t0);
                assert(flags.drop_last() =~= fh);
                assert(accum.leaves() == record_keys(lv0, t1, flags, true));
                assert(rh.contains(w) <==> (r0.contains(w) && !t0.contains(w)));
                assert(srh.contains(stem) <==> (sr0.contains(stem) && !has_stem(t0, stem)));
                assert(stem == stem_of(w));
                assert(!t0.contains(w) ==> (sth.contains_key(w) <==> st0.contains_key(w)));
                assert(!has_stem(t0, stem) ==> (ssth.contains_key(stem) <==> sst0.contains_key(stem)));
                if r0.contains(w) && !t0.contains(w) {
                    assert(invalidated@ =~= ivs0 + invalidated_addrs(t1, r0));
                    assert(survival@ =~= svs0 + invalidation_ages(t1, r0, st0, now));
                } else {
                    assert(invalidated@ =~= ivs0 + invalidated_addrs(t1, r0));
                    assert(survival@ =~= svs0 + invalidation_ages(t1, r0, st0, now));
                }
                if sr0.contains(stem) && !has_stem(t0, stem) {
                    assert(stem_survival@ =~= sss0 + stem_invalidation_ages(t1, sr0, sst0, now));
                } else {
                    assert(stem_survival@ =~= sss0 + stem_invalidation_ages(t1, sr0, sst0, now));
                }
                assert forall|k: Key| t1.contains(k) <==> (t0.contains(k) || k == w) by {
                    if t1.contains(k) && k != w {
                        let j = choose|j: int| 0 <= j < t1.len() && t1[j] == k;
                        assert(t0[j] == k);
                    }
                    if t0.contains(k) {
                        let j = choose|j: int| 0 <= j < t0.len() && t0[j] == k;
                        assert(t1[j] == k);
                    }
                    if k == w {
                        assert(t1[i as int] == k);
                    }
                }
                assert forall|s: StemId| has_stem(t1, s) <==> (has_stem(t0, s) || s == stem) by {
                    if has_stem(t1, s) && s != stem {
                        let j = choose|j: int| 0 <= j < t1.len() && stem_of(t1[j]) == s;
                        assert(t0[j] == t1[j]);
                    }
                    if has_stem(t0, s) {
                        let j = choose|j: int| 0 <= j < t0.len() && stem_of(t0[j]) == s;
                        assert(t1[j] == t0[j]);
                    }
                    if s == stem {
                        assert(t1[i as int] == w);
                    }
                }
                assert forall|k: Key| #[trigger]
                    self.resident().contains(k) <==> (r0.contains(k) && !t1.contains(k)) by {
                    assert(rh.contains(k) <==> (r0.contains(k) && !t0.contains(k)));
                    assert(t1.contains(k) <==> (t0.contains(k) || k == w));
                    if k == w {
                        assert(t1.contains(w));
                    }
                }
                assert forall|s: StemId| #[trigger]
                    self.stem_resident().contains(s) <==> (sr0.contains(s) && !has_stem(t1, s)) by {
                    assert(srh.contains(s) <==> (sr0.contains(s) && !has_stem(t0, s)));
                    assert(has_stem(t1, s) <==> (has_stem(t0, s) || s == stem));
                    if s == stem {
                        assert(has_stem(t1, s));
                    }
                }
                assert forall|k: Key| #[trigger] self.stamps().contains_key(k) implies self.stamps()[k]
                    == st0[k] by {
                    assert(sth.contains_key(k));
                    assert(self.stamps()[k] == sth[k]);
                }
                assert forall|s: StemId| #[trigger] self.stem_stamps().contains_key(s) implies self.stem_stamps()[s]
                    == sst0[s] by {
                    assert(ssth.contains_key(s));
                    assert(self.stem_stamps()[s] == ssth[s]);
                }
                assert forall|k: Key| !#[trigger] t1.contains(k) implies (self.stamps().contains_key(k)
                    <==> st0.contains_key(k)) by {
                    assert(!t0.contains(k));
                    assert(k != w);
                }
                assert forall|s: StemId| !#[trigger] has_stem(t1, s) implies (self.stem_stamps().contains_key(s)
                    <==> sst0.contains_key(s)) by {
                    assert(!has_stem(t0, s));
                    assert(s != stem);
                }
            }
            i = i + 1;
        }
        proof {
            assert(rec.writes@.take(rec.writes@.len() as int) =~= rec.writes@);
            assert(stems_of(rec.writes@).take(rec.writes@.len() as int) =~= stems_of(rec.writes@));
            assert(flags =~= Seq::new(rec.writes@.len(), |j: int| has_key(snap@, rec.writes@[j])));
            assert(removes_each(lstates, rec.writes@));
            assert forall|j: int| 0 <= j < rec.writes@.len() implies #[trigger] sstates[j].removed(
                sstates[j + 1],
                stems_of(rec.writes@)[j],
            ) by {
                assert(stems_of(rec.writes@)[j] == stem_of(rec.writes@[j]));
            }
            assert(removes_each(sstates, stems_of(rec.writes@)));
        }
        (inv, stem_inv)
    }
}


impl WitnessCache {
    /// Accesses every read key in order: a resident key hits; a miss admits
    /// the key, possibly pushing another out. Collects the block's distinct stems.
    fn read_block(
        &mut self,
        rec: &BlockRecord,
        snap: &OrderedMap<Key, ()>,
        accum: &mut BlockWitnessAccum,
        survival: &mut Vec<u64>,
        block_stems: &mut OrderedMap<StemId, ()>,
    ) -> (r: (u32, u32))
        requires
            old(self).wf(),
            snap.wf(),
            old(accum).wf(),
            old(block_stems).wf(),
            old(block_stems)@.len() == 0,
            rec.reads@.len() <= u32::MAX,
            rec.block_number + old(self).span() <= u64::MAX,
            all_within(old(survival)@, rec.block_number),
        ensures
            final(self).wf(),
            final(self).span() == old(self).span(),
            final(self).leaf_policy() == old(self).leaf_policy(),
            final(self).stem_policy_of() == old(self).stem_policy_of(),
            final(self).stem_resident() == old(self).stem_resident(),
            final(self).stem_stamps() == old(self).stem_stamps(),
            final(self).stem_state() == old(self).stem_state(),
            forall|k: Key| #[trigger]
                final(self).resident().contains(k) ==> old(self).resident().contains(k) || rec.reads@.contains(k),
            forall|k: Key| #[trigger]
                final(self).resident().contains(k) && rec.reads@.contains(k) ==> final(self).stamps().contains_key(k)
                    && final(self).stamps()[k] == rec.block_number,
            forall|k: Key| #[trigger]
                final(self).resident().contains(k) && !rec.reads@.contains(k) && old(self).stamps().contains_key(k)
                    ==> final(self).stamps().contains_key(k),
            rec.reads@.len() > 0 ==> final(self).resident().contains(rec.reads@.last()),
            r.0 + r.1 == rec.reads@.len(),
            final(accum).wf(),
            final(accum).stems() == old(accum).stems(),
            final(accum).leaves().len() <= old(accum).leaves().len() + rec.reads@.len(),
            final(survival)@.len() <= old(survival)@.len() + rec.reads@.len(),
            all_within(final(survival)@, rec.block_number),
            final(block_stems).wf(),
            forall|s: StemId| has_key(final(block_stems)@, s) <==> has_stem(rec.reads@, s),
            final(block_stems)@.len() <= rec.reads@.len(),
            forall|k: Key| #[trigger]
                final(self).stamps().contains_key(k) && !rec.reads@.contains(k) ==> old(
                    self,
                ).stamps().contains_key(k) && final(self).stamps()[k] == old(self).stamps()[k],
            old(self).settled_by(rec.block_number) ==> final(self).settled_by(rec.block_number),
            keys_of(final(block_stems)@) == stem_order(rec.reads@),
            exists|trace: Seq<Set<Key>>, states: Seq<CachePolicy<Key>>|
                #![trigger read_trace(trace, rec.reads@, old(self).leaf_policy().1), accesses_each(states, rec.reads@)]
                accesses_each(states, rec.reads@) && states[0] == old(self).leaf_state() && states.last()
                    == final(self).leaf_state() && (forall|j: int|
                    0 <= j < states.len() ==> #[trigger] trace[j] == states[j].resident())
                    && read_trace(trace, rec.reads@, old(self).leaf_policy().1) && trace[0] == old(
                    self,
                ).resident() && trace.last() == final(self).resident() && r.0 == hit_count(
                    trace,
                    rec.reads@,
                    rec.reads@.len() as int,
                ) && final(accum).leaves() == record_keys(
                    old(accum).leaves(),
                    rec.reads@,
                    Seq::new(
                        rec.reads@.len(),
                        |i: int| trace[i].contains(rec.reads@[i]) || has_key(snap@, rec.reads@[i]),
                    ),
                    false,
                ) && final(survival)@ == old(survival)@ + eviction_ages(
                    trace,
                    rec.reads@,
                    old(self).stamps(),
                    rec.block_number,
                ) && final(self).leaf_window_entries() == window_after_accesses(
                    old(self).leaf_window_entries(),
                    trace,
                    rec.reads@,
                    rec.block_number,
                ),
            final(self).stem_window_entries() == old(self).stem_window_entries(),
    {
        let now = rec.block_number;
        let ghost cap = self.leaf_policy().1;
        let ghost mut trace: Seq<Set<Key>> = seq![self.resident()];
        let ghost st0 = self.stamps();
        let ghost settled0 = self.settled_by(now);
        let ghost r0 = self.resident();
        let ghost l0 = accum.leaves().len();
        let ghost lv0 = accum.leaves();
        let ghost mut flags: Seq<bool> = Seq::empty();
        let ghost sv0 = survival@.len();
        let ghost svs0 = survival@;
        let ghost mut lstates: Seq<CachePolicy<Key>> = seq![self.policy];
        let mut hits: u32 = 0;
        let mut misses: u32 = 0;
        let mut i: usize = 0;
        while i < rec.reads.len()
            invariant
                self.wf(),
                self.span() == old(self).span(),
                self.leaf_policy() == old(self).leaf_policy(),
                self.stem_policy_of() == old(self).stem_policy_of(),
                self.stem_resident() == old(self).stem_resident(),
                self.stem_stamps() == old(self).stem_stamps(),
                self.stem_policy == old(self).stem_policy,
                0 <= i <= rec.reads@.len(),
                rec.reads@.len() <= u32::MAX,
                now == rec.block_number,
                now + self.span() <= u64::MAX,
                snap.wf(),
                forall|k: Key| #[trigger]
                    self.resident().contains(k) ==> r0.contains(k) || rec.reads@.take(i as int).contains(k),
                forall|k: Key| #[trigger]
                    self.resident().contains(k) && rec.reads@.take(i as int).contains(k)
                        ==> self.stamps().contains_key(k) && self.stamps()[k] == now,
                forall|k: Key| #[trigger]
                    self.resident().contains(k) && !rec.reads@.take(i as int).contains(k) && st0.contains_key(k)
                        ==> self.stamps().contains_key(k),
                i > 0 ==> self.resident().contains(rec.reads@[i - 1]),
                hits + misses == i,
                accum.wf(),
                accum.stems() == old(accum).stems(),
                accum.leaves().len() <= l0 + i,
                survival@.len() <= sv0 + i,
                all_within(survival@, now),
                block_stems.wf(),
                forall|s: StemId| has_key(block_stems@, s) <==> has_stem(rec.reads@.take(i as int), s),
                block_stems@.len() <= i,
                forall|k: Key| #[trigger]
                    self.stamps().contains_key(k) && !rec.reads@.take(i as int).contains(k)
                        ==> st0.contains_key(k) && self.stamps()[k] == st0[k],
                settled0 ==> self.settled_by(now),
                cap == self.leaf_policy().1,
                trace.len() == i + 1,
                trace[0] == r0,
                trace.last() == self.resident(),
                forall|j: int| 0 <= j < i ==> #[trigger] step_ok(trace[j], trace[j + 1], rec.reads@[j], cap),
                hits == hit_count(trace, rec.reads@, i as int),
                flags.len() == i,
                forall|j: int|
                    0 <= j < i ==> #[trigger] flags[j] == (trace[j].contains(rec.reads@[j]) || has_key(
                        snap@,
                        rec.reads@[j],
                    )),
                accum.leaves() == record_keys(lv0, rec.reads@.take(i as int), flags, false),
                keys_of(block_stems@) == stem_order(rec.reads@.take(i as int)),
                survival@ == svs0 + eviction_ages(trace, rec.reads@.take(i as int), st0, now),
                lstates.len() == i + 1,
                lstates[0] == old(self).policy,
                lstates.last() == self.policy,
                forall|j: int| 0 <= j < i ==> #[trigger] lstates[j].accessed(lstates[j + 1], rec.reads@[j]),
                forall|j: int| 0 <= j <= i ==> #[trigger] trace[j] == lstates[j].resident(),
                self.window@ == window_after_accesses(old(self).window@, trace, rec.reads@.take(i as int), now),
                self.stem_window == old(self).stem_window,
            decreases rec.reads@.len() - i,
        {
            let r = rec.reads[i];
            let ghost rh = self.resident();
            let ghost sh = self.stamps();
            let ghost bh = block_stems@;
            let ghost svh = survival@;
            let ghost ls0 = lstates;
            let ghost wv0 = self.window@;
            let (hit, aged) = access_tracked(&mut self.policy, &mut self.window, r, now);
            let ghost tr0 = trace;
            proof {
                trace = trace.push(self.resident());
                lstates = lstates.push(self.policy);
                assert(lstates[i as int] == ls0.last());
                assert forall|j: int| 0 <= j < i + 1 implies #[trigger] lstates[j].accessed(lstates[j + 1], rec.reads@[j]) by {
                    if j < i {
                        assert(lstates[j] == ls0[j]);
                        assert(lstates[j + 1] == ls0[j + 1]);
                    }
                }
                assert forall|j: int| 0 <= j <= i + 1 implies #[trigger] trace[j] == lstates[j].resident() by {
                    if j <= i {
                        assert(trace[j] == tr0[j]);
                        assert(lstates[j] == ls0[j]);
                    }
                }
                lemma_eviction_ages_prefix(tr0, trace, rec.reads@.take(i as int), st0, now);
                lemma_window_after_prefix(old(self).window@, tr0, trace, rec.reads@.take(i as int), now);
                assert(trace[i as int] == rh);
                assert(step_ok(trace[i as int], trace[i + 1], rec.reads@[i as int], cap));
                assert forall|j: int| 0 <= j < i + 1 implies #[trigger] step_ok(
                    trace[j],
                    trace[j + 1],
                    rec.reads@[j],
                    cap,
                ) by {
                    if j < i {
                        assert(trace[j] == tr0[j]);
                        assert(trace[j + 1] == tr0[j + 1]);
                    }
                }
                assert(hit_count(trace, rec.reads@, i as int) == hit_count(tr0, rec.reads@, i as int)) by {
                    lemma_hit_count_prefix(tr0, trace, rec.reads@, i as int);
                }
            }
            let ghost fh = flags;
            let held = hit || snap.contains(&r);
            accum.record_leaf(&r, held, false);
            proof {
                flags = flags.push(held);
            }
            match aged {
                Some(a) => {
                    survival.push(a);
                },
                None => {},
            }
            if hit {
                hits = hits + 1;
            } else {
                misses = misses + 1;
            }
            let (stem, _) = key_to_leaf(&r);
            if !block_stems.contains(&stem) {
                block_stems.push_back(stem, ());
                proof {
                    crate::ordered::lemma_push_unique(bh, (stem, ()));
                }
            }
            proof {
                let t0 = rec.reads@.take(i as int);
                let t1 = rec.reads@.take(i + 1);
                assert(t1 =~= t0.push(r));
                assert(t1.drop_last() =~= t0);
                assert(flags.drop_last() =~= fh);
                assert(accum.leaves() == record_keys(lv0, t1, flags, false));
                assert(trace[i as int] == rh);
                assert(t1.last() == r);
                assert(self.window@ == window_after_accesses(old(self).window@, trace, t1, now));
                if rh.subset_of(trace[i + 1]) {
                    assert(aged is None);
                    assert(survival@ =~= svs0 + eviction_ages(trace, t1, st0, now));
                } else {
                    let v = choose|v: Key| rh.contains(v) && !trace[i + 1].contains(v);
                    assert(aged == Some(age(now, stamp_or(sh, v, now))));
                    if t0.contains(v) {
                        assert(sh.contains_key(v) && sh[v] == now);
                    } else {
                        assert(sh.contains_key(v) <==> st0.contains_key(v));
                    }
                    assert(survival@ =~= svs0 + eviction_ages(trace, t1, st0, now));
                }
                assert(stem == stem_of(r));
                assert(has_key(bh, stem) <==> keys_of(bh).contains(stem)) by {
                    if has_key(bh, stem) {
                        let q = choose|q: int| 0 <= q < bh.len() && bh[q].0 == stem;
                        assert(keys_of(bh)[q] == stem);
                    }
                    if keys_of(bh).contains(stem) {
                        let q = choose|q: int| 0 <= q < keys_of(bh).len() && keys_of(bh)[q] == stem;
                        assert(bh[q].0 == stem);
                    }
                }
                assert(keys_of(block_stems@) =~= stem_order(t1));
                assert forall|k: Key| t1.contains(k) <==> (t0.contains(k) || k == r) by {
                    if t1.contains(k) && k != r {
                        let j = choose|j: int| 0 <= j < t1.len() && t1[j] == k;
                        assert(t0[j] == k);
                    }
                    if t0.contains(k) {
                        let j = choose|j: int| 0 <= j < t0.len() && t0[j] == k;
                        assert(t1[j] == k);
                    }
                    if k == r {
                        assert(t1[i as int] == k);
                    }
                }
                assert forall|s: StemId| has_stem(t1, s) <==> (has_stem(t0, s) || s == stem) by {
                    if has_stem(t1, s) && s != stem {
                        let j = choose|j: int| 0 <= j < t1.len() && stem_of(t1[j]) == s;
                        assert(t0[j] == t1[j]);
                    }
                    if has_stem(t0, s) {
                        let j = choose|j: int| 0 <= j < t0.len() && stem_of(t0[j]) == s;
                        assert(t1[j] == t0[j]);
                    }
                    if s == stem {
                        assert(t1[i as int] == r);
                    }
                }
                assert forall|k: Key| #[trigger]
                    self.resident().contains(k) implies r0.contains(k) || t1.contains(k) by {
                    if k != r {
                        assert(rh.contains(k));
                        assert(r0.contains(k) || t0.contains(k));
                    }
                }
                assert forall|k: Key| #[trigger]
                    self.resident().contains(k) && t1.contains(k) implies self.stamps().contains_key(k)
                    && self.stamps()[k] == now by {
                    if k != r {
                        assert(rh.contains(k));
                        assert(t0.contains(k));
                        assert(sh.contains_key(k));
                        assert(self.stamps().contains_key(k));
                    }
                }
                assert forall|k: Key| #[trigger]
                    self.resident().contains(k) && !t1.contains(k) && st0.contains_key(k) implies self.stamps().contains_key(
                    k,
                ) by {
                    assert(k != r);
                    assert(rh.contains(k));
                    assert(!t0.contains(k));
                    assert(sh.contains_key(k));
                }
                assert forall|s: StemId| has_key(block_stems@, s) <==> has_stem(t1, s) by {
                    assert(has_key(bh, s) <==> has_stem(t0, s));
                }
                assert forall|k: Key| #[trigger]
                    self.stamps().contains_key(k) && !t1.contains(k) implies st0.contains_key(k)
                    && self.stamps()[k] == st0[k] by {
                    assert(k != r);
                    assert(self.resident().contains(k));
                    assert(rh.contains(k));
                    assert(sh.contains_key(k));
                    assert(!t0.contains(k));
                }
                assert(rec.reads@[i as int] == r);
            }
            i = i + 1;
        }
        proof {
            assert(rec.reads@.take(rec.reads@.len() as int) =~= rec.reads@);
            assert(flags =~= Seq::new(
                rec.reads@.len(),
                |j: int| trace[j].contains(rec.reads@[j]) || has_key(snap@, rec.reads@[j]),
            ));
            if rec.reads@.len() > 0 {
                assert(rec.reads@.last() == rec.reads@[rec.reads@.len() - 1]);
            }
            assert(read_trace(trace, rec.reads@, cap));
            assert(accesses_each(lstates, rec.reads@));
        }
        (hits, misses)
    }

    /// Accesses each of the block's stems once in the extension-node cache.
    fn touch_stems(
        &mut self,
        now: u64,
        block_stems: &OrderedMap<StemId, ()>,
        accum: &mut BlockWitnessAccum,
        stem_survival: &mut Vec<u64>,
    )
        requires
            old(self).wf(),
            block_stems.wf(),
            old(accum).wf(),
            old(accum).stems().len() == 0,
            now + old(self).span() <= u64::MAX,
            all_within(old(stem_survival)@, now),
        ensures
            final(self).wf(),
            final(self).span() == old(self).span(),
            final(self).leaf_policy() == old(self).leaf_policy(),
            final(self).stem_policy_of() == old(self).stem_policy_of(),
            final(self).resident() == old(self).resident(),
            final(self).stamps() == old(self).stamps(),
            final(self).leaf_state() == old(self).leaf_state(),
            forall|s: StemId| #[trigger]
                final(self).stem_resident().contains(s) ==> old(self).stem_resident().contains(s)
                    || has_key(block_stems@, s),
            forall|s: StemId| #[trigger]
                final(self).stem_resident().contains(s) && has_key(block_stems@, s)
                    ==> final(self).stem_stamps().contains_key(s) && final(self).stem_stamps()[s] == now,
            forall|s: StemId| #[trigger]
                final(self).stem_resident().contains(s) && !has_key(block_stems@, s) && old(
                    self,
                ).stem_stamps().contains_key(s) ==> final(self).stem_stamps().contains_key(s),
            final(accum).wf(),
            final(accum).leaves() == old(accum).leaves(),
            final(stem_survival)@.len() <= old(stem_survival)@.len() + block_stems@.len(),
            all_within(final(stem_survival)@, now),
            forall|s: StemId| #[trigger]
                final(self).stem_stamps().contains_key(s) && !has_key(block_stems@, s) ==> old(
                    self,
                ).stem_stamps().contains_key(s) && final(self).stem_stamps()[s] == old(self).stem_stamps()[s],
            old(self).settled_by(now) ==> final(self).settled_by(now),
            exists|trace: Seq<Set<StemId>>, states: Seq<CachePolicy<StemId>>|
                #![trigger read_trace(trace, keys_of(block_stems@), old(self).stem_policy_of().1), accesses_each(states, keys_of(block_stems@))]
                accesses_each(states, keys_of(block_stems@)) && states[0] == old(self).stem_state()
                    && states.last() == final(self).stem_state() && (forall|j: int|
                    0 <= j < states.len() ==> #[trigger] trace[j] == states[j].resident())
                    && read_trace(trace, keys_of(block_stems@), old(self).stem_policy_of().1) && trace[0]
                    == old(self).stem_resident() && trace.last() == final(self).stem_resident()
                    && final(accum).stems() == Seq::new(
                    block_stems@.len(),
                    |q: int| (block_stems@[q].0, trace[q].contains(block_stems@[q].0)),
                ) && final(stem_survival)@ == old(stem_survival)@ + eviction_ages(
                    trace,
                    keys_of(block_stems@),
                    old(self).stem_stamps(),
                    now,
                ) && final(self).stem_window_entries() == window_after_accesses(
                    old(self).stem_window_entries(),
                    trace,
                    keys_of(block_stems@),
                    now,
                ),
            final(self).leaf_window_entries() == old(self).leaf_window_entries(),
    {
        let ids = block_stems.entries();
        let ghost cap = self.stem_policy_of().1;
        let ghost mut trace: Seq<Set<StemId>> = seq![self.stem_resident()];
        let ghost mut sstates: Seq<CachePolicy<StemId>> = seq![self.stem_policy];
        let ghost sst0 = self.stem_stamps();
        let ghost settled0 = self.settled_by(now);
        let ghost sr0 = self.stem_resident();
        let ghost ss0 = stem_survival@.len();
        let ghost sss0 = stem_survival@;
        let mut j: usize = 0;
        while j < ids.len()
            invariant
                self.wf(),
                self.span() == old(self).span(),
                self.leaf_policy() == old(self).leaf_policy(),
                self.stem_policy_of() == old(self).stem_policy_of(),
                self.resident() == old(self).resident(),
                self.stamps() == old(self).stamps(),
                self.policy == old(self).policy,
                ids@ == block_stems@,
                0 <= j <= ids@.len(),
                now + self.span() <= u64::MAX,
                forall|s: StemId| #[trigger]
                    self.stem_resident().contains(s) ==> sr0.contains(s) || has_key(ids@.take(j as int), s),
                forall|s: StemId| #[trigger]
                    self.stem_resident().contains(s) && has_key(ids@.take(j as int), s)
                        ==> self.stem_stamps().contains_key(s) && self.stem_stamps()[s] == now,
                forall|s: StemId| #[trigger]
                    self.stem_resident().contains(s) && !has_key(ids@.take(j as int), s) && sst0.contains_key(s)
                        ==> self.stem_stamps().contains_key(s),
                accum.wf(),
                accum.leaves() == old(accum).leaves(),
                stem_survival@.len() <= ss0 + j,
                all_within(stem_survival@, now),
                forall|s: StemId| #[trigger]
                    self.stem_stamps().contains_key(s) && !has_key(ids@.take(j as int), s)
                        ==> sst0.contains_key(s) && self.stem_stamps()[s] == sst0[s],
                settled0 ==> self.settled_by(now),
                cap == self.stem_policy_of().1,
                trace.len() == j + 1,
                trace[0] == sr0,
                trace.last() == self.stem_resident(),
                forall|q: int| 0 <= q < j ==> #[trigger] step_ok(trace[q], trace[q + 1], keys_of(ids@)[q], cap),
                unique_keys(ids@),
                accum.stems() == Seq::new(j as nat, |q: int| (ids@[q].0, trace[q].contains(ids@[q].0))),
                stem_survival@ == sss0 + eviction_ages(trace, keys_of(ids@).take(j as int), sst0, now),
                sstates.len() == j + 1,
                sstates[0] == old(self).stem_policy,
                sstates.last() == self.stem_policy,
                forall|q: int| 0 <= q < j ==> #[trigger] sstates[q].accessed(sstates[q + 1], keys_of(ids@)[q]),
                forall|q: int| 0 <= q <= j ==> #[trigger] trace[q] == sstates[q].resident(),
                self.stem_window@ == window_after_accesses(
                    old(self).stem_window@,
                    trace,
                    keys_of(ids@).take(j as int),
                    now,
                ),
                self.window == old(self).window,
            decreases ids@.len() - j,
        {
            let e = ids[j];
            let id = e.0;
            let ghost rh = self.stem_resident();
            let ghost sh = self.stem_stamps();
            let ghost sth = accum.stems();
            let ghost ss0 = sstates;
            let (hit, aged) = access_tracked(&mut self.stem_policy, &mut self.stem_window, id, now);
            let ghost tr0 = trace;
            proof {
                trace = trace.push(self.stem_resident());
                sstates = sstates.push(self.stem_policy);
                assert(sstates[j as int] == ss0.last());
                assert forall|q: int| 0 <= q < j + 1 implies #[trigger] sstates[q].accessed(
                    sstates[q + 1],
                    keys_of(ids@)[q],
                ) by {
                    if q < j {
                        assert(sstates[q] == ss0[q]);
                        assert(sstates[q + 1] == ss0[q + 1]);
                    }
                }
                assert forall|q: int| 0 <= q <= j + 1 implies #[trigger] trace[q] == sstates[q].resident() by {
                    if q <= j {
                        assert(trace[q] == tr0[q]);
                        assert(sstates[q] == ss0[q]);
                    }
                }
                lemma_eviction_ages_prefix(tr0, trace, keys_of(ids@).take(j as int), sst0, now);
                lemma_window_after_prefix(old(self).stem_window@, tr0, trace, keys_of(ids@).take(j as int), now);
                assert(trace[j as int] == rh);
                assert(keys_of(ids@)[j as int] == id);
                assert forall|q: int| 0 <= q < j + 1 implies #[trigger] step_ok(
                    trace[q],
                    trace[q + 1],
                    keys_of(ids@)[q],
                    cap,
                ) by {
                    if q < j {
                        assert(trace[q] == tr0[q]);
                        assert(trace[q + 1] == tr0[q + 1]);
                    }
                }
                assert(!has_key(sth, id)) by {
                    if has_key(sth, id) {
                        let q = choose|q: int| 0 <= q < sth.len() && sth[q].0 == id;
                        assert(ids@[q].0 == id);
                    }
                }
            }
            accum.record_stem(id, hit);
            proof {
                assert(accum.stems() =~= Seq::new(
                    (j + 1) as nat,
                    |q: int| (ids@[q].0, trace[q].contains(ids@[q].0)),
                ));
            }
            match aged {
                Some(a) => {
                    stem_survival.push(a);
                },
                None => {},
            }
            proof {
                let t0 = ids@.take(j as int);
                let t1 = ids@.take(j + 1);
                assert(t1 =~= t0.push(e));
                let k0 = keys_of(ids@).take(j as int);
                let k1 = keys_of(ids@).take(j + 1);
                assert(k1.drop_last() =~= k0);
                assert(k1.last() == id);
                assert(trace[j as int] == rh);
                assert(self.stem_window@ == window_after_accesses(old(self).stem_window@, trace, k1, now));
                if rh.subset_of(trace[j + 1]) {
                    assert(aged is None);
                    assert(stem_survival@ =~= sss0 + eviction_ages(trace, k1, sst0, now));
                } else {
                    let v = choose|v: StemId| rh.contains(v) && !trace[j + 1].contains(v);
                    assert(aged == Some(age(now, stamp_or(sh, v, now))));
                    if k0.contains(v) {
                        let q = choose|q: int| 0 <= q < k0.len() && k0[q] == v;
                        assert(t0[q].0 == v);
                        assert(has_key(t0, v));
                        assert(sh.contains_key(v) && sh[v] == now);
                    } else {
                        assert(!has_key(t0, v)) by {
                            if has_key(t0, v) {
                                let q = choose|q: int| 0 <= q < t0.len() && t0[q].0 == v;
                                assert(k0[q] == v);
                            }
                        }
                        assert(sh.contains_key(v) <==> sst0.contains_key(v));
                    }
                    assert(stem_survival@ =~= sss0 + eviction_ages(trace, k1, sst0, now));
                }
                assert forall|s: StemId| has_key(t1, s) <==> (has_key(t0, s) || s == id) by {
                    if has_key(t1, s) && s != id {
                        let q = choose|q: int| 0 <= q < t1.len() && t1[q].0 == s;
                        assert(t0[q] == t1[q]);
                    }
                    if has_key(t0, s) {
                        let q = choose|q: int| 0 <= q < t0.len() && t0[q].0 == s;
                        assert(t1[q] == t0[q]);
                    }
                    if s == id {
                        assert(t1[j as int].0 == s);
                    }
                }
                assert forall|s: StemId| #[trigger]
                    self.stem_resident().contains(s) implies sr0.contains(s) || has_key(t1, s) by {
                    if s != id {
                        assert(rh.contains(s));
                        assert(sr0.contains(s) || has_key(t0, s));
                    }
                }
                assert forall|s: StemId| #[trigger]
                    self.stem_stamps().contains_key(s) && !has_key(t1, s) implies sst0.contains_key(s)
                    && self.stem_stamps()[s] == sst0[s] by {
                    assert(s != id);
                    assert(self.stem_resident().contains(s));
                    assert(rh.contains(s));
                    assert(sh.contains_key(s));
                    assert(!has_key(t0, s));
                }
                assert forall|s: StemId| #[trigger]
                    self.stem_resident().contains(s) && has_key(t1, s) implies self.stem_stamps().contains_key(s)
                    && self.stem_stamps()[s] == now by {
                    if s != id {
                        assert(rh.contains(s));
                        assert(has_key(t0, s));
                        assert(sh.contains_key(s));
                        assert(self.stem_stamps().contains_key(s));
                    }
                }
                assert forall|s: StemId| #[trigger]
                    self.stem_resident().contains(s) && !has_key(t1, s) && sst0.contains_key(s)
                        implies self.stem_stamps().contains_key(s) by {
                    assert(s != id);
                    assert(rh.contains(s));
                    assert(!has_key(t0, s));
                    assert(sh.contains_key(s));
                }
            }
            j = j + 1;
        }
        proof {
            assert(ids@.take(ids@.len() as int) =~= ids@);
            assert(keys_of(ids@).take(ids@.len() as int) =~= keys_of(ids@));
            assert(read_trace(trace, keys_of(block_stems@), cap));
            assert(accesses_each(sstates, keys_of(block_stems@)));
        }
    }
}


impl WitnessCache {
    /// Runs one block through both caches: expire what the window has aged
    /// out, invalidate every written key, access every read key, then access
    /// each stem the reads touched once. Returns what the block contributes to
    /// a metrics sink.
    pub fn advance(&mut self, rec: &BlockRecord) -> (ev: BlockEvents)
        requires
            old(self).wf(),
            block_fits(*old(self), *rec),
        ensures
            advanced(*old(self), *final(self), *rec, ev),
    {
        let now = rec.block_number;
        proof {
            self.lemma_windows_match();
        }
        let ghost r0 = self.resident();
        let ghost sr0 = self.stem_resident();
        let mut survival: Vec<u64> = Vec::new();
        let mut stem_survival: Vec<u64> = Vec::new();
        let mut invalidated: Vec<Address> = Vec::new();
        expire_window(&mut self.policy, &mut self.window, now, &mut survival);
        expire_window(&mut self.stem_policy, &mut self.stem_window, now, &mut stem_survival);
        let ghost r1 = self.resident();
        let ghost sr1 = self.stem_resident();
        let ghost sa = self.stamps();
        let ghost ssa = self.stem_stamps();
        let ghost sv1 = survival@;
        let ghost ssv1 = stem_survival@;
        let ghost c1 = *self;
        let ghost (dropped, leaf_expiry) = choose|d: Seq<(Key, u64)>, st: Seq<CachePolicy<Key>>|
            #![trigger lists_dropped(r0, old(self).stamps(), r1, d), removes_each(st, keys_of(d))]
            lists_dropped(r0, old(self).stamps(), r1, d) && sv1 == Seq::<u64>::empty() + ages_of(d, now)
                && removes_each(st, keys_of(d)) && st[0] == old(self).policy && st.last() == c1.policy
                && d == old(self).window@.take(d.len() as int) && expired_prefix(
                old(self).window@,
                old(self).window.span(),
                now,
                d.len(),
            ) && c1.window@ == old(self).window@.skip(d.len() as int);
        let ghost (stem_dropped, stem_expiry) = choose|d: Seq<(StemId, u64)>, st: Seq<CachePolicy<StemId>>|
            #![trigger lists_dropped(sr0, old(self).stem_stamps(), sr1, d), removes_each(st, keys_of(d))]
            lists_dropped(sr0, old(self).stem_stamps(), sr1, d) && ssv1 == Seq::<u64>::empty() + ages_of(d, now)
                && removes_each(st, keys_of(d)) && st[0] == old(self).stem_policy && st.last()
                == c1.stem_policy && d == old(self).stem_window@.take(d.len() as int) && expired_prefix(
                old(self).stem_window@,
                old(self).stem_window.span(),
                now,
                d.len(),
            ) && c1.stem_window@ == old(self).stem_window@.skip(d.len() as int);
        let ghost settled = old(self).settled_by(now);
        let snap = self.written_resident(&rec.writes);
        let mut accum = BlockWitnessAccum::new();
        let (invalidations, stem_invalidations) = self.invalidate(
            rec,
            &snap,
            &mut accum,
            &mut survival,
            &mut stem_survival,
            &mut invalidated,
        );
        let ghost r2 = self.resident();
        let ghost sr2 = self.stem_resident();
        let ghost leaf_writes = choose|st: Seq<CachePolicy<Key>>|
            #[trigger] removes_each(st, rec.writes@) && st[0] == c1.leaf_state() && st.last()
                == self.leaf_state();
        let ghost stem_writes = choose|st: Seq<CachePolicy<StemId>>|
            #[trigger] removes_each(st, stems_of(rec.writes@)) && st[0] == c1.stem_state() && st.last()
                == self.stem_state();
        let mut block_stems: OrderedMap<StemId, ()> = OrderedMap::new();
        let ghost c2 = *self;
        let ghost a2 = accum.leaves();
        let ghost sv2 = survival@;
        let ghost ssv2 = stem_survival@;
        let (hits, misses) = self.read_block(rec, &snap, &mut accum, &mut survival, &mut block_stems);
        let ghost r3 = self.resident();
        let ghost (trace, leaf_reads) = choose|trace: Seq<Set<Key>>, states: Seq<CachePolicy<Key>>|
            #![trigger read_trace(trace, rec.reads@, c2.leaf_policy().1), accesses_each(states, rec.reads@)]
            accesses_each(states, rec.reads@) && states[0] == c2.leaf_state() && states.last()
                == self.leaf_state() && (forall|j: int|
                0 <= j < states.len() ==> #[trigger] trace[j] == states[j].resident())
                && read_trace(trace, rec.reads@, c2.leaf_policy().1) && trace[0] == c2.resident()
                && trace.last() == r3 && hits == hit_count(trace, rec.reads@, rec.reads@.len() as int)
                && accum.leaves() == record_keys(
                a2,
                rec.reads@,
                Seq::new(
                    rec.reads@.len(),
                    |i: int| trace[i].contains(rec.reads@[i]) || has_key(snap@, rec.reads@[i]),
                ),
                false,
            ) && survival@ == sv2 + eviction_ages(trace, rec.reads@, c2.stamps(), now)
                && self.leaf_window_entries() == window_after_accesses(
                c2.leaf_window_entries(),
                trace,
                rec.reads@,
                now,
            );
        let ghost c3 = *self;
        self.touch_stems(now, &block_stems, &mut accum, &mut stem_survival);
        let ghost (stem_trace, stem_reads) = choose|t: Seq<Set<StemId>>, states: Seq<CachePolicy<StemId>>|
            #![trigger read_trace(t, keys_of(block_stems@), c3.stem_policy_of().1), accesses_each(states, keys_of(block_stems@))]
            accesses_each(states, keys_of(block_stems@)) && states[0] == c3.stem_state() && states.last()
                == self.stem_state() && (forall|j: int|
                0 <= j < states.len() ==> #[trigger] t[j] == states[j].resident())
                && read_trace(t, keys_of(block_stems@), c3.stem_policy_of().1) && t[0]
                == c3.stem_resident() && t.last() == self.stem_resident() && accum.stems() == Seq::new(
                block_stems@.len(),
                |q: int| (block_stems@[q].0, t[q].contains(block_stems@[q].0)),
            ) && stem_survival@ == ssv2 + eviction_ages(t, keys_of(block_stems@), c3.stem_stamps(), now)
                && self.stem_window_entries() == window_after_accesses(
                c3.stem_window_entries(),
                t,
                keys_of(block_stems@),
                now,
            );
        let ghost n_leaves = accum.leaves().len();
        proof {
            assert(IPA_FLOOR_BYTES + 193 * n_leaves <= u64::MAX) by (nonlinear_arith)
                requires
                    n_leaves <= rec.reads@.len() + rec.writes@.len(),
                    IPA_FLOOR_BYTES + 193 * (rec.reads@.len() + rec.writes@.len()) <= u64::MAX,
            ;
            lemma_leaf_totals(accum.leaves());
            lemma_groups_shape(accum.leaves());
        }
        let wb = seal(&accum);
        proof {
            let g = crate::witness::stem_groups(accum.leaves());
            assert(wb.naive <= IPA_FLOOR_BYTES + 193 * n_leaves) by (nonlinear_arith)
                requires
                    wb.naive == IPA_FLOOR_BYTES + crate::witness::leaves_naive_total(accum.leaves()) + 128
                        * g.len(),
                    crate::witness::leaves_naive_total(accum.leaves()) <= 65 * n_leaves,
                    g.len() <= n_leaves,
            ;
            assert(wb.naive <= IPA_FLOOR_BYTES + 193 * (rec.reads@.len() + rec.writes@.len())) by (nonlinear_arith)
                requires
                    wb.naive <= IPA_FLOOR_BYTES + 193 * n_leaves,
                    n_leaves <= rec.reads@.len() + rec.writes@.len(),
            ;
            self.lemma_windows_match();
            // Residency after the block: nothing new unless read.
            assert(self.resident().subset_of(r0.union(rec.reads@.to_set())));
            vstd::set_lib::lemma_len_union(r0, rec.reads@.to_set());
            rec.reads@.lemma_cardinality_of_set();
            vstd::set_lib::lemma_len_subset(self.resident(), r0.union(rec.reads@.to_set()));
            lemma_key_set_len(block_stems@);
            assert(self.stem_resident().subset_of(sr0.union(key_set(block_stems@))));
            vstd::set_lib::lemma_len_union(sr0, key_set(block_stems@));
            vstd::set_lib::lemma_len_subset(self.stem_resident(), sr0.union(key_set(block_stems@)));
        }
        let occ = self.occupancy() as u64;
        let stem_occ = self.stem_occupancy() as u64;
        let fp = self.footprint();
        proof {
            assert(footprint_bytes(fp) <= u64::MAX) by (nonlinear_arith)
                requires
                    fp.leaf_entries <= r0.len() + rec.reads@.len(),
                    fp.stem_entries <= sr0.len() + rec.reads@.len(),
                    LEAF_ENTRY_BYTES * (r0.len() + rec.reads@.len()) + STEM_ENTRY_BYTES * (sr0.len()
                        + rec.reads@.len()) <= u64::MAX,
                    footprint_bytes(fp) == fp.leaf_entries * LEAF_ENTRY_BYTES + fp.stem_entries
                        * STEM_ENTRY_BYTES,
            ;
            assert forall|s: StemId| #[trigger]
                self.stem_resident().contains(s) && has_stem(rec.reads@, s) implies self.stem_stamps().contains_key(s)
                && self.stem_stamps()[s] == now by {
                assert(has_key(block_stems@, s));
            }
            assert forall|k: Key| #[trigger]
                self.resident().contains(k) && !rec.reads@.contains(k) implies (self.stamps().contains_key(k)
                <==> old(self).stamps().contains_key(k)) && (self.stamps().contains_key(k) ==> self.stamps()[k]
                == old(self).stamps()[k]) by {
                assert(c2.resident().contains(k));
                assert(r1.contains(k));
                assert(!rec.writes@.contains(k));
                assert(c2.stamps().contains_key(k) <==> sa.contains_key(k));
                assert(sa.contains_key(k) <==> old(self).stamps().contains_key(k));
            }
            if settled {
                assert forall|k: Key| #[trigger]
                    self.stamps().contains_key(k) && !rec.reads@.contains(k) implies !expired_at(
                    self.stamps()[k],
                    self.span(),
                    now,
                ) by {
                    assert(self.resident().contains(k));
                    assert(c2.resident().contains(k));
                    assert(!rec.writes@.contains(k));
                    assert(c2.stamps().contains_key(k));
                    assert(sa.contains_key(k));
                }
                assert forall|s: StemId| #[trigger]
                    self.stem_stamps().contains_key(s) && !has_stem(rec.reads@, s) implies !expired_at(
                    self.stem_stamps()[s],
                    self.span(),
                    now,
                ) by {
                    assert(!has_key(block_stems@, s));
                    assert(self.stem_resident().contains(s));
                    assert(c3.stem_stamps().contains_key(s));
                    assert(c2.stem_resident().contains(s));
                    assert(!has_stem(rec.writes@, s));
                    assert(ssa.contains_key(s));
                }
            }
        }
        let ev = BlockEvents {
            survival,
            stem_survival,
            invalidated,
            outcome: BlockOutcome {
                block_number: now,
                reads: rec.reads.len() as u32,
                hits,
                misses,
                invalidations,
                stem_invalidations,
                occupancy: occ,
                stem_occupancy: stem_occ,
                witness: wb,
                footprint: fp,
            },
        };
        proof {
            let writes = rec.writes@;
            let reads = rec.reads@;
            // What expiry kept.
            assert forall|k: Key| #[trigger]
                r0.contains(k) && !(old(self).stamps().contains_key(k) && expired_at(
                    old(self).stamps()[k],
                    old(self).span(),
                    now,
                )) implies r1.contains(k) by {}
            assert forall|s: StemId| #[trigger]
                sr0.contains(s) && !(old(self).stem_stamps().contains_key(s) && expired_at(
                    old(self).stem_stamps()[s],
                    old(self).span(),
                    now,
                )) implies sr1.contains(s) by {}
            if settled {
                assert forall|k: Key| #[trigger]
                    r1.contains(k) && old(self).stamps().contains_key(k) implies !expired_at(
                    old(self).stamps()[k],
                    old(self).span(),
                    now,
                ) by {
                    assert(sa.contains_key(k));
                }
                assert forall|s: StemId| #[trigger]
                    sr1.contains(s) && old(self).stem_stamps().contains_key(s) implies !expired_at(
                    old(self).stem_stamps()[s],
                    old(self).span(),
                    now,
                ) by {
                    assert(ssa.contains_key(s));
                }
            }
            assert(expiry_keeps(r0, old(self).stamps(), old(self).span(), now, settled, r1));
            assert(expiry_keeps(sr0, old(self).stem_stamps(), old(self).span(), now, settled, sr1));
            // What invalidation left for the reads.
            assert(trace[0] =~= r1.filter(|k: Key| !writes.contains(k)));
            assert(stem_trace[0] =~= sr1.filter(|s: StemId| !has_stem(writes, s)));
            assert(invalidated@ =~= invalidated_addrs(writes, r1));
            // The witness records.
            assert forall|i: int| 0 <= i < writes.len() implies #[trigger] has_key(snap@, writes[i])
                == r1.contains(writes[i]) by {
                assert(writes.contains(writes[i]));
            }
            assert(Seq::new(writes.len(), |i: int| has_key(snap@, writes[i])) =~= Seq::new(
                writes.len(),
                |i: int| r1.contains(writes[i]),
            ));
            assert(Seq::new(
                reads.len(),
                |i: int| trace[i].contains(reads[i]) || has_key(snap@, reads[i]),
            ) =~= Seq::new(
                reads.len(),
                |i: int| trace[i].contains(reads[i]) || (r1.contains(reads[i]) && writes.contains(reads[i])),
            ));
            assert(accum.leaves() == block_leaves(*rec, r1, trace));
            assert(accum.stems() =~= block_stem_records(reads, stem_trace));
            // The survival ages, stamped as before the block.
            lemma_invalidation_ages_agree(
                writes,
                r1,
                sa,
                old(self).stamps(),
                sr1,
                ssa,
                old(self).stem_stamps(),
                now,
            );
            assert forall|i: int, v: Key|
                0 <= i < reads.len() && #[trigger] trace[i].contains(v) && !#[trigger] reads.take(i).contains(v)
                    implies stamp_or(c2.stamps(), v, now) == stamp_or(old(self).stamps(), v, now) by {
                lemma_trace_from_start(trace, reads, c2.leaf_policy().1, i);
                assert(r1.contains(v));
                assert(!writes.contains(v));
                assert(c2.stamps().contains_key(v) <==> sa.contains_key(v));
                assert(sa.contains_key(v) <==> old(self).stamps().contains_key(v));
            }
            lemma_eviction_ages_agree(trace, reads, c2.stamps(), old(self).stamps(), now);
            let ids = keys_of(block_stems@);
            assert forall|i: int, v: StemId|
                0 <= i < ids.len() && #[trigger] stem_trace[i].contains(v) && !#[trigger] ids.take(i).contains(v)
                    implies stamp_or(c3.stem_stamps(), v, now) == stamp_or(old(self).stem_stamps(), v, now) by {
                lemma_trace_from_start(stem_trace, ids, c3.stem_policy_of().1, i);
                assert(sr1.contains(v));
                assert(!has_stem(writes, v));
                assert(c2.stem_stamps().contains_key(v) <==> ssa.contains_key(v));
                assert(ssa.contains_key(v) <==> old(self).stem_stamps().contains_key(v));
            }
            lemma_eviction_ages_agree(stem_trace, ids, c3.stem_stamps(), old(self).stem_stamps(), now);
            assert(survival@ =~= ages_of(dropped, now) + invalidation_ages(writes, r1, old(self).stamps(), now)
                + eviction_ages(trace, reads, old(self).stamps(), now));
            assert(stem_survival@ =~= ages_of(stem_dropped, now) + stem_invalidation_ages(
                writes,
                sr1,
                old(self).stem_stamps(),
                now,
            ) + eviction_ages(stem_trace, stem_order(reads), old(self).stem_stamps(), now));
            let run = BlockRun {
                dropped,
                kept: r1,
                trace,
                leaf_expiry,
                leaf_writes,
                leaf_reads,
                stem_dropped,
                stem_kept: sr1,
                stem_trace,
                stem_expiry,
                stem_writes,
                stem_reads,
            };
            assert(policy_phases(
                old(self).leaf_state(),
                self.leaf_state(),
                keys_of(dropped),
                writes,
                reads,
                r1,
                trace,
                leaf_expiry,
                leaf_writes,
                leaf_reads,
            ));
            assert(policy_phases(
                old(self).stem_state(),
                self.stem_state(),
                keys_of(stem_dropped),
                stems_of(writes),
                stem_order(reads),
                sr1,
                stem_trace,
                stem_expiry,
                stem_writes,
                stem_reads,
            ));
            assert(ran_block(*old(self), *self, *rec, ev, run));
        }
        ev
    }

    /// Runs one block and hands what it contributes to every active sink; the
    /// cache advances whether or not any sink counts the block.
    pub fn process_block(&mut self, rec: &BlockRecord, sinks: &mut [MetricSink<'_>])
        requires
            old(self).wf(),
            block_fits(*old(self), *rec),
            forall|i: int|
                0 <= i < old(sinks)@.len() && (#[trigger] old(sinks)@[i]).active ==> sink_ready(
                    *old(sinks)@[i].metrics,
                    *old(self),
                    *rec,
                ),
        ensures
            final(sinks)@.len() == old(sinks)@.len(),
            exists|ev: BlockEvents|
                #[trigger] advanced(*old(self), *final(self), *rec, ev) && forall|i: int|
                    0 <= i < old(sinks)@.len() ==> (if old(sinks)@[i].active {
                        absorbed(*old(sinks)@[i].metrics, *(#[trigger] final(sinks)@[i]).metrics, ev)
                    } else {
                        *final(sinks)@[i].metrics == *old(sinks)@[i].metrics
                    }),
    {
        let ghost c0 = *self;
        let ev = self.advance(rec);
        let mut i: usize = 0;
        while i < sinks.len()
            invariant
                sinks@.len() == old(sinks)@.len(),
                0 <= i <= sinks@.len(),
                advanced(c0, *self, *rec, ev),
                forall|j: int| i <= j < sinks@.len() ==> sinks@[j] == old(sinks)@[j],
                forall|j: int|
                    0 <= j < i ==> (if old(sinks)@[j].active {
                        absorbed(*old(sinks)@[j].metrics, *(#[trigger] sinks@[j]).metrics, ev)
                    } else {
                        *sinks@[j].metrics == *old(sinks)@[j].metrics
                    }),
                forall|j: int| 0 <= j < sinks@.len() ==> (#[trigger] sinks@[j]).active == old(sinks)@[j].active,
                forall|j: int|
                    0 <= j < old(sinks)@.len() && (#[trigger] old(sinks)@[j]).active ==> sink_ready(
                        *old(sinks)@[j].metrics,
                        c0,
                        *rec,
                    ),
            decreases sinks@.len() - i,
        {
            if sinks[i].active {
                sinks[i].metrics.absorb(&ev);
            }
            i = i + 1;
        }
    }

    /// Runs one block, counting it in `m` only when `counting`.
    pub fn process_counting(&mut self, rec: &BlockRecord, counting: bool, m: &mut RunMetrics)
        requires
            old(self).wf(),
            block_fits(*old(self), *rec),
            counting ==> sink_ready(*old(m), *old(self), *rec),
        ensures
            exists|ev: BlockEvents|
                #[trigger] advanced(*old(self), *final(self), *rec, ev) && (if counting {
                    absorbed(*old(m), *final(m), ev)
                } else {
                    *final(m) == *old(m)
                }),
            old(m).consistent() ==> final(m).consistent(),
    {
        let ghost c0 = *self;
        let ev = self.advance(rec);
        if counting {
            m.absorb(&ev);
        }
    }
}

/// The leaves a block's reads start from when the windows are settled: the
/// resident ones neither written by the block nor idle for the whole window.
pub open spec fn carried_over(c: WitnessCache, rec: BlockRecord) -> Set<Key> {
    c.resident().filter(
        |k: Key|
            !rec.writes@.contains(k) && !(c.stamps().contains_key(k) && expired_at(
                c.stamps()[k],
                c.span(),
                rec.block_number,
            )),
    )
}

/// The hits of the first `n` reads when nothing is evicted: a read hits when
/// its key was there from the start or was read earlier.
pub open spec fn ample_hits<K>(start: Set<K>, reads: Seq<K>, n: int) -> nat
    decreases n,
{
    if n <= 0 {
        0
    } else {
        ample_hits(start, reads, n - 1) + if start.contains(reads[n - 1]) || reads.take(n - 1).contains(
            reads[n - 1],
        ) {
            1nat
        } else {
            0nat
        }
    }
}

/// With room for the starting set and every access, a trace never evicts:
/// before access `n` it holds the starting set and the keys accessed so far,
/// and the first `n` accesses hit as `ample_hits` counts.
proof fn lemma_trace_ample<K>(trace: Seq<Set<K>>, reads: Seq<K>, cap: nat, n: int)
    requires
        read_trace(trace, reads, cap),
        trace[0].finite(),
        trace[0].union(reads.to_set()).len() <= cap,
        0 <= n <= reads.len(),
    ensures
        trace[n] == trace[0].union(reads.take(n).to_set()),
        hit_count(trace, reads, n) == ample_hits(trace[0], reads, n),
    decreases n,
{
    let start = trace[0];
    if n == 0 {
        assert(reads.take(0).to_set() =~= Set::<K>::empty());
        assert(start.union(Set::<K>::empty()) =~= start);
    } else {
        let i = n - 1;
        lemma_trace_ample(trace, reads, cap, i);
        let a = trace[i];
        let k = reads[i];
        assert(step_ok(trace[i], trace[i + 1], reads[i], cap));
        assert(reads.take(i + 1) =~= reads.take(i).push(k));
        Seq::lemma_to_set_insert_commutes(reads.take(i), k);
        assert(reads.take(i) + seq![k] =~= reads.take(i + 1));
        assert(reads.take(i + 1).to_set() =~= reads.take(i).to_set().insert(k));
        assert(a.contains(k) <==> start.contains(k) || reads.take(i).contains(k));
        if a.contains(k) {
            assert(trace[i + 1] =~= start.union(reads.take(i + 1).to_set()));
        } else {
            let u = start.union(reads.to_set());
            vstd::seq_lib::seq_to_set_is_finite(reads);
            assert(u.finite());
            assert forall|x: K| a.insert(k).contains(x) implies u.contains(x) by {
                if reads.take(i).contains(x) {
                    let j = choose|j: int| 0 <= j < i && reads.take(i)[j] == x;
                    assert(reads[j] == x);
                }
                if x == k {
                    assert(reads[i] == x);
                }
            }
            vstd::set_lib::lemma_len_subset(a.insert(k), u);
            assert(a.len() < cap);
            assert(trace[i + 1] == a.insert(k));
            assert(trace[i + 1] =~= start.union(reads.take(i + 1).to_set()));
        }
    }
}

/// Nothing is evicted from a settled cache with room for every leaf it holds
/// together with every distinct key the block reads: afterwards it holds the leaves carried over
/// and the leaves read, and a read hits exactly when its key was carried over
/// or read earlier in the block. None of this depends on the replacement
/// policy.
pub proof fn lemma_ample_capacity(c0: WitnessCache, c1: WitnessCache, rec: BlockRecord, ev: BlockEvents)
    requires
        c0.wf(),
        advanced(c0, c1, rec, ev),
        c0.settled_by(rec.block_number),
        c0.resident().union(rec.reads@.to_set()).len() <= c0.leaf_policy().1,
    ensures
        c1.resident() == carried_over(c0, rec).union(rec.reads@.to_set()),
        ev.outcome.hits == ample_hits(carried_over(c0, rec), rec.reads@, rec.reads@.len() as int),
{
    let reads = rec.reads@;
    let run = choose|run: BlockRun| #[trigger] ran_block(c0, c1, rec, ev, run);
    let trace = run.trace;
    let start = trace[0];
    c0.lemma_windows_match();
    c1.lemma_windows_match();
    assert(start =~= carried_over(c0, rec));
    vstd::seq_lib::seq_to_set_is_finite(reads);
    vstd::set_lib::lemma_len_subset(start.union(reads.to_set()), c0.resident().union(reads.to_set()));
    lemma_trace_ample(trace, reads, c1.leaf_policy().1, reads.len() as int);
    assert(reads.take(reads.len() as int) =~= reads);
    assert(trace.last() == trace[reads.len() as int]);
}

/// Two settled caches that hold the same leaves with the same stamps under
/// the same window, each with room for those leaves together with every
/// distinct key a block reads, end the block holding the same leaves with the same stamps and
/// report the same hits and misses, whatever their replacement policies.
pub proof fn lemma_policies_agree_when_ample(
    a0: WitnessCache,
    a1: WitnessCache,
    ea: BlockEvents,
    b0: WitnessCache,
    b1: WitnessCache,
    eb: BlockEvents,
    rec: BlockRecord,
)
    requires
        a0.wf(),
        b0.wf(),
        advanced(a0, a1, rec, ea),
        advanced(b0, b1, rec, eb),
        a0.resident() == b0.resident(),
        a0.stamps() == b0.stamps(),
        a0.span() == b0.span(),
        a0.settled_by(rec.block_number),
        b0.settled_by(rec.block_number),
        a0.resident().union(rec.reads@.to_set()).len() <= a0.leaf_policy().1,
        b0.resident().union(rec.reads@.to_set()).len() <= b0.leaf_policy().1,
    ensures
        a1.resident() == b1.resident(),
        a1.stamps() == b1.stamps(),
        ea.outcome.hits == eb.outcome.hits,
        ea.outcome.misses == eb.outcome.misses,
        a1.settled_by(rec.block_number),
        b1.settled_by(rec.block_number),
{
    lemma_ample_capacity(a0, a1, rec, ea);
    lemma_ample_capacity(b0, b1, rec, eb);
    assert(carried_over(a0, rec) =~= carried_over(b0, rec));
    assert(a1.resident() == b1.resident());
    assert forall|k: Key| a1.stamps().contains_key(k) <==> b1.stamps().contains_key(k) by {
        if a1.stamps().contains_key(k) {
            assert(a1.resident().contains(k));
        }
        if b1.stamps().contains_key(k) {
            assert(b1.resident().contains(k));
        }
    }
    assert forall|k: Key| a1.stamps().contains_key(k) implies a1.stamps()[k] == b1.stamps()[k] by {
        assert(a1.resident().contains(k));
    }
    assert(a1.stamps() =~= b1.stamps());
}

/// The distinct keys the first `n` blocks of `recs` read.
pub open spec fn keys_read(recs: Seq<BlockRecord>, n: int) -> Set<Key>
    decreases n,
{
    if n <= 0 {
        Set::empty()
    } else {
        keys_read(recs, n - 1).union(recs[n - 1].reads@.to_set())
    }
}

proof fn lemma_keys_read_grows(recs: Seq<BlockRecord>, n: int, m: int)
    requires
        0 <= n <= m <= recs.len(),
    ensures
        keys_read(recs, n).subset_of(keys_read(recs, m)),
        keys_read(recs, m).finite(),
    decreases m,
{
    if m > 0 {
        vstd::seq_lib::seq_to_set_is_finite(recs[m - 1].reads@);
        if n < m {
            lemma_keys_read_grows(recs, n, m - 1);
        } else {
            lemma_keys_read_grows(recs, m - 1, m - 1);
        }
    }
}

/// A cache settled by a block is settled by every later one.
proof fn lemma_settled_later(c: WitnessCache, now: u64, later: u64)
    requires
        c.settled_by(now),
        now <= later,
    ensures
        c.settled_by(later),
{
}

/// Caches fed the same blocks in order agree block by block up to `n`.
proof fn lemma_agree_upto(
    ca: Seq<WitnessCache>,
    ea: Seq<BlockEvents>,
    cb: Seq<WitnessCache>,
    eb: Seq<BlockEvents>,
    recs: Seq<BlockRecord>,
    n: int,
)
    requires
        ca.len() == recs.len() + 1,
        cb.len() == recs.len() + 1,
        ea.len() == recs.len(),
        eb.len() == recs.len(),
        ca[0].wf(),
        cb[0].wf(),
        forall|i: int|
            0 <= i < recs.len() ==> advanced(ca[i], #[trigger] ca[i + 1], recs[i], ea[i]) && advanced(
                cb[i],
                cb[i + 1],
                recs[i],
                eb[i],
            ),
        ca[0].resident() == cb[0].resident(),
        ca[0].stamps() == cb[0].stamps(),
        ca[0].span() == cb[0].span(),
        recs.len() > 0 ==> ca[0].settled_by(recs[0].block_number) && cb[0].settled_by(recs[0].block_number),
        forall|i: int, j: int| 0 <= i <= j < recs.len() ==> #[trigger] recs[i].block_number <= #[trigger] recs[j].block_number,
        ca[0].resident().union(keys_read(recs, recs.len() as int)).len() <= ca[0].leaf_policy().1,
        cb[0].resident().union(keys_read(recs, recs.len() as int)).len() <= cb[0].leaf_policy().1,
        0 <= n <= recs.len(),
    ensures
        ca[n].wf(),
        cb[n].wf(),
        ca[n].resident() == cb[n].resident(),
        ca[n].stamps() == cb[n].stamps(),
        ca[n].span() == cb[n].span(),
        ca[n].leaf_policy() == ca[0].leaf_policy(),
        cb[n].leaf_policy() == cb[0].leaf_policy(),
        ca[n].resident().subset_of(ca[0].resident().union(keys_read(recs, n))),
        cb[n].resident().subset_of(cb[0].resident().union(keys_read(recs, n))),
        n < recs.len() ==> ca[n].settled_by(recs[n].block_number) && cb[n].settled_by(recs[n].block_number),
        forall|i: int|
            0 <= i < n ==> (#[trigger] ea[i]).outcome.hits == eb[i].outcome.hits && ea[i].outcome.misses
                == eb[i].outcome.misses,
    decreases n,
{
    if n > 0 {
        let i = n - 1;
        lemma_agree_upto(ca, ea, cb, eb, recs, i);
        assert(advanced(ca[i], ca[i + 1], recs[i], ea[i]) && advanced(cb[i], cb[i + 1], recs[i], eb[i]));
        let rd = recs[i].reads@.to_set();
        let all_a = ca[0].resident().union(keys_read(recs, recs.len() as int));
        let all_b = cb[0].resident().union(keys_read(recs, recs.len() as int));
        lemma_keys_read_grows(recs, n, recs.len() as int);
        lemma_keys_read_grows(recs, i, n);
        ca[0].lemma_windows_match();
        cb[0].lemma_windows_match();
        assert(ca[i].resident().union(rd).subset_of(all_a));
        assert(cb[i].resident().union(rd).subset_of(all_b));
        vstd::set_lib::lemma_len_subset(ca[i].resident().union(rd), all_a);
        vstd::set_lib::lemma_len_subset(cb[i].resident().union(rd), all_b);
        lemma_policies_agree_when_ample(ca[i], ca[n], ea[i], cb[i], cb[n], eb[i], recs[i]);
        assert(ca[n].resident().subset_of(ca[0].resident().union(keys_read(recs, n))));
        assert(cb[n].resident().subset_of(cb[0].resident().union(keys_read(recs, n))));
        if n < recs.len() {
            assert(recs[i].block_number <= recs[n].block_number);
            lemma_settled_later(ca[n], recs[i].block_number, recs[n].block_number);
            lemma_settled_later(cb[n], recs[i].block_number, recs[n].block_number);
        }
    }
}

/// Caches of any replacement policies, fed the same blocks in block order
/// from the same start (the same leaves with the same stamps under the same
/// window), each with room for the leaves it starts with together with every
/// distinct key the blocks read, never evict: after every block they hold the
/// same leaves with the same stamps, and every block reports the same hits
/// and misses.
pub proof fn lemma_policies_agree_over_blocks(
    ca: Seq<WitnessCache>,
    ea: Seq<BlockEvents>,
    cb: Seq<WitnessCache>,
    eb: Seq<BlockEvents>,
    recs: Seq<BlockRecord>,
)
    requires
        ca.len() == recs.len() + 1,
        cb.len() == recs.len() + 1,
        ea.len() == recs.len(),
        eb.len() == recs.len(),
        ca[0].wf(),
        cb[0].wf(),
        forall|i: int|
            0 <= i < recs.len() ==> advanced(ca[i], #[trigger] ca[i + 1], recs[i], ea[i]) && advanced(
                cb[i],
                cb[i + 1],
                recs[i],
                eb[i],
            ),
        ca[0].resident() == cb[0].resident(),
        ca[0].stamps() == cb[0].stamps(),
        ca[0].span() == cb[0].span(),
        recs.len() > 0 ==> ca[0].settled_by(recs[0].block_number) && cb[0].settled_by(recs[0].block_number),
        forall|i: int, j: int| 0 <= i <= j < recs.len() ==> #[trigger] recs[i].block_number <= #[trigger] recs[j].block_number,
        ca[0].resident().union(keys_read(recs, recs.len() as int)).len() <= ca[0].leaf_policy().1,
        cb[0].resident().union(keys_read(recs, recs.len() as int)).len() <= cb[0].leaf_policy().1,
    ensures
        forall|i: int|
            0 <= i < recs.len() ==> (#[trigger] ea[i]).outcome.hits == eb[i].outcome.hits && ea[i].outcome.misses
                == eb[i].outcome.misses,
        forall|i: int|
            0 <= i <= recs.len() ==> (#[trigger] ca[i]).resident() == cb[i].resident() && ca[i].stamps()
                == cb[i].stamps(),
{
    lemma_agree_upto(ca, ea, cb, eb, recs, recs.len() as int);
    assert forall|i: int| 0 <= i <= recs.len() implies (#[trigger] ca[i]).resident() == cb[i].resident()
        && ca[i].stamps() == cb[i].stamps() by {
        lemma_agree_upto(ca, ea, cb, eb, recs, i);
    }
}

/// Two caches in the same state: policies of the same kinds in the same
/// abstract states, the same window entries and the same window span.
pub open spec fn same_cache(a: WitnessCache, b: WitnessCache) -> bool {
    &&& a.leaf_state().same_state(b.leaf_state())
    &&& a.stem_state().same_state(b.stem_state())
    &&& a.leaf_window_entries() == b.leaf_window_entries()
    &&& a.stem_window_entries() == b.stem_window_entries()
    &&& a.span() == b.span()
}

/// Policies that start in the same state and take the same steps pass
/// through the same states, holding the same keys.
proof fn lemma_steps_agree<K: CacheKey>(
    a: Seq<CachePolicy<K>>,
    b: Seq<CachePolicy<K>>,
    keys: Seq<K>,
    removals: bool,
    i: int,
)
    requires
        removals ==> removes_each(a, keys) && removes_each(b, keys),
        !removals ==> accesses_each(a, keys) && accesses_each(b, keys),
        a[0].same_state(b[0]),
        0 <= i < a.len(),
    ensures
        a[i].same_state(b[i]),
        a[i].resident() == b[i].resident(),
    decreases i,
{
    if i > 0 {
        lemma_steps_agree(a, b, keys, removals, i - 1);
        let j = i - 1;
        if removals {
            assert(a[j].removed(a[j + 1], keys[j]) && b[j].removed(b[j + 1], keys[j]));
        } else {
            assert(a[j].accessed(a[j + 1], keys[j]) && b[j].accessed(b[j + 1], keys[j]));
        }
        a[j].lemma_same_state_steps(b[j], a[i], b[i], keys[j]);
    }
    a[i].lemma_same_state_steps(b[i], a[i], b[i], vstd::pervasive::arbitrary());
}

/// An expired prefix of a window has one length.
proof fn lemma_expired_prefix_unique<K>(s: Seq<(K, u64)>, span: u64, now: u64, n1: nat, n2: nat)
    requires
        expired_prefix(s, span, now, n1),
        expired_prefix(s, span, now, n2),
    ensures
        n1 == n2,
{
    if n1 < n2 {
        assert(expired_at(s[n1 as int].1, span, now));
    }
    if n2 < n1 {
        assert(expired_at(s[n2 as int].1, span, now));
    }
}

/// The phases of a policy's block run agree for two policies in the same
/// state: they end in the same state and hold the same keys before each read.
proof fn lemma_phases_agree<K: CacheKey>(
    p0: CachePolicy<K>, p1: CachePolicy<K>, q0: CachePolicy<K>, q1: CachePolicy<K>,
    expired: Seq<K>, written: Seq<K>, read: Seq<K>,
    kept: Set<K>, trace: Seq<Set<K>>, e: Seq<CachePolicy<K>>, w: Seq<CachePolicy<K>>, r: Seq<CachePolicy<K>>,
    kept2: Set<K>, trace2: Seq<Set<K>>, e2: Seq<CachePolicy<K>>, w2: Seq<CachePolicy<K>>, r2: Seq<CachePolicy<K>>,
)
    requires
        p0.same_state(q0),
        policy_phases(p0, p1, expired, written, read, kept, trace, e, w, r),
        policy_phases(q0, q1, expired, written, read, kept2, trace2, e2, w2, r2),
    ensures
        p1.same_state(q1),
        trace == trace2,
{
    lemma_steps_agree(e, e2, expired, true, e.len() - 1);
    lemma_steps_agree(w, w2, written, true, w.len() - 1);
    lemma_steps_agree(r, r2, read, false, r.len() - 1);
    assert forall|i: int| 0 <= i < trace.len() implies trace[i] == trace2[i] by {
        lemma_steps_agree(r, r2, read, false, i);
    }
    assert(trace =~= trace2);
}

/// A block's effect is determined by the cache's state: two caches in the
/// same state end a block in the same state again and report the same
/// outcome, survival ages and invalidations.
#[verifier::rlimit(50)]
pub proof fn lemma_advance_deterministic(
    a0: WitnessCache,
    a1: WitnessCache,
    ea: BlockEvents,
    b0: WitnessCache,
    b1: WitnessCache,
    eb: BlockEvents,
    rec: BlockRecord,
)
    requires
        same_cache(a0, b0),
        advanced(a0, a1, rec, ea),
        advanced(b0, b1, rec, eb),
    ensures
        same_cache(a1, b1),
        ea.outcome == eb.outcome,
        ea.survival@ == eb.survival@,
        ea.stem_survival@ == eb.stem_survival@,
        ea.invalidated@ == eb.invalidated@,
{
    let now = rec.block_number;
    let reads = rec.reads@;
    let writes = rec.writes@;
    let ra = choose|run: BlockRun| #[trigger] ran_block(a0, a1, rec, ea, run);
    let rb = choose|run: BlockRun| #[trigger] ran_block(b0, b1, rec, eb, run);
    let k0: Key = vstd::pervasive::arbitrary();
    let s0: StemId = vstd::pervasive::arbitrary();
    a0.leaf_state().lemma_same_state_steps(b0.leaf_state(), a0.leaf_state(), a0.leaf_state(), k0);
    a0.stem_state().lemma_same_state_steps(b0.stem_state(), a0.stem_state(), a0.stem_state(), s0);
    assert(a0.resident() == b0.resident());
    assert(a0.stem_resident() == b0.stem_resident());
    assert(a0.stamps() == b0.stamps());
    assert(a0.stem_stamps() == b0.stem_stamps());
    lemma_expired_prefix_unique(a0.leaf_window_entries(), a0.span(), now, ra.dropped.len(), rb.dropped.len());
    lemma_expired_prefix_unique(
        a0.stem_window_entries(),
        a0.span(),
        now,
        ra.stem_dropped.len(),
        rb.stem_dropped.len(),
    );
    assert(ra.dropped == rb.dropped);
    assert(ra.stem_dropped == rb.stem_dropped);
    assert forall|k: Key| ra.kept.contains(k) <==> rb.kept.contains(k) by {
        assert(has_key(ra.dropped, k) <==> a0.resident().contains(k) && !ra.kept.contains(k));
        assert(has_key(rb.dropped, k) <==> b0.resident().contains(k) && !rb.kept.contains(k));
    }
    assert forall|s: StemId| ra.stem_kept.contains(s) <==> rb.stem_kept.contains(s) by {
        assert(has_key(ra.stem_dropped, s) <==> a0.stem_resident().contains(s) && !ra.stem_kept.contains(s));
        assert(has_key(rb.stem_dropped, s) <==> b0.stem_resident().contains(s) && !rb.stem_kept.contains(s));
    }
    assert(ra.kept =~= rb.kept);
    assert(ra.stem_kept =~= rb.stem_kept);
    lemma_phases_agree(
        a0.leaf_state(), a1.leaf_state(), b0.leaf_state(), b1.leaf_state(),
        keys_of(ra.dropped), writes, reads,
        ra.kept, ra.trace, ra.leaf_expiry, ra.leaf_writes, ra.leaf_reads,
        rb.kept, rb.trace, rb.leaf_expiry, rb.leaf_writes, rb.leaf_reads,
    );
    lemma_phases_agree(
        a0.stem_state(), a1.stem_state(), b0.stem_state(), b1.stem_state(),
        keys_of(ra.stem_dropped), stems_of(writes), stem_order(reads),
        ra.stem_kept, ra.stem_trace, ra.stem_expiry, ra.stem_writes, ra.stem_reads,
        rb.stem_kept, rb.stem_trace, rb.stem_expiry, rb.stem_writes, rb.stem_reads,
    );
    a1.leaf_state().lemma_same_state_steps(b1.leaf_state(), a1.leaf_state(), a1.leaf_state(), k0);
    a1.stem_state().lemma_same_state_steps(b1.stem_state(), a1.stem_state(), a1.stem_state(), s0);
    assert(a1.resident() == b1.resident());
    assert(a1.stem_resident() == b1.stem_resident());
    assert(a1.leaf_window_entries() == b1.leaf_window_entries());
    assert(a1.stem_window_entries() == b1.stem_window_entries());
    assert(ea.survival@ == eb.survival@);
    assert(ea.stem_survival@ == eb.stem_survival@);
    assert(ea.invalidated@ == eb.invalidated@);
    let oa = ea.outcome;
    let ob = eb.outcome;
    assert(oa.hits == ob.hits);
    assert(oa.misses == ob.misses);
    assert(oa.witness == ob.witness);
    assert(oa.footprint == ob.footprint);
}

} // verus!

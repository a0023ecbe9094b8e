use vstd::prelude::*;

use vstd::std_specs::bits::{axiom_u64_leading_zeros, u64_leading_zeros};

use crate::model::Address;
use crate::witness::{BlockWitnessBytes, CacheFootprint, LEAF_ENTRY_BYTES, STEM_ENTRY_BYTES};
use crate::ordered::{
    OrderedMap, has_key, lemma_pos_of, lemma_push_unique, lemma_update_value, pos_of, unique_keys,
};

verus! {

pub const SURVIVAL_BUCKETS: usize = 14;

/// `floor(log2(x))`, taken as 0 below 2.
pub open spec fn log2_floor(x: nat) -> nat
    decreases x,
{
    if x < 2 {
        0
    } else {
        1 + log2_floor(x / 2)
    }
}

/// The survival bucket of an age: ages 0 to 7 each have their own bucket; from
/// 8 on, bucket `5 + floor(log2(age))`, the last bucket taking every age from 256.
pub open spec fn bucket_spec(age: u64) -> nat {
    if age < 8 {
        age as nat
    } else if 5 + log2_floor(age as nat) < SURVIVAL_BUCKETS - 1 {
        5 + log2_floor(age as nat)
    } else {
        (SURVIVAL_BUCKETS - 1) as nat
    }
}

proof fn lemma_leading_zeros(x: u64)
    requires
        x >= 1,
    ensures
        u64_leading_zeros(x) == 63 - log2_floor(x as nat),
        log2_floor(x as nat) <= 63,
    decreases x,
{
    reveal(u64_leading_zeros);
    axiom_u64_leading_zeros(x);
    if x >= 2 {
        lemma_leading_zeros(x / 2);
    } else {
        assert(u64_leading_zeros(0) == 64);
    }
}

/// The sum of a sequence of counters.
pub open spec fn seq_sum(s: Seq<u64>) -> nat
    decreases s.len(),
{
    if s.len() == 0 {
        0
    } else {
        seq_sum(s.drop_last()) + s.last() as nat
    }
}

/// Adding one to an element adds one to the sum.
pub proof fn lemma_sum_bump(s: Seq<u64>, b: int)
    requires
        0 <= b < s.len(),
    ensures
        s[b] < u64::MAX ==> seq_sum(s.update(b, (s[b] + 1) as u64)) == seq_sum(s) + 1,
        s[b] <= seq_sum(s),
    decreases s.len(),
{
    let t = s.update(b, (s[b] + 1) as u64);
    if b < s.len() - 1 {
        lemma_sum_bump(s.drop_last(), b);
        assert(t.drop_last() =~= s.drop_last().update(b, (s[b] + 1) as u64));
    } else {
        assert(t.drop_last() =~= s.drop_last());
    }
}

/// How many of `ages` fall in bucket `b`.
pub open spec fn bucket_count(ages: Seq<u64>, b: nat) -> nat
    decreases ages.len(),
{
    if ages.len() == 0 {
        0
    } else {
        bucket_count(ages.drop_last(), b) + if bucket_spec(ages.last()) == b {
            1nat
        } else {
            0nat
        }
    }
}

/// How survival ages (blocks between last witnessing and leaving the cache)
/// are distributed.
#[derive(Debug, Clone, Copy)]
pub struct SurvivalHistogram {
    pub buckets: [u64; 14],
    pub sum_age: u64,
    pub n: u64,
}

impl SurvivalHistogram {
    /// Every sample sits in exactly one bucket.
    pub open spec fn wf(&self) -> bool {
        seq_sum(self.buckets@) == self.n
    }

    pub fn new() -> (h: Self)
        ensures
            h.wf(),
            h.n == 0,
            h.sum_age == 0,
            forall|b: int| 0 <= b < SURVIVAL_BUCKETS ==> h.buckets[b] == 0,
    {
        let h = SurvivalHistogram { buckets: [0u64; 14], sum_age: 0, n: 0 };
        proof {
            assert forall|k: int| 0 <= k <= 14 implies seq_sum(#[trigger] h.buckets@.take(k)) == 0 by {
                lemma_zero_prefix(h.buckets@, k);
            }
            assert(h.buckets@.take(14) =~= h.buckets@);
        }
        h
    }

    /// The bucket an age falls in.
    pub fn bucket_of(age: u64) -> (r: usize)
        ensures
            r == bucket_spec(age),
            r < SURVIVAL_BUCKETS,
    {
        if age < 8 {
            age as usize
        } else {
            let lz = age.leading_zeros();
            proof {
                lemma_leading_zeros(age);
                assert(log2_floor(age as nat) == 1 + log2_floor((age / 2) as nat));
                assert(log2_floor((age / 2) as nat) == 1 + log2_floor((age / 4) as nat));
                assert(log2_floor((age / 4) as nat) == 1 + log2_floor((age / 8) as nat));
            }
            let floor_log2 = 63 - lz as usize;
            let b = 5 + floor_log2;
            if b < SURVIVAL_BUCKETS - 1 {
                b
            } else {
                SURVIVAL_BUCKETS - 1
            }
        }
    }

    /// Records one sample.
    pub fn record(&mut self, age: u64)
        requires
            old(self).wf(),
            old(self).n < u64::MAX,
            old(self).sum_age + age <= u64::MAX,
        ensures
            final(self).wf(),
            final(self).buckets@ == old(self).buckets@.update(
                bucket_spec(age) as int,
                (old(self).buckets[bucket_spec(age) as int] + 1) as u64,
            ),
            old(self).buckets[bucket_spec(age) as int] < u64::MAX,
            final(self).sum_age == old(self).sum_age + age,
            final(self).n == old(self).n + 1,
    {
        let b = Self::bucket_of(age);
        proof {
            lemma_sum_bump(self.buckets@, b as int);
        }
        self.buckets[b] = self.buckets[b] + 1;
        self.sum_age = self.sum_age + age;
        self.n = self.n + 1;
    }
}

proof fn lemma_zero_prefix(s: Seq<u64>, k: int)
    requires
        0 <= k <= s.len(),
        forall|i: int| 0 <= i < s.len() ==> s[i] == 0,
    ensures
        seq_sum(s.take(k)) == 0,
    decreases k,
{
    if k > 0 {
        lemma_zero_prefix(s, k - 1);
        assert(s.take(k).drop_last() =~= s.take(k - 1));
    }
}

impl Default for SurvivalHistogram {
    fn default() -> (h: Self)
        ensures
            h.wf(),
            h.n == 0,
            h.sum_age == 0,
    {
        SurvivalHistogram::new()
    }
}

/// Address `a` sorts before address `b`: byte-wise lexicographic order from byte `i` on.
pub open spec fn bytes_before(a: Seq<u8>, b: Seq<u8>, i: int) -> bool
    decreases a.len() - i,
{
    if i < 0 || i >= a.len() || i >= b.len() {
        false
    } else if a[i] < b[i] {
        true
    } else if a[i] > b[i] {
        false
    } else {
        bytes_before(a, b, i + 1)
    }
}

/// Lexicographic order on 20-byte addresses.
pub open spec fn address_before(a: Address, b: Address) -> bool {
    bytes_before(a.0@, b.0@, 0)
}

proof fn lemma_bytes_order(a: Seq<u8>, b: Seq<u8>, c: Seq<u8>, i: int)
    requires
        a.len() == b.len(),
        b.len() == c.len(),
        0 <= i <= a.len(),
    ensures
        !bytes_before(a, a, i),
        bytes_before(a, b, i) && bytes_before(b, c, i) ==> bytes_before(a, c, i),
        a.subrange(i, a.len() as int) != b.subrange(i, b.len() as int) ==> bytes_before(a, b, i)
            || bytes_before(b, a, i),
        bytes_before(a, b, i) ==> !bytes_before(b, a, i),
    decreases a.len() - i,
{
    if i < a.len() {
        lemma_bytes_order(a, b, c, i + 1);
        if a.subrange(i, a.len() as int) != b.subrange(i, b.len() as int) && a[i] == b[i] {
            assert(a.subrange(i + 1, a.len() as int) != b.subrange(i + 1, b.len() as int)) by {
                if a.subrange(i + 1, a.len() as int) == b.subrange(i + 1, b.len() as int) {
                    assert(a.subrange(i, a.len() as int) =~= b.subrange(i, b.len() as int)) by {
                        assert forall|k: int| 0 <= k < a.len() - i implies a.subrange(
                            i,
                            a.len() as int,
                        )[k] == b.subrange(i, b.len() as int)[k] by {
                            if k > 0 {
                                assert(a.subrange(i + 1, a.len() as int)[k - 1] == b.subrange(
                                    i + 1,
                                    b.len() as int,
                                )[k - 1]);
                            }
                        }
                    }
                }
            }
        }
    } else {
        assert(a.subrange(i, a.len() as int) =~= b.subrange(i, b.len() as int));
    }
}

/// Address order is a strict total order.
pub proof fn lemma_address_order(a: Address, b: Address, c: Address)
    ensures
        !address_before(a, a),
        address_before(a, b) && address_before(b, c) ==> address_before(a, c),
        a != b ==> address_before(a, b) || address_before(b, a),
        address_before(a, b) ==> !address_before(b, a),
{
    lemma_bytes_order(a.0@, b.0@, c.0@, 0);
    if a != b {
        assert(a.0@.subrange(0, 20) =~= a.0@);
        assert(b.0@.subrange(0, 20) =~= b.0@);
        if a.0@ == b.0@ {
            assert(a.0 =~= b.0);
        }
    }
}

fn address_lt(a: &Address, b: &Address) -> (r: bool)
    ensures
        r == address_before(*a, *b),
{
    let mut i: usize = 0;
    while i < 20
        invariant
            0 <= i <= 20,
            bytes_before(a.0@, b.0@, 0) == bytes_before(a.0@, b.0@, i as int),
        decreases 20 - i,
    {
        if a.0[i] < b.0[i] {
            return true;
        }
        if a.0[i] > b.0[i] {
            return false;
        }
        i = i + 1;
    }
    false
}

/// Ranking of contracts by invalidations: more first, ties by address.
pub open spec fn ranks_before(x: (Address, u64), y: (Address, u64)) -> bool {
    x.1 > y.1 || (x.1 == y.1 && address_before(x.0, y.0))
}

fn rank_lt(x: &(Address, u64), y: &(Address, u64)) -> (r: bool)
    ensures
        r == ranks_before(*x, *y),
{
    x.1 > y.1 || (x.1 == y.1 && address_lt(&x.0, &y.0))
}

/// The sum of the counts of a contract table.
pub open spec fn count_total(s: Seq<(Address, u64)>) -> nat
    decreases s.len(),
{
    if s.len() == 0 {
        0
    } else {
        count_total(s.drop_last()) + s.last().1 as nat
    }
}

proof fn lemma_count_total_bump(s: Seq<(Address, u64)>, p: int)
    requires
        0 <= p < s.len(),
    ensures
        s[p].1 < u64::MAX ==> count_total(s.update(p, (s[p].0, (s[p].1 + 1) as u64))) == count_total(s) + 1,
        s[p].1 <= count_total(s),
    decreases s.len(),
{
    let t = s.update(p, (s[p].0, (s[p].1 + 1) as u64));
    if p < s.len() - 1 {
        lemma_count_total_bump(s.drop_last(), p);
        assert(t.drop_last() =~= s.drop_last().update(p, (s[p].0, (s[p].1 + 1) as u64)));
    } else {
        assert(t.drop_last() =~= s.drop_last());
    }
}

/// The contract table after one more invalidation of `a`.
pub open spec fn counted(s: Seq<(Address, u64)>, a: Address) -> Seq<(Address, u64)> {
    if has_key(s, a) {
        s.update(pos_of(s, a), (a, (s[pos_of(s, a)].1 + 1) as u64))
    } else {
        s.push((a, 1u64))
    }
}

/// The contract table after invalidations of `addrs`, in order.
pub open spec fn counted_all(s: Seq<(Address, u64)>, addrs: Seq<Address>) -> Seq<(Address, u64)>
    decreases addrs.len(),
{
    if addrs.len() == 0 {
        s
    } else {
        counted(counted_all(s, addrs.drop_last()), addrs.last())
    }
}

/// Per-contract counts of leaf invalidations, in order of first invalidation.
pub struct ContractInvalidations {
    pub counts: OrderedMap<Address, u64>,
}

impl ContractInvalidations {
    pub open spec fn wf(&self) -> bool {
        self.counts.wf()
    }

    /// All invalidations counted.
    pub open spec fn total(&self) -> nat {
        count_total(self.counts@)
    }

    pub fn new() -> (c: Self)
        ensures
            c.wf(),
            c.counts@ == Seq::<(Address, u64)>::empty(),
    {
        ContractInvalidations { counts: OrderedMap::new() }
    }

    /// Counts one invalidation of a key of contract `addr`.
    pub fn record(&mut self, addr: Address)
        requires
            old(self).wf(),
            old(self).total() < u64::MAX,
        ensures
            final(self).wf(),
            final(self).counts@ == counted(old(self).counts@, addr),
            final(self).total() == old(self).total() + 1,
    {
        let ghost s = self.counts@;
        match self.counts.get(&addr) {
            Some(c) => {
                let c: u64 = *c;
                proof {
                    lemma_pos_of(s, addr);
                    lemma_count_total_bump(s, pos_of(s, addr));
                }
                self.counts.set_value(&addr, c + 1);
            },
            None => {
                self.counts.push_back(addr, 1);
                proof {
                    assert(self.counts@.drop_last() =~= s);
                }
            },
        }
    }

    /// The `k` contracts with the most invalidations, most first, ties broken by
    /// address.
    pub fn top_k(&self, k: usize) -> (r: Vec<(Address, u64)>)
        requires
            self.wf(),
        ensures
            r@.len() == if k < self.counts@.len() {
                k as int
            } else {
                self.counts@.len() as int
            },
            forall|i: int| 0 <= i < r@.len() ==> self.counts@.contains(#[trigger] r@[i]),
            forall|i: int, j: int| 0 <= i < j < r@.len() ==> ranks_before(r@[i], r@[j]),
            forall|e: (Address, u64), i: int|
                self.counts@.contains(e) && !r@.contains(e) && 0 <= i < r@.len() ==> #[trigger] ranks_before(
                    r@[i],
                    e,
                ),
    {
        let entries = self.counts.entries();
        let ghost es = entries@;
        let n = entries.len();
        let want = if k < n {
            k
        } else {
            n
        };
        let mut chosen: Vec<bool> = Vec::new();
        let mut z: usize = 0;
        while z < n
            invariant
                z <= n,
                n == es.len(),
                chosen@.len() == z,
                forall|j: int| 0 <= j < z ==> !chosen@[j],
                chosen_count(chosen@) == 0,
            decreases n - z,
        {
            let ghost c0 = chosen@;
            chosen.push(false);
            proof {
                assert(chosen@.drop_last() =~= c0);
            }
            z = z + 1;
        }
        let mut out: Vec<(Address, u64)> = Vec::new();
        let mut t: usize = 0;
        while t < want
            invariant
                entries@ == es,
                es == self.counts@,
                unique_keys(es),
                n == es.len(),
                want <= n,
                t <= want,
                out@.len() == t,
                chosen@.len() == n,
                forall|j: int| 0 <= j < n ==> (chosen@[j] <==> out@.contains(#[trigger] es[j])),
                forall|i: int| 0 <= i < t ==> es.contains(#[trigger] out@[i]),
                forall|i: int, i2: int| 0 <= i < i2 < t ==> ranks_before(out@[i], out@[i2]),
                forall|j: int, i: int|
                    0 <= j < n && !chosen@[j] && 0 <= i < t ==> #[trigger] ranks_before(out@[i], es[j]),
                chosen_count(chosen@) == t,
            decreases want - t,
        {
            proof {
                lemma_unchosen_exists(chosen@);
            }
            let mut best: usize = n;
            let mut j: usize = 0;
            while j < n
                invariant
                    entries@ == es,
                    unique_keys(es),
                    n == es.len(),
                    chosen@.len() == n,
                    j <= n,
                    best == n || (best < j && !chosen@[best as int]),
                    best == n ==> forall|q: int| 0 <= q < j ==> chosen@[q],
                    best < n ==> forall|q: int|
                        0 <= q < j && !chosen@[q] && q != best ==> ranks_before(es[best as int], #[trigger] es[q]),
                decreases n - j,
            {
                if !chosen[j] {
                    if best == n {
                        best = j;
                    } else if rank_lt(&entries[j], &entries[best]) {
                        proof {
                            assert forall|q: int|
                                0 <= q < j && !chosen@[q] && q != best implies ranks_before(
                                es[j as int],
                                #[trigger] es[q],
                            ) by {
                                lemma_rank_order(es[j as int], es[best as int], es[q]);
                            }
                            lemma_rank_order(es[j as int], es[best as int], es[best as int]);
                        }
                        best = j;
                    } else {
                        proof {
                            assert(es[j as int].0 != es[best as int].0);
                            lemma_rank_order(es[j as int], es[best as int], es[best as int]);
                        }
                    }
                }
                j = j + 1;
            }
            proof {
                if best == n {
                    let q = choose|q: int| 0 <= q < n && !chosen@[q];
                    assert(chosen@[q]);
                }
            }
            let e = entries[best];
            let ghost out0 = out@;
            let ghost ch0 = chosen@;
            out.push(e);
            chosen.set(best, true);
            proof {
                lemma_chosen_count_set(ch0, best as int);
                assert forall|q: int| 0 <= q < n implies (chosen@[q] <==> out@.contains(#[trigger] es[q])) by {
                    if q == best {
                        assert(out@[t as int] == es[q]);
                    } else {
                        if out@.contains(es[q]) {
                            let i = choose|i: int| 0 <= i < out@.len() && out@[i] == es[q];
                            if i < t {
                                assert(out0[i] == es[q]);
                            } else {
                                assert(es[q].0 == es[best as int].0);
                            }
                        }
                        if ch0[q] {
                            let i = choose|i: int| 0 <= i < out0.len() && out0[i] == es[q];
                            assert(out@[i] == es[q]);
                        }
                    }
                }
                assert forall|i: int| 0 <= i < t + 1 implies es.contains(#[trigger] out@[i]) by {
                    if i == t {
                        assert(es[best as int] == out@[i]);
                    } else {
                        assert(out@[i] == out0[i]);
                    }
                }
                assert forall|i: int, i2: int| 0 <= i < i2 < t + 1 implies ranks_before(out@[i], out@[i2]) by {
                    assert(out@[i] == out0[i]);
                    if i2 < t {
                        assert(out@[i2] == out0[i2]);
                    } else {
                        assert(!ch0[best as int]);
                        assert(ranks_before(out0[i], es[best as int]));
                    }
                }
                assert forall|j2: int, i: int|
                    0 <= j2 < n && !chosen@[j2] && 0 <= i < t + 1 implies #[trigger] ranks_before(out@[i], es[j2]) by {
                    if i < t {
                        assert(out@[i] == out0[i]);
                        assert(!ch0[j2]);
                    } else {
                        assert(j2 != best);
                        assert(!ch0[j2]);
                    }
                }
            }
            t = t + 1;
        }
        proof {
            assert forall|e: (Address, u64), i: int|
                self.counts@.contains(e) && !out@.contains(e) && 0 <= i < out@.len() implies #[trigger] ranks_before(
                out@[i],
                e,
            ) by {
                let j = choose|j: int| 0 <= j < es.len() && es[j] == e;
                assert(!chosen@[j]);
            }
        }
        out
    }
}

/// Ranking is a strict total order on entries with distinct addresses.
proof fn lemma_rank_order(x: (Address, u64), y: (Address, u64), z: (Address, u64))
    ensures
        !ranks_before(x, x),
        ranks_before(x, y) && ranks_before(y, z) ==> ranks_before(x, z),
        x.0 != y.0 ==> ranks_before(x, y) || ranks_before(y, x),
{
    lemma_address_order(x.0, y.0, z.0);
}

/// How many entries are chosen.
spec fn chosen_count(c: Seq<bool>) -> nat
    decreases c.len(),
{
    if c.len() == 0 {
        0
    } else {
        chosen_count(c.drop_last()) + if c.last() {
            1nat
        } else {
            0nat
        }
    }
}

proof fn lemma_unchosen_exists(c: Seq<bool>)
    requires
        chosen_count(c) < c.len(),
    ensures
        exists|q: int| 0 <= q < c.len() && !c[q],
    decreases c.len(),
{
    if c.last() {
        lemma_unchosen_exists(c.drop_last());
        let q = choose|q: int| 0 <= q < c.len() - 1 && !c.drop_last()[q];
        assert(!c[q]);
    } else {
        assert(!c[c.len() - 1]);
    }
}

proof fn lemma_chosen_count_set(c: Seq<bool>, b: int)
    requires
        0 <= b < c.len(),
        !c[b],
    ensures
        chosen_count(c.update(b, true)) == chosen_count(c) + 1,
    decreases c.len(),
{
    let t = c.update(b, true);
    if b < c.len() - 1 {
        lemma_chosen_count_set(c.drop_last(), b);
        assert(t.drop_last() =~= c.drop_last().update(b, true));
    } else {
        assert(t.drop_last() =~= c.drop_last());
    }
}

impl Default for ContractInvalidations {
    fn default() -> (c: Self)
        ensures
            c.wf(),
            c.counts@ == Seq::<(Address, u64)>::empty(),
    {
        ContractInvalidations::new()
    }
}


/// One counted block, as the per-block series records it.
#[derive(Debug, Clone, Copy)]
pub struct BlockSample {
    pub block_number: u64,
    pub reads: u32,
    pub hits: u32,
    pub misses: u32,
    pub invalidations: u32,
    pub occupancy: u64,
    pub witness_naive: u64,
    pub witness_sent: u64,
    pub bytes_saved: u64,
    pub floor: u64,
    pub bytes_sent_stem: u64,
    pub cache_bytes: u64,
}

/// What the driver reports of one block.
#[derive(Debug, Clone, Copy)]
pub struct BlockOutcome {
    pub block_number: u64,
    pub reads: u32,
    pub hits: u32,
    pub misses: u32,
    pub invalidations: u32,
    pub stem_invalidations: u32,
    pub occupancy: u64,
    pub stem_occupancy: u64,
    pub witness: BlockWitnessBytes,
    pub footprint: CacheFootprint,
}

/// Everything one block contributes to a metrics sink: the survival ages of
/// the leaves and stems that left the caches, the contracts of the invalidated
/// leaves, and the block's outcome.
pub struct BlockEvents {
    pub survival: Vec<u64>,
    pub stem_survival: Vec<u64>,
    pub invalidated: Vec<Address>,
    pub outcome: BlockOutcome,
}

/// The bytes both caches hold under a footprint.
pub open spec fn footprint_bytes(f: CacheFootprint) -> nat {
    (f.leaf_entries * LEAF_ENTRY_BYTES + f.stem_entries * STEM_ENTRY_BYTES) as nat
}

/// An outcome the driver can produce: every read a hit or a miss, and the
/// witness sizes ordered as the size model guarantees.
pub open spec fn outcome_ok(o: BlockOutcome) -> bool {
    &&& o.hits + o.misses == o.reads
    &&& o.witness.floor <= o.witness.sent_stem_opt <= o.witness.sent <= o.witness.naive
    &&& o.witness.floor <= o.witness.sent_stem <= o.witness.naive
    &&& o.witness.saved == o.witness.naive - o.witness.sent
    &&& footprint_bytes(o.footprint) <= u64::MAX
}

/// The series entry of a block.
pub open spec fn sample_of(o: BlockOutcome) -> BlockSample {
    BlockSample {
        block_number: o.block_number,
        reads: o.reads,
        hits: o.hits,
        misses: o.misses,
        invalidations: o.invalidations,
        occupancy: o.occupancy,
        witness_naive: o.witness.naive,
        witness_sent: o.witness.sent,
        bytes_saved: o.witness.saved,
        floor: o.witness.floor,
        bytes_sent_stem: o.witness.sent_stem,
        cache_bytes: footprint_bytes(o.footprint) as u64,
    }
}

/// The sum of the cache bytes over a series.
pub open spec fn cache_sum(s: Seq<BlockSample>) -> nat
    decreases s.len(),
{
    if s.len() == 0 {
        0
    } else {
        cache_sum(s.drop_last()) + s.last().cache_bytes as nat
    }
}

/// The sum of a sequence of ages.
pub open spec fn age_sum(ages: Seq<u64>) -> nat
    decreases ages.len(),
{
    if ages.len() == 0 {
        0
    } else {
        age_sum(ages.drop_last()) + ages.last() as nat
    }
}

/// `new` is `old` with `ages` recorded.
pub open spec fn histogram_absorbed(old: SurvivalHistogram, new: SurvivalHistogram, ages: Seq<u64>) -> bool {
    &&& new.n == old.n + ages.len()
    &&& new.sum_age == old.sum_age + age_sum(ages)
    &&& forall|b: int| 0 <= b < SURVIVAL_BUCKETS ==> #[trigger] new.buckets[b] == old.buckets[b] + bucket_count(ages, b as nat)
}

/// The larger of two counters.
pub open spec fn max_u64(a: u64, b: u64) -> u64 {
    if a < b {
        b
    } else {
        a
    }
}

/// Run-level metrics of one cache simulation over one stratum.
pub struct RunMetrics {
    pub blocks_counted: u64,
    pub total_reads: u64,
    pub total_hits: u64,
    pub total_misses: u64,
    pub total_invalidations: u64,
    pub total_stem_invalidations: u64,
    pub peak_occupancy: u64,
    pub peak_stem_occupancy: u64,
    pub survival: SurvivalHistogram,
    pub stem_survival: SurvivalHistogram,
    pub contracts: ContractInvalidations,
    pub series: Vec<BlockSample>,
    pub total_witness_bytes_naive: u64,
    pub total_witness_bytes_sent: u64,
    pub total_bytes_saved: u64,
    pub total_noncacheable_floor_bytes: u64,
    pub total_witness_bytes_sent_stem: u64,
    pub total_witness_bytes_sent_stem_opt: u64,
    pub total_cache_bytes: u64,
    pub peak_cache_bytes: u64,
    pub peak_leaf_bytes: u64,
    pub peak_stem_bytes: u64,
}

/// `new` is `old` after recording the outcome `o` of one counted block; the
/// survival histograms, contract counts and leaf invalidation total are untouched.
pub open spec fn recorded_block(old: RunMetrics, new: RunMetrics, o: BlockOutcome) -> bool {
    let fb = footprint_bytes(o.footprint);
    &&& new.blocks_counted == old.blocks_counted + 1
    &&& new.total_reads == old.total_reads + o.reads
    &&& new.total_hits == old.total_hits + o.hits
    &&& new.total_misses == old.total_misses + o.misses
    &&& new.total_stem_invalidations == old.total_stem_invalidations + o.stem_invalidations
    &&& new.peak_occupancy == max_u64(old.peak_occupancy, o.occupancy)
    &&& new.peak_stem_occupancy == max_u64(old.peak_stem_occupancy, o.stem_occupancy)
    &&& new.total_witness_bytes_naive == old.total_witness_bytes_naive + o.witness.naive
    &&& new.total_witness_bytes_sent == old.total_witness_bytes_sent + o.witness.sent
    &&& new.total_bytes_saved == old.total_bytes_saved + o.witness.saved
    &&& new.total_noncacheable_floor_bytes == old.total_noncacheable_floor_bytes + o.witness.floor
    &&& new.total_witness_bytes_sent_stem == old.total_witness_bytes_sent_stem + o.witness.sent_stem
    &&& new.total_witness_bytes_sent_stem_opt == old.total_witness_bytes_sent_stem_opt
        + o.witness.sent_stem_opt
    &&& new.total_cache_bytes == old.total_cache_bytes + fb
    &&& (if fb > old.peak_cache_bytes {
        &&& new.peak_cache_bytes == fb
        &&& new.peak_leaf_bytes == o.footprint.leaf_entries * LEAF_ENTRY_BYTES
        &&& new.peak_stem_bytes == o.footprint.stem_entries * STEM_ENTRY_BYTES
    } else {
        &&& new.peak_cache_bytes == old.peak_cache_bytes
        &&& new.peak_leaf_bytes == old.peak_leaf_bytes
        &&& new.peak_stem_bytes == old.peak_stem_bytes
    })
    &&& new.series@ == old.series@.push(sample_of(o))
}

/// Recording a block appends exactly one series entry, and that entry
/// carries the block's own figures: its number, reads, hits and misses,
/// leaf invalidations and occupancy, its naive, sent, saved, floor and
/// stem-cached witness bytes, and its footprint at 33 bytes per leaf and 128
/// per extension node. Everything recorded before stays as it was.
pub proof fn lemma_series_entry_is_the_block(old: RunMetrics, new: RunMetrics, o: BlockOutcome)
    requires
        recorded_block(old, new, o),
    ensures
        new.series@.len() == old.series@.len() + 1,
        new.series@.drop_last() == old.series@,
        ({
            let e = new.series@.last();
            &&& e.block_number == o.block_number
            &&& e.reads == o.reads
            &&& e.hits == o.hits
            &&& e.misses == o.misses
            &&& e.invalidations == o.invalidations
            &&& e.occupancy == o.occupancy
            &&& e.witness_naive == o.witness.naive
            &&& e.witness_sent == o.witness.sent
            &&& e.bytes_saved == o.witness.saved
            &&& e.floor == o.witness.floor
            &&& e.bytes_sent_stem == o.witness.sent_stem
            &&& e.cache_bytes == (o.footprint.leaf_entries * 33 + o.footprint.stem_entries * 128) as u64
        }),
{
    assert(new.series@.drop_last() =~= old.series@);
}

/// The sum of `f` over the outcomes `os`.
pub open spec fn outcome_sum(os: Seq<BlockOutcome>, f: spec_fn(BlockOutcome) -> nat) -> nat
    decreases os.len(),
{
    if os.len() == 0 {
        0
    } else {
        outcome_sum(os.drop_last(), f) + f(os.last())
    }
}

/// The largest value of `f` over the outcomes `os`, or zero for none.
pub open spec fn outcome_max(os: Seq<BlockOutcome>, f: spec_fn(BlockOutcome) -> nat) -> nat
    decreases os.len(),
{
    if os.len() == 0 {
        0
    } else {
        let m = outcome_max(os.drop_last(), f);
        if f(os.last()) > m {
            f(os.last())
        } else {
            m
        }
    }
}

/// `ms` are the states of a sink recording the outcomes `os` one by one.
pub open spec fn records_each(ms: Seq<RunMetrics>, os: Seq<BlockOutcome>) -> bool {
    &&& ms.len() == os.len() + 1
    &&& forall|i: int| 0 <= i < os.len() ==> #[trigger] recorded_block(ms[i], ms[i + 1], os[i])
}

/// A sink that starts fresh and records the outcomes `os` ends with one
/// series entry per outcome, in order, carrying that outcome's reads, hits
/// and misses; its totals of reads, hits, misses, stem invalidations and
/// witness bytes are the sums over the outcomes; and its peak occupancy and
/// peak footprint (33 bytes per leaf, 128 per extension node) are the
/// largest over the outcomes.
pub proof fn lemma_totals_are_sums(ms: Seq<RunMetrics>, os: Seq<BlockOutcome>)
    requires
        records_each(ms, os),
        ms[0].is_fresh(),
    ensures
        ({
            let m = ms.last();
            &&& m.blocks_counted == os.len()
            &&& m.series@.len() == os.len()
            &&& forall|i: int|
                0 <= i < os.len() ==> (#[trigger] m.series@[i]).block_number == os[i].block_number
                    && m.series@[i].reads == os[i].reads && m.series@[i].hits == os[i].hits
                    && m.series@[i].misses == os[i].misses
            &&& m.total_reads == outcome_sum(os, |o: BlockOutcome| o.reads as nat)
            &&& m.total_hits == outcome_sum(os, |o: BlockOutcome| o.hits as nat)
            &&& m.total_misses == outcome_sum(os, |o: BlockOutcome| o.misses as nat)
            &&& m.total_stem_invalidations == outcome_sum(os, |o: BlockOutcome| o.stem_invalidations as nat)
            &&& m.total_witness_bytes_naive == outcome_sum(os, |o: BlockOutcome| o.witness.naive as nat)
            &&& m.total_witness_bytes_sent == outcome_sum(os, |o: BlockOutcome| o.witness.sent as nat)
            &&& m.total_witness_bytes_sent_stem == outcome_sum(
                os,
                |o: BlockOutcome| o.witness.sent_stem as nat,
            )
            &&& m.total_witness_bytes_sent_stem_opt == outcome_sum(
                os,
                |o: BlockOutcome| o.witness.sent_stem_opt as nat,
            )
            &&& m.peak_occupancy == outcome_max(os, |o: BlockOutcome| o.occupancy as nat)
            &&& m.peak_cache_bytes == outcome_max(
                os,
                |o: BlockOutcome| (o.footprint.leaf_entries * 33 + o.footprint.stem_entries * 128) as nat,
            )
        }),
    decreases os.len(),
{
    if os.len() > 0 {
        let n = os.len() - 1;
        let ms0 = ms.drop_last();
        let os0 = os.drop_last();
        assert forall|i: int| 0 <= i < os0.len() implies #[trigger] recorded_block(ms0[i], ms0[i + 1], os0[i]) by {
            assert(recorded_block(ms[i], ms[i + 1], os[i]));
        }
        lemma_totals_are_sums(ms0, os0);
        let a = ms[n];
        let b = ms[n + 1];
        assert(recorded_block(a, b, os[n]));
        assert(ms0.last() == a);
        assert(ms.last() == b);
        assert(os.last() == os[n]);
        lemma_series_entry_is_the_block(a, b, os[n]);
        assert forall|i: int| 0 <= i < os.len() implies (#[trigger] b.series@[i]).block_number
            == os[i].block_number && b.series@[i].reads == os[i].reads && b.series@[i].hits == os[i].hits
            && b.series@[i].misses == os[i].misses by {
            if i < n {
                assert(b.series@[i] == a.series@[i]);
                assert(os0[i] == os[i]);
            }
        }
    }
}

impl RunMetrics {
    /// The run-level laws that hold whatever outcomes were recorded: each
    /// sample sits in one survival bucket, contract counts add up to the leaf
    /// invalidations, one series entry per counted block, and the peak
    /// footprint splits into its leaf and stem parts and bounds every block's.
    pub open spec fn wf(&self) -> bool {
        &&& self.survival.wf()
        &&& self.stem_survival.wf()
        &&& self.contracts.wf()
        &&& self.contracts.total() == self.total_invalidations
        &&& self.series@.len() == self.blocks_counted
        &&& self.peak_leaf_bytes + self.peak_stem_bytes == self.peak_cache_bytes
        &&& forall|i: int|
            0 <= i < self.series@.len() ==> (#[trigger] self.series@[i]).cache_bytes
                <= self.peak_cache_bytes && self.series@[i].occupancy <= self.peak_occupancy
        &&& self.total_cache_bytes == cache_sum(self.series@)
    }

    /// The laws of totals built from consistent block outcomes: every read is
    /// a hit or a miss, and the byte totals keep the order of the per-block
    /// witness sizes.
    pub open spec fn consistent(&self) -> bool {
        &&& self.total_hits + self.total_misses == self.total_reads
        &&& self.total_noncacheable_floor_bytes <= self.total_witness_bytes_sent_stem_opt
        &&& self.total_witness_bytes_sent_stem_opt <= self.total_witness_bytes_sent
        &&& self.total_witness_bytes_sent <= self.total_witness_bytes_naive
        &&& self.total_witness_bytes_sent_stem <= self.total_witness_bytes_naive
        &&& self.total_bytes_saved + self.total_witness_bytes_sent == self.total_witness_bytes_naive
    }

    /// Room in every counter for one more block's outcome `o`.
    pub open spec fn room_for_block(&self, o: BlockOutcome) -> bool {
        &&& self.blocks_counted < u64::MAX
        &&& self.total_reads + o.reads <= u64::MAX
        &&& self.total_hits + o.hits <= u64::MAX
        &&& self.total_misses + o.misses <= u64::MAX
        &&& self.total_stem_invalidations + o.stem_invalidations <= u64::MAX
        &&& self.total_witness_bytes_naive + o.witness.naive <= u64::MAX
        &&& self.total_witness_bytes_sent + o.witness.sent <= u64::MAX
        &&& self.total_bytes_saved + o.witness.saved <= u64::MAX
        &&& self.total_noncacheable_floor_bytes + o.witness.floor <= u64::MAX
        &&& self.total_witness_bytes_sent_stem + o.witness.sent_stem <= u64::MAX
        &&& self.total_witness_bytes_sent_stem_opt + o.witness.sent_stem_opt <= u64::MAX
        &&& self.total_cache_bytes + footprint_bytes(o.footprint) <= u64::MAX
    }

    /// Room in every counter for all of one block's events.
    pub open spec fn room_for_events(&self, ev: BlockEvents) -> bool {
        &&& self.survival.n + ev.survival@.len() <= u64::MAX
        &&& self.survival.sum_age + age_sum(ev.survival@) <= u64::MAX
        &&& self.stem_survival.n + ev.stem_survival@.len() <= u64::MAX
        &&& self.stem_survival.sum_age + age_sum(ev.stem_survival@) <= u64::MAX
        &&& self.total_invalidations + ev.invalidated@.len() <= u64::MAX
        &&& self.room_for_block(ev.outcome)
    }

    /// Whether every counter has room for all of `ev`.
    pub fn room_for(&self, ev: &BlockEvents) -> (r: bool)
        ensures
            r == self.room_for_events(*ev),
    {
        let o = ev.outcome;
        let wb = o.witness;
        let fb = match o.footprint.leaf_entries.checked_mul(LEAF_ENTRY_BYTES) {
            Some(a) => match o.footprint.stem_entries.checked_mul(STEM_ENTRY_BYTES) {
                Some(b) => a.checked_add(b),
                None => None,
            },
            None => None,
        };
        let fb = match fb {
            Some(x) => x,
            None => {
                return false;
            },
        };
        let lim = u64::MAX;
        (ev.survival.len() as u64) <= lim - self.survival.n && ages_fit(self.survival.sum_age, &ev.survival)
            && (ev.stem_survival.len() as u64) <= lim - self.stem_survival.n && ages_fit(
            self.stem_survival.sum_age,
            &ev.stem_survival,
        ) && (ev.invalidated.len() as u64) <= lim - self.total_invalidations && self.blocks_counted < lim
            && o.reads as u64 <= lim - self.total_reads && o.hits as u64 <= lim - self.total_hits
            && o.misses as u64 <= lim - self.total_misses && o.stem_invalidations as u64 <= lim
            - self.total_stem_invalidations && wb.naive <= lim - self.total_witness_bytes_naive && wb.sent
            <= lim - self.total_witness_bytes_sent && wb.saved <= lim - self.total_bytes_saved && wb.floor
            <= lim - self.total_noncacheable_floor_bytes && wb.sent_stem <= lim
            - self.total_witness_bytes_sent_stem && wb.sent_stem_opt <= lim
            - self.total_witness_bytes_sent_stem_opt && fb <= lim - self.total_cache_bytes
    }

    /// A sink that has counted nothing: no blocks, no samples, no contract
    /// counts, and every total, histogram bucket and peak zero.
    pub open spec fn is_fresh(&self) -> bool {
        &&& self.blocks_counted == 0
        &&& self.total_reads == 0
        &&& self.total_hits == 0
        &&& self.total_misses == 0
        &&& self.total_invalidations == 0
        &&& self.total_stem_invalidations == 0
        &&& self.peak_occupancy == 0
        &&& self.peak_stem_occupancy == 0
        &&& self.survival.n == 0
        &&& self.survival.sum_age == 0
        &&& forall|b: int| 0 <= b < SURVIVAL_BUCKETS ==> self.survival.buckets[b] == 0
        &&& self.stem_survival.n == 0
        &&& self.stem_survival.sum_age == 0
        &&& forall|b: int| 0 <= b < SURVIVAL_BUCKETS ==> self.stem_survival.buckets[b] == 0
        &&& self.contracts.counts@ == Seq::<(Address, u64)>::empty()
        &&& self.series@ == Seq::<BlockSample>::empty()
        &&& self.total_witness_bytes_naive == 0
        &&& self.total_witness_bytes_sent == 0
        &&& self.total_bytes_saved == 0
        &&& self.total_noncacheable_floor_bytes == 0
        &&& self.total_witness_bytes_sent_stem == 0
        &&& self.total_witness_bytes_sent_stem_opt == 0
        &&& self.total_cache_bytes == 0
        &&& self.peak_cache_bytes == 0
        &&& self.peak_leaf_bytes == 0
        &&& self.peak_stem_bytes == 0
    }

    pub fn new() -> (m: Self)
        ensures
            m.wf(),
            m.consistent(),
            m.is_fresh(),
    {
        RunMetrics {
            blocks_counted: 0,
            total_reads: 0,
            total_hits: 0,
            total_misses: 0,
            total_invalidations: 0,
            total_stem_invalidations: 0,
            peak_occupancy: 0,
            peak_stem_occupancy: 0,
            survival: SurvivalHistogram::new(),
            stem_survival: SurvivalHistogram::new(),
            contracts: ContractInvalidations::new(),
            series: Vec::new(),
            total_witness_bytes_naive: 0,
            total_witness_bytes_sent: 0,
            total_bytes_saved: 0,
            total_noncacheable_floor_bytes: 0,
            total_witness_bytes_sent_stem: 0,
            total_witness_bytes_sent_stem_opt: 0,
            total_cache_bytes: 0,
            peak_cache_bytes: 0,
            peak_leaf_bytes: 0,
            peak_stem_bytes: 0,
        }
    }

    /// Records the survival age of a leaf leaving the cache.
    pub fn record_survival(&mut self, age: u64)
        requires
            old(self).wf(),
            old(self).survival.n < u64::MAX,
            old(self).survival.sum_age + age <= u64::MAX,
        ensures
            final(self).wf(),
            histogram_absorbed(old(self).survival, final(self).survival, seq![age]),
            final(self).stem_survival == old(self).stem_survival,
            final(self).contracts.counts@ == old(self).contracts.counts@,
            final(self).total_invalidations == old(self).total_invalidations,
            recorded_nothing(*old(self), *final(self)),
    {
        let ghost h0 = self.survival;
        self.survival.record(age);
        proof {
            lemma_single_age(age);
            assert forall|b: int| 0 <= b < SURVIVAL_BUCKETS implies #[trigger] self.survival.buckets[b]
                == h0.buckets[b] + bucket_count(seq![age], b as nat) by {
                assert(self.survival.buckets@[b] == self.survival.buckets[b]);
                assert(h0.buckets@[b] == h0.buckets[b]);
                let c = bucket_count(seq![age], b as nat);
                if bucket_spec(age) == b {
                    assert(c == 1);
                } else {
                    assert(c == 0);
                    assert(self.survival.buckets@[b] == h0.buckets@[b]);
                }
            }
        }
    }

    /// Records the survival age of an extension node leaving its cache.
    pub fn record_stem_survival(&mut self, age: u64)
        requires
            old(self).wf(),
            old(self).stem_survival.n < u64::MAX,
            old(self).stem_survival.sum_age + age <= u64::MAX,
        ensures
            final(self).wf(),
            histogram_absorbed(old(self).stem_survival, final(self).stem_survival, seq![age]),
            final(self).survival == old(self).survival,
            final(self).contracts.counts@ == old(self).contracts.counts@,
            final(self).total_invalidations == old(self).total_invalidations,
            recorded_nothing(*old(self), *final(self)),
    {
        let ghost h0 = self.stem_survival;
        self.stem_survival.record(age);
        proof {
            lemma_single_age(age);
            assert forall|b: int| 0 <= b < SURVIVAL_BUCKETS implies #[trigger] self.stem_survival.buckets[b]
                == h0.buckets[b] + bucket_count(seq![age], b as nat) by {
                assert(self.stem_survival.buckets@[b] == self.stem_survival.buckets[b]);
                assert(h0.buckets@[b] == h0.buckets[b]);
                let c = bucket_count(seq![age], b as nat);
                if bucket_spec(age) == b {
                    assert(c == 1);
                } else {
                    assert(c == 0);
                    assert(self.stem_survival.buckets@[b] == h0.buckets@[b]);
                }
            }
        }
    }

    /// Records the invalidation of a leaf of contract `addr`.
    pub fn record_invalidation(&mut self, addr: Address)
        requires
            old(self).wf(),
            old(self).total_invalidations < u64::MAX,
        ensures
            final(self).wf(),
            final(self).contracts.counts@ == counted(old(self).contracts.counts@, addr),
            final(self).total_invalidations == old(self).total_invalidations + 1,
            final(self).survival == old(self).survival,
            final(self).stem_survival == old(self).stem_survival,
            recorded_nothing(*old(self), *final(self)),
    {
        self.contracts.record(addr);
        self.total_invalidations = self.total_invalidations + 1;
    }

    /// Records the outcome of one counted block.
    pub fn record_block(&mut self, o: BlockOutcome)
        requires
            old(self).wf(),
            old(self).room_for_block(o),
        ensures
            final(self).wf(),
            recorded_block(*old(self), *final(self), o),
            old(self).consistent() && outcome_ok(o) ==> final(self).consistent(),
            final(self).survival == old(self).survival,
            final(self).stem_survival == old(self).stem_survival,
            final(self).contracts.counts@ == old(self).contracts.counts@,
            final(self).total_invalidations == old(self).total_invalidations,
    {
        let ghost s0 = self.series@;
        let fp = o.footprint;
        let leaf_bytes = fp.leaf_bytes();
        let stem_bytes = fp.stem_bytes();
        let cache_bytes = fp.total_bytes();
        self.blocks_counted = self.blocks_counted + 1;
        self.total_reads = self.total_reads + o.reads as u64;
        self.total_hits = self.total_hits + o.hits as u64;
        self.total_misses = self.total_misses + o.misses as u64;
        self.total_stem_invalidations = self.total_stem_invalidations + o.stem_invalidations as u64;
        if o.occupancy > self.peak_occupancy {
            self.peak_occupancy = o.occupancy;
        }
        if o.stem_occupancy > self.peak_stem_occupancy {
            self.peak_stem_occupancy = o.stem_occupancy;
        }
        let wb = o.witness;
        self.total_witness_bytes_naive = self.total_witness_bytes_naive + wb.naive;
        self.total_witness_bytes_sent = self.total_witness_bytes_sent + wb.sent;
        self.total_bytes_saved = self.total_bytes_saved + wb.saved;
        self.total_noncacheable_floor_bytes = self.total_noncacheable_floor_bytes + wb.floor;
        self.total_witness_bytes_sent_stem = self.total_witness_bytes_sent_stem + wb.sent_stem;
        self.total_witness_bytes_sent_stem_opt = self.total_witness_bytes_sent_stem_opt + wb.sent_stem_opt;
        self.total_cache_bytes = self.total_cache_bytes + cache_bytes;
        if cache_bytes > self.peak_cache_bytes {
            self.peak_cache_bytes = cache_bytes;
            self.peak_leaf_bytes = leaf_bytes;
            self.peak_stem_bytes = stem_bytes;
        }
        self.series.push(
            BlockSample {
                block_number: o.block_number,
                reads: o.reads,
                hits: o.hits,
                misses: o.misses,
                invalidations: o.invalidations,
                occupancy: o.occupancy,
                witness_naive: wb.naive,
                witness_sent: wb.sent,
                bytes_saved: wb.saved,
                floor: wb.floor,
                bytes_sent_stem: wb.sent_stem,
                cache_bytes,
            },
        );
        proof {
            assert(self.series@.drop_last() =~= s0);
            assert forall|i: int| 0 <= i < self.series@.len() implies (#[trigger] self.series@[i]).cache_bytes
                <= self.peak_cache_bytes && self.series@[i].occupancy <= self.peak_occupancy by {
                if i < s0.len() {
                    assert(self.series@[i] == s0[i]);
                }
            }
        }
    }

    /// Records everything one counted block contributes.
    pub fn absorb(&mut self, ev: &BlockEvents)
        requires
            old(self).wf(),
            old(self).room_for_events(*ev),
        ensures
            final(self).wf(),
            absorbed(*old(self), *final(self), *ev),
            old(self).consistent() && outcome_ok(ev.outcome) ==> final(self).consistent(),
    {
        let ghost m0 = *self;
        let mut i: usize = 0;
        while i < ev.survival.len()
            invariant
                self.wf(),
                0 <= i <= ev.survival@.len(),
                histogram_absorbed(m0.survival, self.survival, ev.survival@.take(i as int)),
                m0.survival.n + ev.survival@.len() <= u64::MAX,
                m0.survival.sum_age + age_sum(ev.survival@) <= u64::MAX,
                self.stem_survival == m0.stem_survival,
                self.contracts.counts@ == m0.contracts.counts@,
                self.total_invalidations == m0.total_invalidations,
                recorded_nothing(m0, *self),
            decreases ev.survival@.len() - i,
        {
            proof {
                lemma_age_prefix(ev.survival@, i as int);
            }
            let ghost h = self.survival;
            self.record_survival(ev.survival[i]);
            proof {
                lemma_absorb_step(m0.survival, h, self.survival, ev.survival@, i as int);
            }
            i = i + 1;
        }
        proof {
            assert(ev.survival@.take(ev.survival@.len() as int) =~= ev.survival@);
        }
        let mut j: usize = 0;
        while j < ev.stem_survival.len()
            invariant
                self.wf(),
                0 <= j <= ev.stem_survival@.len(),
                histogram_absorbed(m0.survival, self.survival, ev.survival@),
                histogram_absorbed(m0.stem_survival, self.stem_survival, ev.stem_survival@.take(j as int)),
                m0.stem_survival.n + ev.stem_survival@.len() <= u64::MAX,
                m0.stem_survival.sum_age + age_sum(ev.stem_survival@) <= u64::MAX,
                self.contracts.counts@ == m0.contracts.counts@,
                self.total_invalidations == m0.total_invalidations,
                recorded_nothing(m0, *self),
            decreases ev.stem_survival@.len() - j,
        {
            proof {
                lemma_age_prefix(ev.stem_survival@, j as int);
            }
            let ghost h = self.stem_survival;
            self.record_stem_survival(ev.stem_survival[j]);
            proof {
                lemma_absorb_step(m0.stem_survival, h, self.stem_survival, ev.stem_survival@, j as int);
            }
            j = j + 1;
        }
        proof {
            assert(ev.stem_survival@.take(ev.stem_survival@.len() as int) =~= ev.stem_survival@);
        }
        let mut k: usize = 0;
        while k < ev.invalidated.len()
            invariant
                self.wf(),
                0 <= k <= ev.invalidated@.len(),
                histogram_absorbed(m0.survival, self.survival, ev.survival@),
                histogram_absorbed(m0.stem_survival, self.stem_survival, ev.stem_survival@),
                self.contracts.counts@ == counted_all(m0.contracts.counts@, ev.invalidated@.take(k as int)),
                self.total_invalidations == m0.total_invalidations + k,
                m0.total_invalidations + ev.invalidated@.len() <= u64::MAX,
                recorded_nothing(m0, *self),
            decreases ev.invalidated@.len() - k,
        {
            proof {
                assert(ev.invalidated@.take(k + 1).drop_last() =~= ev.invalidated@.take(k as int));
                assert(ev.invalidated@.take(k + 1).last() == ev.invalidated@[k as int]);
            }
            self.record_invalidation(ev.invalidated[k]);
            k = k + 1;
        }
        proof {
            assert(ev.invalidated@.take(ev.invalidated@.len() as int) =~= ev.invalidated@);
        }
        self.record_block(ev.outcome);
    }
}

/// `new` is `old` after absorbing all of one block's events.
pub open spec fn absorbed(old: RunMetrics, new: RunMetrics, ev: BlockEvents) -> bool {
    &&& histogram_absorbed(old.survival, new.survival, ev.survival@)
    &&& histogram_absorbed(old.stem_survival, new.stem_survival, ev.stem_survival@)
    &&& new.contracts.counts@ == counted_all(old.contracts.counts@, ev.invalidated@)
    &&& new.total_invalidations == old.total_invalidations + ev.invalidated@.len()
    &&& recorded_block(old, new, ev.outcome)
}

/// The sum of ages that are each at most `now` is at most `now` per age.
pub proof fn lemma_age_sum_bound(v: Seq<u64>, now: u64)
    requires
        forall|i: int| 0 <= i < v.len() ==> v[i] <= now,
    ensures
        age_sum(v) <= v.len() * now,
    decreases v.len(),
{
    if v.len() > 0 {
        let t = v.drop_last();
        assert forall|i: int| 0 <= i < t.len() implies t[i] <= now by {
            assert(t[i] == v[i]);
        }
        lemma_age_sum_bound(t, now);
        assert(v.last() == v[v.len() - 1]);
        assert(age_sum(v) <= v.len() * now) by (nonlinear_arith)
            requires
                age_sum(v) == age_sum(t) + v.last(),
                age_sum(t) <= t.len() * now,
                v.last() <= now,
                t.len() + 1 == v.len(),
        ;
    }
}

/// Nothing that `record_block` records has changed.
pub open spec fn recorded_nothing(old: RunMetrics, new: RunMetrics) -> bool {
    &&& new.blocks_counted == old.blocks_counted
    &&& new.total_reads == old.total_reads
    &&& new.total_hits == old.total_hits
    &&& new.total_misses == old.total_misses
    &&& new.total_stem_invalidations == old.total_stem_invalidations
    &&& new.peak_occupancy == old.peak_occupancy
    &&& new.peak_stem_occupancy == old.peak_stem_occupancy
    &&& new.total_witness_bytes_naive == old.total_witness_bytes_naive
    &&& new.total_witness_bytes_sent == old.total_witness_bytes_sent
    &&& new.total_bytes_saved == old.total_bytes_saved
    &&& new.total_noncacheable_floor_bytes == old.total_noncacheable_floor_bytes
    &&& new.total_witness_bytes_sent_stem == old.total_witness_bytes_sent_stem
    &&& new.total_witness_bytes_sent_stem_opt == old.total_witness_bytes_sent_stem_opt
    &&& new.total_cache_bytes == old.total_cache_bytes
    &&& new.peak_cache_bytes == old.peak_cache_bytes
    &&& new.peak_leaf_bytes == old.peak_leaf_bytes
    &&& new.peak_stem_bytes == old.peak_stem_bytes
    &&& new.series@ == old.series@
}

proof fn lemma_single_age(age: u64)
    ensures
        age_sum(seq![age]) == age,
        forall|b: nat| #[trigger] bucket_count(seq![age], b) == if bucket_spec(age) == b {
            1nat
        } else {
            0nat
        },
{
    assert(seq![age].drop_last() =~= Seq::<u64>::empty());
    assert(seq![age].last() == age);
    assert(age_sum(Seq::<u64>::empty()) == 0);
    assert forall|b: nat| #[trigger] bucket_count(seq![age], b) == if bucket_spec(age) == b {
        1nat
    } else {
        0nat
    } by {
        assert(bucket_count(Seq::<u64>::empty(), b) == 0);
    }
}

/// Whether `base` plus the sum of `ages` fits in 64 bits.
fn ages_fit(base: u64, ages: &Vec<u64>) -> (r: bool)
    ensures
        r == (base + age_sum(ages@) <= u64::MAX),
{
    let mut acc: u64 = base;
    let mut i: usize = 0;
    while i < ages.len()
        invariant
            0 <= i <= ages@.len(),
            acc == base + age_sum(ages@.take(i as int)),
        decreases ages@.len() - i,
    {
        proof {
            lemma_age_prefix(ages@, i as int);
        }
        match acc.checked_add(ages[i]) {
            Some(x) => {
                acc = x;
            },
            None => {
                return false;
            },
        }
        i = i + 1;
    }
    proof {
        assert(ages@.take(ages@.len() as int) =~= ages@);
    }
    true
}

proof fn lemma_age_prefix(ages: Seq<u64>, i: int)
    requires
        0 <= i < ages.len(),
    ensures
        ages.take(i + 1).drop_last() == ages.take(i),
        ages.take(i + 1).last() == ages[i],
        age_sum(ages.take(i + 1)) <= age_sum(ages),
{
    assert(ages.take(i + 1).drop_last() =~= ages.take(i));
    lemma_age_sum_prefix(ages, i + 1);
}

proof fn lemma_age_sum_prefix(ages: Seq<u64>, k: int)
    requires
        0 <= k <= ages.len(),
    ensures
        age_sum(ages.take(k)) <= age_sum(ages),
    decreases ages.len() - k,
{
    if k < ages.len() {
        lemma_age_sum_prefix(ages, k + 1);
        assert(ages.take(k + 1).drop_last() =~= ages.take(k));
    } else {
        assert(ages.take(k) =~= ages);
    }
}

proof fn lemma_absorb_step(
    h0: SurvivalHistogram,
    h: SurvivalHistogram,
    h1: SurvivalHistogram,
    ages: Seq<u64>,
    i: int,
)
    requires
        0 <= i < ages.len(),
        histogram_absorbed(h0, h, ages.take(i)),
        histogram_absorbed(h, h1, seq![ages[i]]),
        ages.take(i + 1).drop_last() == ages.take(i),
        ages.take(i + 1).last() == ages[i],
    ensures
        histogram_absorbed(h0, h1, ages.take(i + 1)),
{
    lemma_single_age(ages[i]);
    assert forall|b: int| 0 <= b < SURVIVAL_BUCKETS implies #[trigger] h1.buckets[b] == h0.buckets[b]
        + bucket_count(ages.take(i + 1), b as nat) by {
        assert(h.buckets[b] == h0.buckets[b] + bucket_count(ages.take(i), b as nat));
        assert(h1.buckets[b] == h.buckets[b] + bucket_count(seq![ages[i]], b as nat));
    }
}

/// The mean footprint never exceeds the peak: the summed footprint is at most
/// the peak times the number of counted blocks.
pub proof fn lemma_mean_within_peak(m: RunMetrics)
    requires
        m.wf(),
    ensures
        m.total_cache_bytes <= m.blocks_counted * m.peak_cache_bytes,
{
    lemma_cache_sum_bound(m.series@, m.peak_cache_bytes as nat);
}

proof fn lemma_cache_sum_bound(s: Seq<BlockSample>, p: nat)
    requires
        forall|i: int| 0 <= i < s.len() ==> (#[trigger] s[i]).cache_bytes <= p,
    ensures
        cache_sum(s) <= s.len() * p,
    decreases s.len(),
{
    if s.len() > 0 {
        let t = s.drop_last();
        assert forall|i: int| 0 <= i < t.len() implies (#[trigger] t[i]).cache_bytes <= p by {
            assert(t[i] == s[i]);
        }
        lemma_cache_sum_bound(t, p);
        assert(s.last() == s[s.len() - 1]);
        assert(cache_sum(s) <= s.len() * p) by (nonlinear_arith)
            requires
                cache_sum(s) == cache_sum(t) + s.last().cache_bytes,
                cache_sum(t) <= t.len() * p,
                s.last().cache_bytes <= p,
                t.len() + 1 == s.len(),
        ;
    }
}

impl Default for RunMetrics {
    fn default() -> (m: Self)
        ensures
            m.wf(),
            m.consistent(),
            m.is_fresh(),
    {
        RunMetrics::new()
    }
}

} // verus!

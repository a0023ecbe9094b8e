use vstd::prelude::*;

use crate::model::{Address, Key, address_eq, address_hash, le_word};
use crate::ordered::{
    OrderedMap, has_key, lemma_pos_of, lemma_push_unique, lemma_update_value, pos_of, unique_keys,
};
use crate::policy::CacheKey;

verus! {

pub const COMMITMENT_BYTES: u64 = 32;

pub const STEM_BYTES: u64 = 31;

pub const SUFFIX_BYTES: u64 = 1;

pub const VALUE_BYTES: u64 = 32;

pub const DEPTH_EXT_BYTES: u64 = 1;

pub const EXT_COMMITMENTS_BYTES: u64 = 2 * COMMITMENT_BYTES;

pub const IPA_LR_ROUNDS: u64 = 8;

pub const IPA_PROOF_BYTES: u64 = (2 * IPA_LR_ROUNDS + 1) * COMMITMENT_BYTES;

pub const MULTIPROOF_D_BYTES: u64 = COMMITMENT_BYTES;

/// The per-block proof that no cache can elide.
pub const IPA_FLOOR_BYTES: u64 = MULTIPROOF_D_BYTES + IPA_PROOF_BYTES;

/// Stem, extension depth and the two suffix commitments of an extension node.
pub const STEM_SCAFFOLD_BYTES: u64 = STEM_BYTES + DEPTH_EXT_BYTES + EXT_COMMITMENTS_BYTES;

/// What one cached leaf holds: its suffix and value.
pub const LEAF_ENTRY_BYTES: u64 = SUFFIX_BYTES + VALUE_BYTES;

/// What one cached extension node holds: its path commitment and scaffold.
pub const STEM_ENTRY_BYTES: u64 = COMMITMENT_BYTES + STEM_SCAFFOLD_BYTES;

/// Storage slots below this share the account's header stem.
pub const HEADER_STORAGE_OFFSET: u64 = 64;

pub const VERKLE_NODE_WIDTH: u64 = 256;

/// The bytes of `commitments_by_path` for `distinct_stems` stems.
pub fn commitments_by_path_bytes(distinct_stems: u64) -> (r: u64)
    requires
        distinct_stems * COMMITMENT_BYTES <= u64::MAX,
    ensures
        r == COMMITMENT_BYTES * distinct_stems,
{
    COMMITMENT_BYTES * distinct_stems
}

/// A Verkle stem: the account header stem, or one 256-slot storage chunk.
#[derive(Clone, Copy, PartialEq, Eq, Hash, Debug)]
pub struct StemId {
    pub addr: Address,
    pub storage: bool,
    pub chunk: [u8; 31],
}

impl StemId {
    fn header(addr: Address) -> (s: StemId)
        ensures
            s.addr == addr,
            !s.storage,
            forall|i: int| 0 <= i < 31 ==> s.chunk[i] == 0,
    {
        StemId { addr, storage: false, chunk: [0u8; 31] }
    }

    fn storage(addr: Address, chunk: [u8; 31]) -> (s: StemId)
        ensures
            s == (StemId { addr, storage: true, chunk }),
    {
        StemId { addr, storage: true, chunk }
    }
}

/// The leaf slot of a key: its stem and its suffix within the stem.
#[derive(Clone, Copy, PartialEq, Eq, Hash, Debug)]
pub struct LeafId {
    pub stem: StemId,
    pub suffix: u8,
}

/// Whether the first 31 bytes of a slot are zero and its last byte is below
/// `HEADER_STORAGE_OFFSET`, i.e. the slot lives under the header stem.
pub open spec fn below_header_offset(slot: Seq<u8>) -> bool {
    &&& forall|i: int| 0 <= i < 31 ==> slot[i] == 0
    &&& slot[31] < HEADER_STORAGE_OFFSET
}

/// The stem and suffix a key maps to (EIP-6800 layout, header as suffix 0).
pub open spec fn leaf_of(key: Key) -> (Address, bool, Seq<u8>, u8) {
    match key.slot {
        None => (key.addr, false, Seq::new(31, |i: int| 0u8), 0u8),
        Some(slot) => if below_header_offset(slot@) {
            (key.addr, false, Seq::new(31, |i: int| 0u8), (HEADER_STORAGE_OFFSET + slot@[31]) as u8)
        } else {
            (key.addr, true, slot@.subrange(0, 31), slot@[31])
        },
    }
}

/// `id` is the leaf that `key` maps to.
pub open spec fn is_leaf_of(id: (StemId, u8), key: Key) -> bool {
    let (a, st, ch, suf) = leaf_of(key);
    &&& id.0.addr == a
    &&& id.0.storage == st
    &&& id.0.chunk@ == ch
    &&& id.1 == suf
}

pub fn slot_below_header_offset(slot: &[u8; 32]) -> (r: bool)
    ensures
        r == below_header_offset(slot@),
{
    let mut i: usize = 0;
    while i < 31
        invariant
            0 <= i <= 31,
            forall|j: int| 0 <= j < i ==> slot@[j] == 0,
        decreases 31 - i,
    {
        if slot[i] != 0 {
            return false;
        }
        i = i + 1;
    }
    (slot[31] as u64) < HEADER_STORAGE_OFFSET
}

/// The stem and suffix of a key's leaf.
pub fn key_to_leaf(key: &Key) -> (r: (StemId, u8))
    ensures
        is_leaf_of(r, *key),
        r.0 == key_to_leaf_spec(*key).stem,
        r.1 == key_to_leaf_spec(*key).suffix,
{
    let r = match &key.slot {
        None => {
            let s = StemId::header(key.addr);
            proof {
                assert(s.chunk@ =~= Seq::new(31, |i: int| 0u8));
            }
            (s, 0)
        },
        Some(slot) => {
            if slot_below_header_offset(slot) {
                let suffix = (HEADER_STORAGE_OFFSET as u8) + slot[31];
                let s = StemId::header(key.addr);
                proof {
                    assert(s.chunk@ =~= Seq::new(31, |i: int| 0u8));
                }
                (s, suffix)
            } else {
                let mut chunk = [0u8; 31];
                let mut i: usize = 0;
                while i < 31
                    invariant
                        0 <= i <= 31,
                        forall|j: int| 0 <= j < i ==> chunk@[j] == slot@[j],
                    decreases 31 - i,
                {
                    chunk[i] = slot[i];
                    i = i + 1;
                }
                let suffix = slot[31];
                proof {
                    assert(chunk@ =~= slot@.subrange(0, 31));
                }
                (StemId::storage(key.addr, chunk), suffix)
            }
        },
    };
    proof {
        lemma_leaf_id_unique(*key, LeafId { stem: r.0, suffix: r.1 });
    }
    r
}


fn chunk_equal(a: &[u8; 31], b: &[u8; 31]) -> (r: bool)
    ensures
        r == (*a == *b),
{
    let mut i: usize = 0;
    while i < 31
        invariant
            0 <= i <= 31,
            forall|j: int| 0 <= j < i ==> a@[j] == b@[j],
        decreases 31 - i,
    {
        if a[i] != b[i] {
            return false;
        }
        i = i + 1;
    }
    proof {
        assert(*a =~= *b);
    }
    true
}

fn chunk_word(a: &[u8; 31]) -> (r: u64)
    ensures
        r == le_word(a@, 23),
{
    let s = a.as_slice();
    (s[23] as u64) | ((s[24] as u64) << 8u64) | ((s[25] as u64) << 16u64) | ((s[26] as u64)
        << 24u64) | ((s[27] as u64) << 32u64) | ((s[28] as u64) << 40u64) | ((s[29] as u64)
        << 48u64) | ((s[30] as u64) << 56u64)
}

impl CacheKey for StemId {
    open spec fn key_hash(&self) -> u64 {
        address_hash(self.addr.0@) ^ le_word(self.chunk@, 23) ^ (if self.storage {
            0x5bd1_e995_5bd1_e995u64
        } else {
            0u64
        })
    }

    fn fingerprint(&self) -> (r: u64) {
        let a = self.addr.fingerprint();
        let w = chunk_word(&self.chunk);
        a ^ w ^ (if self.storage {
            0x5bd1_e995_5bd1_e995u64
        } else {
            0u64
        })
    }

    fn same_key(&self, other: &Self) -> (r: bool) {
        address_eq(&self.addr, &other.addr) && self.storage == other.storage && chunk_equal(
            &self.chunk,
            &other.chunk,
        )
    }
}

impl CacheKey for LeafId {
    open spec fn key_hash(&self) -> u64 {
        self.stem.key_hash() ^ ((self.suffix as u64) << 40u64)
    }

    fn fingerprint(&self) -> (r: u64) {
        self.stem.fingerprint() ^ ((self.suffix as u64) << 40u64)
    }

    fn same_key(&self, other: &Self) -> (r: bool) {
        self.suffix == other.suffix && self.stem.same_key(&other.stem)
    }
}

/// What a block does to one leaf: whether the client held it when the block
/// began (before its writes), and whether the block writes it.
#[derive(Clone, Copy, Debug, PartialEq, Eq)]
pub struct LeafState {
    pub resident: bool,
    pub written: bool,
}

/// The leaves (and, for the extension-node cache, the stems) one block touches.
pub struct BlockWitnessAccum {
    leaves: OrderedMap<LeafId, LeafState>,
    stems: OrderedMap<StemId, bool>,
}

/// Two records of one leaf combine: resident only if resident both times,
/// written if written either time.
pub open spec fn merge_leaf(a: LeafState, resident: bool, written: bool) -> LeafState {
    LeafState { resident: a.resident && resident, written: a.written || written }
}

/// The touched leaves after one more touch of `key`: a leaf seen before merges
/// the new record into its state in place; a new leaf is appended.
pub open spec fn recorded(
    s: Seq<(LeafId, LeafState)>,
    key: Key,
    resident: bool,
    written: bool,
) -> Seq<(LeafId, LeafState)> {
    let id = key_to_leaf_spec(key);
    if has_key(s, id) {
        s.update(pos_of(s, id), (id, merge_leaf(s[pos_of(s, id)].1, resident, written)))
    } else {
        s.push((id, LeafState { resident, written }))
    }
}

/// Two touches of one key within a block may come in either order: the
/// touched leaves end up the same.
pub proof fn lemma_record_order_irrelevant(
    s: Seq<(LeafId, LeafState)>,
    key: Key,
    r1: bool,
    w1: bool,
    r2: bool,
    w2: bool,
)
    requires
        unique_keys(s),
    ensures
        recorded(recorded(s, key, r1, w1), key, r2, w2) == recorded(
            recorded(s, key, r2, w2),
            key,
            r1,
            w1,
        ),
{
    let id = key_to_leaf_spec(key);
    if has_key(s, id) {
        let p = pos_of(s, id);
        lemma_pos_of(s, id);
        lemma_update_value(s, p, merge_leaf(s[p].1, r1, w1));
        lemma_update_value(s, p, merge_leaf(s[p].1, r2, w2));
        assert(recorded(recorded(s, key, r1, w1), key, r2, w2) =~= recorded(
            recorded(s, key, r2, w2),
            key,
            r1,
            w1,
        ));
    } else {
        let a = s.push((id, LeafState { resident: r1, written: w1 }));
        let b = s.push((id, LeafState { resident: r2, written: w2 }));
        lemma_push_unique(s, (id, LeafState { resident: r1, written: w1 }));
        lemma_push_unique(s, (id, LeafState { resident: r2, written: w2 }));
        assert(a[s.len() as int].0 == id);
        assert(b[s.len() as int].0 == id);
        lemma_pos_of(a, id);
        lemma_pos_of(b, id);
        assert(recorded(recorded(s, key, r1, w1), key, r2, w2) =~= recorded(
            recorded(s, key, r2, w2),
            key,
            r1,
            w1,
        ));
    }
}

impl BlockWitnessAccum {
    /// The touched leaves, in first-touch order.
    pub closed spec fn leaves(&self) -> Seq<(LeafId, LeafState)> {
        self.leaves@
    }

    /// The stems whose extension-node residency was recorded, with it.
    pub closed spec fn stems(&self) -> Seq<(StemId, bool)> {
        self.stems@
    }

    pub closed spec fn wf(&self) -> bool {
        self.leaves.wf() && self.stems.wf()
    }

    pub proof fn lemma_unique(&self)
        requires
            self.wf(),
        ensures
            unique_keys(self.leaves()),
            unique_keys(self.stems()),
    {
    }

    pub fn new() -> (r: Self)
        ensures
            r.wf(),
            r.leaves() == Seq::<(LeafId, LeafState)>::empty(),
            r.stems() == Seq::<(StemId, bool)>::empty(),
    {
        BlockWitnessAccum { leaves: OrderedMap::new(), stems: OrderedMap::new() }
    }

    /// Records a touch of `key`'s leaf.
    pub fn record_leaf(&mut self, key: &Key, resident: bool, written: bool)
        requires
            old(self).wf(),
        ensures
            final(self).wf(),
            final(self).stems() == old(self).stems(),
            final(self).leaves() == recorded(old(self).leaves(), *key, resident, written),
    {
        let (stem, suffix) = key_to_leaf(key);
        let id = LeafId { stem, suffix };
        proof {
            lemma_leaf_id_unique(*key, id);
        }
        match self.leaves.get(&id) {
            Some(st) => {
                let merged = LeafState { resident: st.resident && resident, written: st.written || written };
                self.leaves.set_value(&id, merged);
            },
            None => {
                self.leaves.push_back(id, LeafState { resident, written });
            },
        }
    }

    /// Records whether the extension node of stem `id` is cached.
    pub fn record_stem(&mut self, id: StemId, resident: bool)
        requires
            old(self).wf(),
        ensures
            final(self).wf(),
            final(self).leaves() == old(self).leaves(),
            has_key(old(self).stems(), id) ==> final(self).stems() == old(self).stems().update(
                pos_of(old(self).stems(), id),
                (id, resident),
            ),
            !has_key(old(self).stems(), id) ==> final(self).stems() == old(self).stems().push((id, resident)),
    {
        if !self.stems.set_value(&id, resident) {
            self.stems.push_back(id, resident);
        }
    }
}

impl Default for BlockWitnessAccum {
    fn default() -> (r: Self)
        ensures
            r.wf(),
            r.leaves() == Seq::<(LeafId, LeafState)>::empty(),
            r.stems() == Seq::<(StemId, bool)>::empty(),
    {
        BlockWitnessAccum::new()
    }
}

/// The leaf id of a key.
pub open spec fn key_to_leaf_spec(key: Key) -> LeafId {
    let (a, st, ch, suf) = leaf_of(key);
    LeafId { stem: StemId { addr: a, storage: st, chunk: spec_chunk(ch) }, suffix: suf }
}

/// The 31-byte array with the given contents.
pub open spec fn spec_chunk(ch: Seq<u8>) -> [u8; 31] {
    choose|a: [u8; 31]| a@ == ch
}

/// Distinct keys map to distinct leaves: a leaf is the leaf of at most one
/// key.
pub proof fn lemma_leaf_of_injective(a: Key, b: Key, id: (StemId, u8))
    requires
        is_leaf_of(id, a),
        is_leaf_of(id, b),
    ensures
        a == b,
{
    match (a.slot, b.slot) {
        (Some(x), Some(y)) => {
            if below_header_offset(x@) && below_header_offset(y@) {
                assert forall|i: int| 0 <= i < 32 implies x@[i] == y@[i] by {
                    if i == 31 {
                        assert(x@[31] == y@[31]);
                    }
                }
            } else if !below_header_offset(x@) && !below_header_offset(y@) {
                assert forall|i: int| 0 <= i < 32 implies x@[i] == y@[i] by {
                    if i < 31 {
                        assert(x@.subrange(0, 31)[i] == y@.subrange(0, 31)[i]);
                    }
                }
            }
            assert(x@ =~= y@);
            assert(x == y);
        },
        _ => {},
    }
}

proof fn lemma_leaf_id_unique(key: Key, id: LeafId)
    requires
        is_leaf_of((id.stem, id.suffix), key),
    ensures
        id == key_to_leaf_spec(key),
{
    let (a, st, ch, suf) = leaf_of(key);
    assert(ch.len() == 31);
    assert(exists|x: [u8; 31]| x@ == ch) by {
        assert(id.stem.chunk@ == ch);
    }
    let c2 = spec_chunk(ch);
    assert(c2@ == ch);
    assert(c2 =~= id.stem.chunk);
}


/// How many entries of each kind the two caches hold.
#[derive(Debug, Clone, Copy, PartialEq, Eq)]
pub struct CacheFootprint {
    pub leaf_entries: u64,
    pub stem_entries: u64,
}

impl CacheFootprint {
    /// Bytes held by the leaf cache.
    pub fn leaf_bytes(&self) -> (r: u64)
        requires
            self.leaf_entries * LEAF_ENTRY_BYTES <= u64::MAX,
        ensures
            r == self.leaf_entries * LEAF_ENTRY_BYTES,
    {
        self.leaf_entries * LEAF_ENTRY_BYTES
    }

    /// Bytes held by the extension-node cache.
    pub fn stem_bytes(&self) -> (r: u64)
        requires
            self.stem_entries * STEM_ENTRY_BYTES <= u64::MAX,
        ensures
            r == self.stem_entries * STEM_ENTRY_BYTES,
    {
        self.stem_entries * STEM_ENTRY_BYTES
    }

    /// Bytes held by both caches.
    pub fn total_bytes(&self) -> (r: u64)
        requires
            self.leaf_entries * LEAF_ENTRY_BYTES + self.stem_entries * STEM_ENTRY_BYTES <= u64::MAX,
        ensures
            r == self.leaf_entries * LEAF_ENTRY_BYTES + self.stem_entries * STEM_ENTRY_BYTES,
    {
        self.leaf_bytes() + self.stem_bytes()
    }
}

/// The witness size of one block under each accounting rule.
#[derive(Debug, Clone, Copy, PartialEq, Eq)]
pub struct BlockWitnessBytes {
    /// With no cache at all.
    pub naive: u64,
    /// With the leaf cache, under the published per-stem rule.
    pub sent: u64,
    /// `naive - sent`.
    pub saved: u64,
    /// The proof bytes no cache can elide.
    pub floor: u64,
    /// With the leaf cache and the extension-node cache.
    pub sent_stem: u64,
    /// With the leaf cache, under the relaxed per-stem rule.
    pub sent_stem_opt: u64,
}

/// What a block's touched leaves under one stem amount to: whether any leaf is
/// not held clean (`dirty`), whether any is held clean (`resident`), and
/// whether any is written.
#[derive(Debug, Clone, Copy, PartialEq, Eq)]
pub struct StemAcc {
    pub dirty: bool,
    pub resident: bool,
    pub written: bool,
}

/// A leaf held by the client and not written this block.
pub open spec fn leaf_clean(st: LeafState) -> bool {
    st.resident && !st.written
}

/// A leaf's bytes with no cache: suffix and value, plus the new value if written.
pub open spec fn leaf_naive_bytes(st: LeafState) -> nat {
    (SUFFIX_BYTES + VALUE_BYTES + if st.written {
        VALUE_BYTES
    } else {
        0
    }) as nat
}

/// A leaf's bytes given the cache: nothing if held and unwritten; suffix and new
/// value if held and written; its naive bytes if not held.
pub open spec fn leaf_sent_bytes(st: LeafState) -> nat {
    if st.resident {
        if st.written {
            LEAF_ENTRY_BYTES as nat
        } else {
            0
        }
    } else {
        leaf_naive_bytes(st)
    }
}

/// A stem's summary after one more of its leaves.
pub open spec fn add_leaf(f: StemAcc, st: LeafState) -> StemAcc {
    StemAcc {
        dirty: f.dirty || !leaf_clean(st),
        resident: f.resident || leaf_clean(st),
        written: f.written || st.written,
    }
}

/// The stems of the touched leaves in order of first touch, each with the
/// summary of its leaves.
pub open spec fn stem_groups(s: Seq<(LeafId, LeafState)>) -> Seq<(StemId, StemAcc)>
    decreases s.len(),
{
    if s.len() == 0 {
        Seq::empty()
    } else {
        let g = stem_groups(s.drop_last());
        let id = s.last().0.stem;
        let st = s.last().1;
        if has_key(g, id) {
            g.update(pos_of(g, id), (id, add_leaf(g[pos_of(g, id)].1, st)))
        } else {
            g.push((id, add_leaf(StemAcc { dirty: false, resident: false, written: false }, st)))
        }
    }
}

/// The naive bytes of all touched leaves.
pub open spec fn leaves_naive_total(s: Seq<(LeafId, LeafState)>) -> nat
    decreases s.len(),
{
    if s.len() == 0 {
        0
    } else {
        leaves_naive_total(s.drop_last()) + leaf_naive_bytes(s.last().1)
    }
}

/// The sent bytes of all touched leaves.
pub open spec fn leaves_sent_total(s: Seq<(LeafId, LeafState)>) -> nat
    decreases s.len(),
{
    if s.len() == 0 {
        0
    } else {
        leaves_sent_total(s.drop_last()) + leaf_sent_bytes(s.last().1)
    }
}

/// The published rule: a stem is free iff every touched leaf under it is held
/// clean.
pub open spec fn published_elides(f: StemAcc) -> bool {
    f.resident && !f.dirty
}

/// The relaxed rule: a stem is free iff some touched leaf under it is held and
/// none is written.
pub open spec fn relaxed_elides(f: StemAcc) -> bool {
    f.resident && !f.written
}

/// Whether the extension-node cache held stem `id` when the block began.
pub open spec fn stem_cached(stems: Seq<(StemId, bool)>, id: StemId) -> bool {
    has_key(stems, id) && stems[pos_of(stems, id)].1
}

/// The stems the published rule charges.
pub open spec fn published_charges(g: Seq<(StemId, StemAcc)>) -> nat
    decreases g.len(),
{
    if g.len() == 0 {
        0
    } else {
        published_charges(g.drop_last()) + if published_elides(g.last().1) {
            0nat
        } else {
            1nat
        }
    }
}

/// The stems the relaxed rule charges.
pub open spec fn relaxed_charges(g: Seq<(StemId, StemAcc)>) -> nat
    decreases g.len(),
{
    if g.len() == 0 {
        0
    } else {
        relaxed_charges(g.drop_last()) + if relaxed_elides(g.last().1) {
            0nat
        } else {
            1nat
        }
    }
}

/// The stems the extension-node cache charges: those it did not hold, or under
/// which a leaf is written.
pub open spec fn cached_charges(g: Seq<(StemId, StemAcc)>, stems: Seq<(StemId, bool)>) -> nat
    decreases g.len(),
{
    if g.len() == 0 {
        0
    } else {
        cached_charges(g.drop_last(), stems) + if stem_cached(stems, g.last().0) && !g.last().1.written {
            0nat
        } else {
            1nat
        }
    }
}

/// Every summary covers at least one leaf: a stem with no clean leaf, or with a
/// written one, is dirty.
pub open spec fn groups_consistent(g: Seq<(StemId, StemAcc)>) -> bool {
    forall|i: int|
        0 <= i < g.len() ==> (!(#[trigger] g[i]).1.resident ==> g[i].1.dirty) && (g[i].1.written
            ==> g[i].1.dirty)
}

/// The grouping has one entry per distinct stem, consistent summaries, and no
/// more entries than leaves.
pub proof fn lemma_groups_shape(s: Seq<(LeafId, LeafState)>)
    ensures
        unique_keys(stem_groups(s)),
        stem_groups(s).len() <= s.len(),
        groups_consistent(stem_groups(s)),
        forall|k: StemId| has_key(stem_groups(s), k) <==> exists|i: int| 0 <= i < s.len() && s[i].0.stem == k,
    decreases s.len(),
{
    if s.len() > 0 {
        let t = s.drop_last();
        lemma_groups_shape(t);
        let g = stem_groups(t);
        let id = s.last().0.stem;
        let st = s.last().1;
        if has_key(g, id) {
            let p = pos_of(g, id);
            lemma_pos_of(g, id);
            lemma_update_value(g, p, add_leaf(g[p].1, st));
        } else {
            lemma_push_unique(g, (id, add_leaf(StemAcc { dirty: false, resident: false, written: false }, st)));
        }
        let r = stem_groups(s);
        assert forall|k: StemId| has_key(r, k) <==> exists|i: int| 0 <= i < s.len() && s[i].0.stem == k by {
            if has_key(g, k) {
                let i = choose|i: int| 0 <= i < t.len() && t[i].0.stem == k;
                assert(s[i].0.stem == k);
            }
            if exists|i: int| 0 <= i < s.len() && s[i].0.stem == k {
                let i = choose|i: int| 0 <= i < s.len() && s[i].0.stem == k;
                if i < t.len() {
                    assert(t[i].0.stem == k);
                }
            }
        }
    }
}

/// Leaf totals: a leaf never costs more sent than naive, nor more than 65 bytes.
pub proof fn lemma_leaf_totals(s: Seq<(LeafId, LeafState)>)
    ensures
        leaves_sent_total(s) <= leaves_naive_total(s),
        leaves_naive_total(s) <= (SUFFIX_BYTES + 2 * VALUE_BYTES) * s.len(),
    decreases s.len(),
{
    if s.len() > 0 {
        lemma_leaf_totals(s.drop_last());
    }
}

/// Charge counts: the relaxed rule charges no stem the published one does not,
/// and no rule charges more stems than there are.
pub proof fn lemma_charges(g: Seq<(StemId, StemAcc)>, stems: Seq<(StemId, bool)>)
    requires
        groups_consistent(g),
    ensures
        relaxed_charges(g) <= published_charges(g),
        published_charges(g) <= g.len(),
        cached_charges(g, stems) <= g.len(),
    decreases g.len(),
{
    if g.len() > 0 {
        let t = g.drop_last();
        assert forall|i: int| 0 <= i < t.len() implies (!(#[trigger] t[i]).1.resident ==> t[i].1.dirty) && (
        t[i].1.written ==> t[i].1.dirty) by {
            assert(t[i] == g[i]);
        }
        lemma_charges(t, stems);
        assert(g.last() == g[g.len() - 1]);
    }
}

/// The naive size of a block depends on which leaves it touches and which it
/// writes, not on what the cache held.
pub proof fn lemma_naive_ignores_residency(a: Seq<(LeafId, LeafState)>, b: Seq<(LeafId, LeafState)>)
    requires
        a.len() == b.len(),
        forall|i: int| 0 <= i < a.len() ==> #[trigger] a[i].0 == b[i].0 && a[i].1.written == b[i].1.written,
    ensures
        leaves_naive_total(a) == leaves_naive_total(b),
        stem_groups(a).len() == stem_groups(b).len(),
    decreases a.len(),
{
    lemma_groups_shape(a);
    lemma_groups_shape(b);
    if a.len() > 0 {
        let ta = a.drop_last();
        let tb = b.drop_last();
        assert forall|i: int| 0 <= i < ta.len() implies #[trigger] ta[i].0 == tb[i].0 && ta[i].1.written
            == tb[i].1.written by {
            assert(ta[i] == a[i]);
            assert(tb[i] == b[i]);
        }
        lemma_naive_ignores_residency(ta, tb);
        lemma_groups_shape(ta);
        lemma_groups_shape(tb);
        let id = a.last().0.stem;
        assert(b.last().0.stem == id) by {
            assert(a[a.len() - 1].0 == b[b.len() - 1].0);
        }
        let ga = stem_groups(ta);
        let gb = stem_groups(tb);
        assert(has_key(ga, id) == has_key(gb, id)) by {
            if has_key(ga, id) {
                let i = choose|i: int| 0 <= i < ta.len() && ta[i].0.stem == id;
                assert(tb[i].0.stem == id);
            }
            if has_key(gb, id) {
                let i = choose|i: int| 0 <= i < tb.len() && tb[i].0.stem == id;
                assert(ta[i].0.stem == id);
            }
        }
        assert(a.last().1.written == b.last().1.written) by {
            assert(a[a.len() - 1].1.written == b[b.len() - 1].1.written);
        }
    }
}

/// How many of the touched leaves `s` are held (`resident`) and written
/// (`written`) as given.
pub open spec fn leaves_with(s: Seq<(LeafId, LeafState)>, resident: bool, written: bool) -> nat
    decreases s.len(),
{
    if s.len() == 0 {
        0
    } else {
        leaves_with(s.drop_last(), resident, written) + if s.last().1.resident == resident
            && s.last().1.written == written {
            1nat
        } else {
            0nat
        }
    }
}

/// The leaf bytes of a block's witness: with no cache every touched leaf
/// costs its suffix and value (33 bytes) and a written one also its new
/// value (32 more); with the leaf cache a held leaf costs nothing unless
/// written, when it costs 33, and a leaf not held costs 33, or 65 if written.
pub proof fn lemma_leaf_bytes(s: Seq<(LeafId, LeafState)>)
    ensures
        leaves_naive_total(s) == 33 * s.len() + 32 * (leaves_with(s, true, true) + leaves_with(
            s,
            false,
            true,
        )),
        leaves_sent_total(s) == 33 * leaves_with(s, true, true) + 33 * leaves_with(s, false, false) + 65
            * leaves_with(s, false, true),
        s.len() == leaves_with(s, true, true) + leaves_with(s, true, false) + leaves_with(s, false, true)
            + leaves_with(s, false, false),
    decreases s.len(),
{
    if s.len() > 0 {
        lemma_leaf_bytes(s.drop_last());
    }
}

/// Some touched leaf lies under stem `id`.
pub open spec fn stem_touched(s: Seq<(LeafId, LeafState)>, id: StemId) -> bool {
    exists|i: int| 0 <= i < s.len() && (#[trigger] s[i]).0.stem == id
}

/// Some touched leaf under stem `id` is held by the client and not written.
pub open spec fn stem_has_clean_leaf(s: Seq<(LeafId, LeafState)>, id: StemId) -> bool {
    exists|i: int| 0 <= i < s.len() && (#[trigger] s[i]).0.stem == id && s[i].1.resident && !s[i].1.written
}

/// Some touched leaf under stem `id` is not held, or is written.
pub open spec fn stem_has_unclean_leaf(s: Seq<(LeafId, LeafState)>, id: StemId) -> bool {
    exists|i: int|
        0 <= i < s.len() && (#[trigger] s[i]).0.stem == id && !(s[i].1.resident && !s[i].1.written)
}

/// Some touched leaf under stem `id` is written.
pub open spec fn stem_has_written_leaf(s: Seq<(LeafId, LeafState)>, id: StemId) -> bool {
    exists|i: int| 0 <= i < s.len() && (#[trigger] s[i]).0.stem == id && s[i].1.written
}

/// The stems a block touches.
pub open spec fn touched_stems(s: Seq<(LeafId, LeafState)>) -> Set<StemId> {
    Set::new(|id: StemId| stem_touched(s, id))
}

/// The stems whose extension node the published rule sends: every touched
/// stem except those all of whose touched leaves are held and unwritten.
pub open spec fn stems_sent_published(s: Seq<(LeafId, LeafState)>) -> Set<StemId> {
    Set::new(|id: StemId| stem_touched(s, id) && !(stem_has_clean_leaf(s, id) && !stem_has_unclean_leaf(s, id)))
}

/// The stems whose extension node the relaxed rule sends: every touched
/// stem except those with a held, unwritten leaf and no written leaf.
pub open spec fn stems_sent_relaxed(s: Seq<(LeafId, LeafState)>) -> Set<StemId> {
    Set::new(|id: StemId| stem_touched(s, id) && !(stem_has_clean_leaf(s, id) && !stem_has_written_leaf(s, id)))
}

/// The stems whose extension node is sent with an extension-node cache:
/// every touched stem except those the cache held and under which nothing
/// is written.
pub open spec fn stems_sent_cached(s: Seq<(LeafId, LeafState)>, stems: Seq<(StemId, bool)>) -> Set<StemId> {
    Set::new(|id: StemId| stem_touched(s, id) && !(stem_cached(stems, id) && !stem_has_written_leaf(s, id)))
}

/// The stem groups summarise the touched leaves: each entry's stem is
/// touched, and its flags say whether some leaf under it is clean, some is
/// not, and some is written.
proof fn lemma_groups_summarise(s: Seq<(LeafId, LeafState)>)
    ensures
        forall|j: int|
            0 <= j < stem_groups(s).len() ==> {
                let e = #[trigger] stem_groups(s)[j];
                &&& stem_touched(s, e.0)
                &&& e.1.resident == stem_has_clean_leaf(s, e.0)
                &&& e.1.dirty == stem_has_unclean_leaf(s, e.0)
                &&& e.1.written == stem_has_written_leaf(s, e.0)
            },
    decreases s.len(),
{
    lemma_groups_shape(s);
    if s.len() > 0 {
        let t = s.drop_last();
        lemma_groups_summarise(t);
        lemma_groups_shape(t);
        let g = stem_groups(t);
        let l = s[s.len() - 1];
        assert(s.last() == l);
        let id = l.0.stem;
        let st = l.1;
        let r = stem_groups(s);
        assert forall|x: StemId|
            (stem_touched(s, x) <==> stem_touched(t, x) || l.0.stem == x)
            && (stem_has_clean_leaf(s, x) <==> stem_has_clean_leaf(t, x) || (l.0.stem == x && st.resident
                && !st.written))
            && (stem_has_unclean_leaf(s, x) <==> stem_has_unclean_leaf(t, x) || (l.0.stem == x
                && !(st.resident && !st.written)))
            && (stem_has_written_leaf(s, x) <==> stem_has_written_leaf(t, x) || (l.0.stem == x
                && st.written)) by {
            assert forall|i: int| 0 <= i < t.len() implies #[trigger] t[i] == s[i] by {}
            if stem_touched(s, x) {
                let i = choose|i: int| 0 <= i < s.len() && (#[trigger] s[i]).0.stem == x;
                if i < t.len() {
                    assert(t[i] == s[i]);
                }
            }
            if stem_has_clean_leaf(s, x) {
                let i = choose|i: int|
                    0 <= i < s.len() && (#[trigger] s[i]).0.stem == x && s[i].1.resident && !s[i].1.written;
                if i < t.len() {
                    assert(t[i] == s[i]);
                }
            }
            if stem_has_unclean_leaf(s, x) {
                let i = choose|i: int|
                    0 <= i < s.len() && (#[trigger] s[i]).0.stem == x && !(s[i].1.resident && !s[i].1.written);
                if i < t.len() {
                    assert(t[i] == s[i]);
                }
            }
            if stem_has_written_leaf(s, x) {
                let i = choose|i: int| 0 <= i < s.len() && (#[trigger] s[i]).0.stem == x && s[i].1.written;
                if i < t.len() {
                    assert(t[i] == s[i]);
                }
            }
            if stem_touched(t, x) {
                let i = choose|i: int| 0 <= i < t.len() && (#[trigger] t[i]).0.stem == x;
                assert(s[i] == t[i]);
            }
            if stem_has_clean_leaf(t, x) {
                let i = choose|i: int|
                    0 <= i < t.len() && (#[trigger] t[i]).0.stem == x && t[i].1.resident && !t[i].1.written;
                assert(s[i] == t[i]);
            }
            if stem_has_unclean_leaf(t, x) {
                let i = choose|i: int|
                    0 <= i < t.len() && (#[trigger] t[i]).0.stem == x && !(t[i].1.resident && !t[i].1.written);
                assert(s[i] == t[i]);
            }
            if stem_has_written_leaf(t, x) {
                let i = choose|i: int| 0 <= i < t.len() && (#[trigger] t[i]).0.stem == x && t[i].1.written;
                assert(s[i] == t[i]);
            }
            assert(s[s.len() - 1] == l);
        }
        if has_key(g, id) {
            let p = pos_of(g, id);
            lemma_pos_of(g, id);
            assert(r == g.update(p, (id, add_leaf(g[p].1, st))));
            assert forall|j: int| 0 <= j < r.len() implies {
                let e = #[trigger] r[j];
                &&& stem_touched(s, e.0)
                &&& e.1.resident == stem_has_clean_leaf(s, e.0)
                &&& e.1.dirty == stem_has_unclean_leaf(s, e.0)
                &&& e.1.written == stem_has_written_leaf(s, e.0)
            } by {
                assert(g[j] == g[j]);
                if j != p {
                    assert(r[j] == g[j]);
                    assert(g[j].0 != id);
                }
            }
        } else {
            assert(!stem_touched(t, id));
            assert(r == g.push((id, add_leaf(StemAcc { dirty: false, resident: false, written: false }, st))));
            assert forall|j: int| 0 <= j < r.len() implies {
                let e = #[trigger] r[j];
                &&& stem_touched(s, e.0)
                &&& e.1.resident == stem_has_clean_leaf(s, e.0)
                &&& e.1.dirty == stem_has_unclean_leaf(s, e.0)
                &&& e.1.written == stem_has_written_leaf(s, e.0)
            } by {
                if j < g.len() {
                    assert(r[j] == g[j]);
                    assert(g[j] == g[j]);
                    assert(stem_touched(t, g[j].0));
                    assert(g[j].0 != id);
                } else {
                    assert(!stem_has_clean_leaf(t, id));
                    assert(!stem_has_unclean_leaf(t, id));
                    assert(!stem_has_written_leaf(t, id));
                }
            }
        }
    }
}

/// How many entries of `g` are charged, each entry `e` being free when `free(e)`.
pub open spec fn count_charged(g: Seq<(StemId, StemAcc)>, free: spec_fn((StemId, StemAcc)) -> bool) -> nat
    decreases g.len(),
{
    if g.len() == 0 {
        0
    } else {
        count_charged(g.drop_last(), free) + if free(g.last()) {
            0nat
        } else {
            1nat
        }
    }
}

/// The stems of the charged entries of `g`.
pub open spec fn charged_ids(g: Seq<(StemId, StemAcc)>, free: spec_fn((StemId, StemAcc)) -> bool) -> Set<StemId> {
    Set::new(|id: StemId| exists|j: int| 0 <= j < g.len() && (#[trigger] g[j]).0 == id && !free(g[j]))
}

/// With one entry per stem, the charged entries are as many as their stems.
proof fn lemma_count_charged(g: Seq<(StemId, StemAcc)>, free: spec_fn((StemId, StemAcc)) -> bool)
    requires
        unique_keys(g),
    ensures
        charged_ids(g, free).finite(),
        count_charged(g, free) == charged_ids(g, free).len(),
    decreases g.len(),
{
    if g.len() == 0 {
        assert(charged_ids(g, free) =~= Set::<StemId>::empty());
    } else {
        let t = g.drop_last();
        assert forall|i: int, j: int| 0 <= i < t.len() && 0 <= j < t.len() && i != j implies t[i].0
            != t[j].0 by {
            assert(t[i] == g[i] && t[j] == g[j]);
        }
        lemma_count_charged(t, free);
        let e = g[g.len() - 1];
        assert(g.last() == e);
        let a = charged_ids(t, free);
        let b = charged_ids(g, free);
        assert forall|id: StemId| a.contains(id) ==> id != e.0 by {
            if a.contains(id) {
                let j = choose|j: int| 0 <= j < t.len() && (#[trigger] t[j]).0 == id && !free(t[j]);
                assert(g[j] == t[j]);
            }
        }
        assert forall|id: StemId| b.contains(id) <==> a.contains(id) || (id == e.0 && !free(e)) by {
            if b.contains(id) {
                let j = choose|j: int| 0 <= j < g.len() && (#[trigger] g[j]).0 == id && !free(g[j]);
                if j < t.len() {
                    assert(t[j] == g[j]);
                }
            }
            if a.contains(id) {
                let j = choose|j: int| 0 <= j < t.len() && (#[trigger] t[j]).0 == id && !free(t[j]);
                assert(g[j] == t[j]);
            }
        }
        if free(e) {
            assert(b =~= a);
        } else {
            assert(b =~= a.insert(e.0));
        }
    }
}

proof fn lemma_charges_count(g: Seq<(StemId, StemAcc)>, stems: Seq<(StemId, bool)>)
    ensures
        published_charges(g) == count_charged(g, |e: (StemId, StemAcc)| published_elides(e.1)),
        relaxed_charges(g) == count_charged(g, |e: (StemId, StemAcc)| relaxed_elides(e.1)),
        cached_charges(g, stems) == count_charged(
            g,
            |e: (StemId, StemAcc)| stem_cached(stems, e.0) && !e.1.written,
        ),
    decreases g.len(),
{
    if g.len() > 0 {
        lemma_charges_count(g.drop_last(), stems);
    }
}

/// How many extension nodes a block's witness carries under each rule,
/// counted over the stems it touches: every touched stem without a cache;
/// under the published rule every touched stem not all of whose touched
/// leaves are held and unwritten; under the relaxed rule every touched stem
/// without a held, unwritten leaf or with a written leaf; with an
/// extension-node cache every touched stem the cache did not hold or under
/// which a leaf is written. Each node costs `STEM_ENTRY_BYTES`.
pub proof fn lemma_sealed_stem_charges(s: Seq<(LeafId, LeafState)>, stems: Seq<(StemId, bool)>)
    requires
        IPA_FLOOR_BYTES + (SUFFIX_BYTES + 2 * VALUE_BYTES + STEM_ENTRY_BYTES) * s.len() <= u64::MAX,
    ensures
        touched_stems(s).finite(),
        stems_sent_published(s).finite(),
        stems_sent_relaxed(s).finite(),
        stems_sent_cached(s, stems).finite(),
        sealed(s, stems).naive == IPA_FLOOR_BYTES + leaves_naive_total(s) + STEM_ENTRY_BYTES
            * touched_stems(s).len(),
        sealed(s, stems).sent == IPA_FLOOR_BYTES + leaves_sent_total(s) + STEM_ENTRY_BYTES
            * stems_sent_published(s).len(),
        sealed(s, stems).sent_stem_opt == IPA_FLOOR_BYTES + leaves_sent_total(s) + STEM_ENTRY_BYTES
            * stems_sent_relaxed(s).len(),
        sealed(s, stems).sent_stem == IPA_FLOOR_BYTES + leaves_sent_total(s) + STEM_ENTRY_BYTES
            * stems_sent_cached(s, stems).len(),
{
    let g = stem_groups(s);
    lemma_groups_shape(s);
    lemma_groups_summarise(s);
    lemma_charges_count(g, stems);
    let fp = |e: (StemId, StemAcc)| published_elides(e.1);
    let fr = |e: (StemId, StemAcc)| relaxed_elides(e.1);
    let fc = |e: (StemId, StemAcc)| stem_cached(stems, e.0) && !e.1.written;
    let never = |e: (StemId, StemAcc)| false;
    lemma_count_charged(g, fp);
    lemma_count_charged(g, fr);
    lemma_count_charged(g, fc);
    lemma_count_charged(g, never);
    assert forall|id: StemId| stem_touched(s, id) ==> exists|j: int| 0 <= j < g.len() && (#[trigger] g[j]).0 == id by {
        if stem_touched(s, id) {
            let i = choose|i: int| 0 <= i < s.len() && (#[trigger] s[i]).0.stem == id;
            assert(exists|i: int| 0 <= i < s.len() && s[i].0.stem == id);
            assert(has_key(g, id));
        }
    }
    assert forall|id: StemId| (exists|j: int| 0 <= j < g.len() && (#[trigger] g[j]).0 == id) ==> stem_touched(s, id) by {
        if exists|j: int| 0 <= j < g.len() && (#[trigger] g[j]).0 == id {
            let j = choose|j: int| 0 <= j < g.len() && (#[trigger] g[j]).0 == id;
            assert(g[j] == g[j]);
        }
    }
    assert(charged_ids(g, never) =~= touched_stems(s));
    assert(charged_ids(g, fp) =~= stems_sent_published(s));
    assert(charged_ids(g, fr) =~= stems_sent_relaxed(s));
    assert(charged_ids(g, fc) =~= stems_sent_cached(s, stems));
    assert(count_charged(g, never) == g.len()) by {
        lemma_count_all(g, never);
    }
    lemma_leaf_totals(s);
    lemma_charges(g, stems);
    assert(IPA_FLOOR_BYTES == 576 && SUFFIX_BYTES + 2 * VALUE_BYTES == 65 && STEM_ENTRY_BYTES == 128
        && COMMITMENT_BYTES + STEM_SCAFFOLD_BYTES == 128);
    let n = s.len();
    assert(128 * g.len() <= 128 * n) by (nonlinear_arith)
        requires
            g.len() <= n,
    ;
    assert(128 * published_charges(g) <= 128 * g.len()) by (nonlinear_arith)
        requires
            published_charges(g) <= g.len(),
    ;
    assert(128 * relaxed_charges(g) <= 128 * g.len()) by (nonlinear_arith)
        requires
            relaxed_charges(g) <= g.len(),
    ;
    assert(128 * cached_charges(g, stems) <= 128 * g.len()) by (nonlinear_arith)
        requires
            cached_charges(g, stems) <= g.len(),
    ;
    assert(193 * n == 65 * n + 128 * n) by (nonlinear_arith);
}

proof fn lemma_count_all(g: Seq<(StemId, StemAcc)>, free: spec_fn((StemId, StemAcc)) -> bool)
    requires
        forall|e: (StemId, StemAcc)| !#[trigger] free(e),
    ensures
        count_charged(g, free) == g.len(),
    decreases g.len(),
{
    if g.len() > 0 {
        lemma_count_all(g.drop_last(), free);
    }
}

/// `b` touches the same leaves as `a`, in the same order and with the same
/// writes, and holds every leaf that `a` holds (and possibly more).
pub open spec fn holds_more(a: Seq<(LeafId, LeafState)>, b: Seq<(LeafId, LeafState)>) -> bool {
    &&& a.len() == b.len()
    &&& forall|i: int|
        0 <= i < a.len() ==> #[trigger] a[i].0 == b[i].0 && a[i].1.written == b[i].1.written && (
        a[i].1.resident ==> b[i].1.resident)
}

/// The stem summaries `gb` name the same stems as `ga`, in the same order and
/// with the same writes, and are nowhere less clean.
spec fn groups_cleaner(ga: Seq<(StemId, StemAcc)>, gb: Seq<(StemId, StemAcc)>) -> bool {
    &&& ga.len() == gb.len()
    &&& forall|i: int|
        0 <= i < ga.len() ==> #[trigger] ga[i].0 == gb[i].0 && ga[i].1.written == gb[i].1.written && (
        gb[i].1.dirty ==> ga[i].1.dirty) && (ga[i].1.resident ==> gb[i].1.resident)
}

proof fn lemma_same_position(ga: Seq<(StemId, StemAcc)>, gb: Seq<(StemId, StemAcc)>, id: StemId)
    requires
        groups_cleaner(ga, gb),
        unique_keys(ga),
        unique_keys(gb),
    ensures
        has_key(ga, id) == has_key(gb, id),
        has_key(ga, id) ==> pos_of(ga, id) == pos_of(gb, id),
{
    if has_key(ga, id) {
        let i = choose|i: int| 0 <= i < ga.len() && ga[i].0 == id;
        assert(gb[i].0 == id);
    }
    if has_key(gb, id) {
        let i = choose|i: int| 0 <= i < gb.len() && gb[i].0 == id;
        assert(ga[i].0 == id);
        lemma_pos_of(ga, id);
        lemma_pos_of(gb, id);
        assert(ga[pos_of(gb, id)].0 == id);
    }
}

proof fn lemma_groups_cleaner(a: Seq<(LeafId, LeafState)>, b: Seq<(LeafId, LeafState)>)
    requires
        holds_more(a, b),
    ensures
        groups_cleaner(stem_groups(a), stem_groups(b)),
        leaves_sent_total(b) <= leaves_sent_total(a),
    decreases a.len(),
{
    if a.len() > 0 {
        let ta = a.drop_last();
        let tb = b.drop_last();
        assert forall|i: int| 0 <= i < ta.len() implies #[trigger] ta[i].0 == tb[i].0 && ta[i].1.written
            == tb[i].1.written && (ta[i].1.resident ==> tb[i].1.resident) by {
            assert(ta[i] == a[i]);
            assert(tb[i] == b[i]);
        }
        lemma_groups_cleaner(ta, tb);
        lemma_groups_shape(ta);
        lemma_groups_shape(tb);
        let ga = stem_groups(ta);
        let gb = stem_groups(tb);
        let la = a[a.len() - 1];
        let lb = b[b.len() - 1];
        assert(a.last() == la && b.last() == lb);
        let id = la.0.stem;
        assert(lb.0.stem == id);
        lemma_same_position(ga, gb, id);
        if has_key(ga, id) {
            let p = pos_of(ga, id);
            lemma_pos_of(ga, id);
            let ra = stem_groups(a);
            let rb = stem_groups(b);
            assert(ra == ga.update(p, (id, add_leaf(ga[p].1, la.1))));
            assert(rb == gb.update(p, (id, add_leaf(gb[p].1, lb.1))));
            assert forall|i: int| 0 <= i < ra.len() implies #[trigger] ra[i].0 == rb[i].0 && ra[i].1.written
                == rb[i].1.written && (rb[i].1.dirty ==> ra[i].1.dirty) && (ra[i].1.resident
                ==> rb[i].1.resident) by {
                if i != p {
                    assert(ra[i] == ga[i]);
                    assert(rb[i] == gb[i]);
                }
            }
        } else {
            let ra = stem_groups(a);
            let rb = stem_groups(b);
            assert forall|i: int| 0 <= i < ra.len() implies #[trigger] ra[i].0 == rb[i].0 && ra[i].1.written
                == rb[i].1.written && (rb[i].1.dirty ==> ra[i].1.dirty) && (ra[i].1.resident
                ==> rb[i].1.resident) by {
                if i < ga.len() {
                    assert(ra[i] == ga[i]);
                    assert(rb[i] == gb[i]);
                }
            }
        }
    }
}

proof fn lemma_cleaner_charges(
    ga: Seq<(StemId, StemAcc)>,
    gb: Seq<(StemId, StemAcc)>,
    sa: Seq<(StemId, bool)>,
    sb: Seq<(StemId, bool)>,
)
    requires
        groups_cleaner(ga, gb),
        forall|id: StemId| stem_cached(sa, id) ==> #[trigger] stem_cached(sb, id),
    ensures
        published_charges(gb) <= published_charges(ga),
        relaxed_charges(gb) <= relaxed_charges(ga),
        cached_charges(gb, sb) <= cached_charges(ga, sa),
    decreases ga.len(),
{
    if ga.len() > 0 {
        let ta = ga.drop_last();
        let tb = gb.drop_last();
        assert forall|i: int| 0 <= i < ta.len() implies #[trigger] ta[i].0 == tb[i].0 && ta[i].1.written
            == tb[i].1.written && (tb[i].1.dirty ==> ta[i].1.dirty) && (ta[i].1.resident
            ==> tb[i].1.resident) by {
            assert(ta[i] == ga[i]);
            assert(tb[i] == gb[i]);
        }
        lemma_cleaner_charges(ta, tb, sa, sb);
        assert(ga.last() == ga[ga.len() - 1] && gb.last() == gb[gb.len() - 1]);
        assert(ga.last().0 == gb.last().0);
        if stem_cached(sa, ga.last().0) {
            assert(stem_cached(sb, gb.last().0));
        }
    }
}

/// Holding more never makes a witness larger: a block that touches the same
/// leaves in the same order with the same writes, on a client that holds
/// every leaf and extension node another holds (and possibly more), has the
/// same naive size and is sent no more bytes under any rule.
pub proof fn lemma_more_resident_sends_less(
    a: Seq<(LeafId, LeafState)>,
    sa: Seq<(StemId, bool)>,
    b: Seq<(LeafId, LeafState)>,
    sb: Seq<(StemId, bool)>,
)
    requires
        holds_more(a, b),
        forall|id: StemId| stem_cached(sa, id) ==> #[trigger] stem_cached(sb, id),
        IPA_FLOOR_BYTES + (SUFFIX_BYTES + 2 * VALUE_BYTES + STEM_ENTRY_BYTES) * a.len() <= u64::MAX,
    ensures
        sealed(b, sb).naive == sealed(a, sa).naive,
        sealed(b, sb).sent <= sealed(a, sa).sent,
        sealed(b, sb).sent_stem <= sealed(a, sa).sent_stem,
        sealed(b, sb).sent_stem_opt <= sealed(a, sa).sent_stem_opt,
        sealed(b, sb).saved >= sealed(a, sa).saved,
{
    lemma_naive_ignores_residency(a, b);
    lemma_groups_cleaner(a, b);
    let ga = stem_groups(a);
    let gb = stem_groups(b);
    lemma_cleaner_charges(ga, gb, sa, sb);
    lemma_groups_shape(a);
    lemma_leaf_totals(a);
    lemma_charges(ga, sa);
    let n = a.len();
    assert(IPA_FLOOR_BYTES == 576 && SUFFIX_BYTES + 2 * VALUE_BYTES == 65 && STEM_ENTRY_BYTES == 128
        && COMMITMENT_BYTES + STEM_SCAFFOLD_BYTES == 128);
    assert(128 * published_charges(ga) <= 128 * ga.len()) by (nonlinear_arith)
        requires
            published_charges(ga) <= ga.len(),
    ;
    assert(128 * ga.len() <= 128 * n) by (nonlinear_arith)
        requires
            ga.len() <= n,
    ;
    assert(leaves_naive_total(a) <= 65 * n);
    assert(128 * cached_charges(ga, sa) <= 128 * ga.len()) by (nonlinear_arith)
        requires
            cached_charges(ga, sa) <= ga.len(),
    ;
    assert(128 * relaxed_charges(gb) <= 128 * relaxed_charges(ga)) by (nonlinear_arith)
        requires
            relaxed_charges(gb) <= relaxed_charges(ga),
    ;
    assert(128 * published_charges(gb) <= 128 * published_charges(ga)) by (nonlinear_arith)
        requires
            published_charges(gb) <= published_charges(ga),
    ;
    assert(128 * cached_charges(gb, sb) <= 128 * cached_charges(ga, sa)) by (nonlinear_arith)
        requires
            cached_charges(gb, sb) <= cached_charges(ga, sa),
    ;
    assert(193 * n == 65 * n + 128 * n) by (nonlinear_arith);
    let xa = IPA_FLOOR_BYTES + leaves_sent_total(a) + STEM_ENTRY_BYTES * published_charges(ga);
    let xb = IPA_FLOOR_BYTES + leaves_sent_total(b) + STEM_ENTRY_BYTES * published_charges(gb);
    assert(xb <= xa <= u64::MAX);
    assert(sealed(a, sa).sent == xa);
    assert(sealed(b, sb).sent == xb);
    let ya = IPA_FLOOR_BYTES + leaves_sent_total(a) + STEM_ENTRY_BYTES * cached_charges(ga, sa);
    let yb = IPA_FLOOR_BYTES + leaves_sent_total(b) + STEM_ENTRY_BYTES * cached_charges(gb, sb);
    assert(yb <= ya <= u64::MAX);
    assert(sealed(a, sa).sent_stem == ya);
    assert(sealed(b, sb).sent_stem == yb);
}

/// The witness size of a block that touched the leaves `s` and recorded the
/// extension-node residency `stems`: the proof floor, the leaves, and the
/// extension nodes each rule charges.
pub open spec fn sealed(s: Seq<(LeafId, LeafState)>, stems: Seq<(StemId, bool)>) -> BlockWitnessBytes {
    let g = stem_groups(s);
    let naive = IPA_FLOOR_BYTES + leaves_naive_total(s) + (COMMITMENT_BYTES + STEM_SCAFFOLD_BYTES) * g.len();
    let sent = IPA_FLOOR_BYTES + leaves_sent_total(s) + STEM_ENTRY_BYTES * published_charges(g);
    BlockWitnessBytes {
        naive: naive as u64,
        sent: sent as u64,
        saved: (naive - sent) as u64,
        floor: IPA_FLOOR_BYTES,
        sent_stem: (IPA_FLOOR_BYTES + leaves_sent_total(s) + STEM_ENTRY_BYTES * cached_charges(g, stems)) as u64,
        sent_stem_opt: (IPA_FLOOR_BYTES + leaves_sent_total(s) + STEM_ENTRY_BYTES * relaxed_charges(g)) as u64,
    }
}

/// The witness size of one block: the proof floor, the leaves, and the
/// extension nodes each rule charges.
pub fn seal(accum: &BlockWitnessAccum) -> (r: BlockWitnessBytes)
    requires
        accum.wf(),
        IPA_FLOOR_BYTES + (SUFFIX_BYTES + 2 * VALUE_BYTES + STEM_ENTRY_BYTES) * accum.leaves().len()
            <= u64::MAX,
    ensures
        r == sealed(accum.leaves(), accum.stems()),
        ({
            let s = accum.leaves();
            let g = stem_groups(s);
            &&& r.floor == IPA_FLOOR_BYTES
            &&& r.naive == IPA_FLOOR_BYTES + leaves_naive_total(s) + (COMMITMENT_BYTES
                + STEM_SCAFFOLD_BYTES) * g.len()
            &&& r.sent == IPA_FLOOR_BYTES + leaves_sent_total(s) + STEM_ENTRY_BYTES
                * published_charges(g)
            &&& r.sent_stem == IPA_FLOOR_BYTES + leaves_sent_total(s) + STEM_ENTRY_BYTES
                * cached_charges(g, accum.stems())
            &&& r.sent_stem_opt == IPA_FLOOR_BYTES + leaves_sent_total(s) + STEM_ENTRY_BYTES
                * relaxed_charges(g)
            &&& r.saved == r.naive - r.sent
        }),
        r.floor <= r.sent_stem_opt <= r.sent <= r.naive,
        r.floor <= r.sent_stem <= r.naive,
{
    let leaves = accum.leaves.entries();
    let ghost s = accum.leaves();
    assert(IPA_FLOOR_BYTES == 576 && SUFFIX_BYTES + 2 * VALUE_BYTES + STEM_ENTRY_BYTES == 193);
    let mut groups: OrderedMap<StemId, StemAcc> = OrderedMap::new();
    let mut tot_naive: u64 = 0;
    let mut tot_sent: u64 = 0;
    let mut i: usize = 0;
    while i < leaves.len()
        invariant
            leaves@ == s,
            0 <= i <= s.len(),
            groups.wf(),
            groups@ == stem_groups(s.take(i as int)),
            tot_naive == leaves_naive_total(s.take(i as int)),
            tot_sent == leaves_sent_total(s.take(i as int)),
            tot_sent <= tot_naive <= 65 * i,
            576 + 193 * s.len() <= u64::MAX,
        decreases s.len() - i,
    {
        let (id, st) = leaves[i];
        let ghost pre = s.take(i as int);
        proof {
            assert(s.take(i + 1).drop_last() =~= pre);
            assert(s.take(i + 1).last() == s[i as int]);
        }
        let clean = st.resident && !st.written;
        let ln: u64 = SUFFIX_BYTES + VALUE_BYTES + if st.written {
            VALUE_BYTES
        } else {
            0
        };
        let ls: u64 = if st.resident {
            if st.written {
                LEAF_ENTRY_BYTES
            } else {
                0
            }
        } else {
            ln
        };
        tot_naive = tot_naive + ln;
        tot_sent = tot_sent + ls;
        match groups.get(&id.stem) {
            Some(f) => {
                let f: StemAcc = *f;
                let nf = StemAcc {
                    dirty: f.dirty || !clean,
                    resident: f.resident || clean,
                    written: f.written || st.written,
                };
                groups.set_value(&id.stem, nf);
            },
            None => {
                groups.push_back(id.stem, StemAcc { dirty: !clean, resident: clean, written: st.written });
            },
        }
        i = i + 1;
    }
    proof {
        assert(s.take(s.len() as int) =~= s);
        lemma_groups_shape(s);
        lemma_charges(stem_groups(s), accum.stems());
        lemma_leaf_totals(s);
    }
    let g = groups.entries();
    let ghost gs = stem_groups(s);
    let mut charged: u64 = 0;
    let mut charged_stem: u64 = 0;
    let mut charged_opt: u64 = 0;
    let mut j: usize = 0;
    while j < g.len()
        invariant
            g@ == gs,
            gs == stem_groups(s),
            gs.len() <= s.len(),
            accum.wf(),
            0 <= j <= gs.len(),
            charged == published_charges(gs.take(j as int)),
            charged_stem == cached_charges(gs.take(j as int), accum.stems()),
            charged_opt == relaxed_charges(gs.take(j as int)),
            charged <= j,
            charged_stem <= j,
            charged_opt <= j,
            576 + 193 * s.len() <= u64::MAX,
            tot_sent <= tot_naive <= 65 * s.len(),
        decreases gs.len() - j,
    {
        let (id, f) = g[j];
        proof {
            assert(gs.take(j + 1).drop_last() =~= gs.take(j as int));
            assert(gs.take(j + 1).last() == gs[j as int]);
        }
        if !(f.resident && !f.dirty) {
            charged = charged + 1;
        }
        let held = match accum.stems.get(&id) {
            Some(b) => *b,
            None => false,
        };
        if !(held && !f.written) {
            charged_stem = charged_stem + 1;
        }
        if !(f.resident && !f.written) {
            charged_opt = charged_opt + 1;
        }
        j = j + 1;
    }
    proof {
        assert(gs.take(gs.len() as int) =~= gs);
    }
    let num_stems = g.len() as u64;
    assert(576 + 128 * num_stems + tot_naive <= u64::MAX) by (nonlinear_arith)
        requires
            num_stems <= s.len(),
            tot_naive <= 65 * s.len(),
            576 + 193 * s.len() <= u64::MAX,
    ;
    assert(num_stems * COMMITMENT_BYTES == 32 * num_stems && num_stems * STEM_SCAFFOLD_BYTES == 96
        * num_stems);
    let naive = IPA_FLOOR_BYTES + commitments_by_path_bytes(num_stems) + num_stems * STEM_SCAFFOLD_BYTES
        + tot_naive;
    let sent = IPA_FLOOR_BYTES + tot_sent + STEM_ENTRY_BYTES * charged;
    let sent_stem = IPA_FLOOR_BYTES + tot_sent + STEM_ENTRY_BYTES * charged_stem;
    let sent_stem_opt = IPA_FLOOR_BYTES + tot_sent + STEM_ENTRY_BYTES * charged_opt;
    BlockWitnessBytes {
        naive,
        sent,
        saved: naive - sent,
        floor: IPA_FLOOR_BYTES,
        sent_stem,
        sent_stem_opt,
    }
}

} // verus!

use vstd::prelude::*;

use crate::cache::{WitnessCache, advanced, block_fits};
use crate::config::{CAPACITY_PCTS, WINDOWS};
use crate::metrics::{BlockEvents, RunMetrics, absorbed};
use crate::model::BlockRecord;
use crate::policy::PolicyKind;
use crate::strata::{Strata, StratumKind, in_stratum_spec};

verus! {

/// The leaf and extension-node capacities, in entries, for one window and
/// capacity percentage.
#[derive(Debug, Clone, Copy)]
pub struct CapacityCell {
    pub window: u64,
    pub pct: u32,
    pub capacity: usize,
    pub stem_capacity: usize,
}

/// One cache simulation of the sweep, and the run ids of its three strata.
#[derive(Debug, Clone, Copy)]
pub struct SimSpec {
    pub policy: PolicyKind,
    pub window: u64,
    pub capacity_pct: u32,
    pub capacity_entries: usize,
    pub stem_capacity_entries: usize,
    pub run_ids: [u32; 3],
}

/// The policy of grid cell `k`: policies vary slowest.
pub open spec fn grid_policy(k: int) -> PolicyKind {
    if k / 25 == 0 {
        PolicyKind::Lru
    } else if k / 25 == 1 {
        PolicyKind::Lfu
    } else {
        PolicyKind::Arc
    }
}

/// The window of grid cell `k`.
pub open spec fn grid_window(k: int) -> u64 {
    WINDOWS@[(k / 5) % 5]
}

/// The capacity percentage of grid cell `k`: percentages vary fastest.
pub open spec fn grid_pct(k: int) -> u32 {
    CAPACITY_PCTS@[k % 5]
}

/// The first cell for `window` and `pct`, if any.
pub open spec fn cell_index(cells: Seq<CapacityCell>, window: u64, pct: u32) -> Option<int>
    decreases cells.len(),
{
    if cells.len() == 0 {
        None
    } else {
        match cell_index(cells.drop_last(), window, pct) {
            Some(i) => Some(i),
            None => if cells.last().window == window && cells.last().pct == pct {
                Some(cells.len() - 1)
            } else {
                None
            },
        }
    }
}

fn find_cell(cells: &Vec<CapacityCell>, window: u64, pct: u32) -> (r: Option<usize>)
    ensures
        r is None ==> cell_index(cells@, window, pct) is None,
        r matches Some(i) ==> cell_index(cells@, window, pct) == Some(i as int),
        r matches Some(i) ==> i < cells@.len() && cells@[i as int].window == window && cells@[i as int].pct
            == pct,
{
    let mut i: usize = 0;
    while i < cells.len()
        invariant
            0 <= i <= cells@.len(),
            cell_index(cells@.take(i as int), window, pct) is None,
        decreases cells@.len() - i,
    {
        proof {
            assert(cells@.take(i + 1).drop_last() =~= cells@.take(i as int));
            lemma_cell_index_prefix(cells@, i as int + 1, window, pct);
        }
        if cells[i].window == window && cells[i].pct == pct {
            return Some(i);
        }
        i = i + 1;
    }
    proof {
        assert(cells@.take(cells@.len() as int) =~= cells@);
    }
    None
}

/// A match in a prefix is the match in the whole sequence.
proof fn lemma_cell_index_prefix(cells: Seq<CapacityCell>, n: int, window: u64, pct: u32)
    requires
        0 <= n <= cells.len(),
    ensures
        cell_index(cells.take(n), window, pct) matches Some(i) ==> cell_index(cells, window, pct) == Some(i),
    decreases cells.len() - n,
{
    if n < cells.len() {
        lemma_cell_index_prefix(cells, n + 1, window, pct);
        assert(cells.take(n + 1).drop_last() =~= cells.take(n));
    } else {
        assert(cells.take(n) =~= cells);
    }
}

/// `v` is the sweep grid over `cells`: cell `k` has the policy, window and
/// percentage of `grid_policy`, `grid_window` and `grid_pct`, the capacities
/// of the first matching cell of `cells`, and run ids `3k`, `3k + 1`, `3k + 2`.
pub open spec fn is_grid(cells: Seq<CapacityCell>, v: Seq<SimSpec>) -> bool {
    &&& v.len() == 75
    &&& forall|k: int|
        0 <= k < 75 ==> {
            let c = cell_index(cells, grid_window(k), grid_pct(k));
            &&& c is Some
            &&& (#[trigger] v[k]).policy == grid_policy(k)
            &&& v[k].window == grid_window(k)
            &&& v[k].capacity_pct == grid_pct(k)
            &&& v[k].capacity_entries == cells[c->Some_0].capacity
            &&& v[k].stem_capacity_entries == cells[c->Some_0].stem_capacity
            &&& v[k].run_ids[0] == 3 * k && v[k].run_ids[1] == 3 * k + 1 && v[k].run_ids[2] == 3 * k + 2
        }
}

/// The grid simulates every combination of policy, window and capacity
/// percentage exactly once: LRU in cells 0 to 24, LFU in 25 to 49, ARC in 50
/// to 74; within a policy the windows 8, 16, 32, 64, 128 in order, and within
/// a window the percentages 10, 25, 50, 75, 100 in order; no two cells share
/// a policy, window and percentage; and every cell's capacities come from a
/// capacity cell of its own window and percentage.
pub proof fn lemma_grid_covers_each_combination_once(cells: Seq<CapacityCell>, v: Seq<SimSpec>)
    requires
        is_grid(cells, v),
    ensures
        forall|k: int| 0 <= k < 25 ==> (#[trigger] v[k]).policy == PolicyKind::Lru,
        forall|k: int| 25 <= k < 50 ==> (#[trigger] v[k]).policy == PolicyKind::Lfu,
        forall|k: int| 50 <= k < 75 ==> (#[trigger] v[k]).policy == PolicyKind::Arc,
        forall|p: int, w: int, q: int|
            0 <= p < 3 && 0 <= w < 5 && 0 <= q < 5 ==> #[trigger] v[25 * p + 5 * w + q].window == seq![
                8u64,
                16,
                32,
                64,
                128,
            ][w] && v[25 * p + 5 * w + q].capacity_pct == seq![10u32, 25, 50, 75, 100][q],
        forall|k1: int, k2: int|
            0 <= k1 < k2 < 75 ==> !(#[trigger] v[k1].policy == #[trigger] v[k2].policy && v[k1].window
                == v[k2].window && v[k1].capacity_pct == v[k2].capacity_pct),
        forall|k: int|
            0 <= k < 75 ==> exists|i: int|
                0 <= i < cells.len() && cells[i].window == (#[trigger] v[k]).window && cells[i].pct
                    == v[k].capacity_pct && cells[i].capacity == v[k].capacity_entries
                    && cells[i].stem_capacity == v[k].stem_capacity_entries,
{
    assert forall|p: int, w: int, q: int|
        0 <= p < 3 && 0 <= w < 5 && 0 <= q < 5 implies #[trigger] v[25 * p + 5 * w + q].window == seq![
            8u64,
            16,
            32,
            64,
            128,
        ][w] && v[25 * p + 5 * w + q].capacity_pct == seq![10u32, 25, 50, 75, 100][q] by {
        let k = 25 * p + 5 * w + q;
        lemma_grid_index_parts(p, w, q);
        lemma_grid_constants();
        assert(v[k].window == grid_window(k));
        assert(v[k].capacity_pct == grid_pct(k));
    }
    assert forall|k1: int, k2: int|
        0 <= k1 < k2 < 75 implies !(#[trigger] v[k1].policy == #[trigger] v[k2].policy && v[k1].window
            == v[k2].window && v[k1].capacity_pct == v[k2].capacity_pct) by {
        assert(v[k1].policy == grid_policy(k1) && v[k2].policy == grid_policy(k2));
        assert(v[k1].window == grid_window(k1) && v[k2].window == grid_window(k2));
        assert(v[k1].capacity_pct == grid_pct(k1) && v[k2].capacity_pct == grid_pct(k2));
        lemma_grid_cells_distinct(k1, k2);
    }
    assert forall|k: int| 0 <= k < 75 implies exists|i: int|
        0 <= i < cells.len() && cells[i].window == (#[trigger] v[k]).window && cells[i].pct
            == v[k].capacity_pct && cells[i].capacity == v[k].capacity_entries
            && cells[i].stem_capacity == v[k].stem_capacity_entries by {
        let c = cell_index(cells, grid_window(k), grid_pct(k));
        lemma_cell_index_found(cells, grid_window(k), grid_pct(k));
        let i = c->Some_0;
        assert(cells[i].window == v[k].window);
    }
    assert forall|k: int| 0 <= k < 75 implies (#[trigger] v[k]).policy == grid_policy(k) by {}
}

proof fn lemma_grid_constants()
    ensures
        WINDOWS@ == seq![8u64, 16, 32, 64, 128],
        CAPACITY_PCTS@ == seq![10u32, 25, 50, 75, 100],
{
    assert(WINDOWS@ =~= seq![8u64, 16, 32, 64, 128]);
    assert(CAPACITY_PCTS@ =~= seq![10u32, 25, 50, 75, 100]);
}

proof fn lemma_grid_index_parts(p: int, w: int, q: int)
    requires
        0 <= p < 3,
        0 <= w < 5,
        0 <= q < 5,
    ensures
        (25 * p + 5 * w + q) / 25 == p,
        ((25 * p + 5 * w + q) / 5) % 5 == w,
        (25 * p + 5 * w + q) % 5 == q,
{
}

proof fn lemma_grid_cells_distinct(k1: int, k2: int)
    requires
        0 <= k1 < k2 < 75,
    ensures
        !(grid_policy(k1) == grid_policy(k2) && grid_window(k1) == grid_window(k2) && grid_pct(k1)
            == grid_pct(k2)),
{
    lemma_grid_constants();
    let (p1, w1, q1) = (k1 / 25, (k1 / 5) % 5, k1 % 5);
    let (p2, w2, q2) = (k2 / 25, (k2 / 5) % 5, k2 % 5);
    assert(k1 == 25 * p1 + 5 * w1 + q1);
    assert(k2 == 25 * p2 + 5 * w2 + q2);
    if grid_policy(k1) == grid_policy(k2) && grid_window(k1) == grid_window(k2) && grid_pct(k1) == grid_pct(k2) {
        assert(p1 == p2);
        assert(w1 == w2);
        assert(q1 == q2);
    }
}

/// A match is a cell of that window and percentage.
proof fn lemma_cell_index_found(cells: Seq<CapacityCell>, window: u64, pct: u32)
    ensures
        cell_index(cells, window, pct) matches Some(i) ==> 0 <= i < cells.len() && cells[i].window
            == window && cells[i].pct == pct,
    decreases cells.len(),
{
    if cells.len() > 0 {
        lemma_cell_index_found(cells.drop_last(), window, pct);
        if let Some(i) = cell_index(cells.drop_last(), window, pct) {
            assert(cells[i] == cells.drop_last()[i]);
        }
    }
}

/// The sweep grid: three policies by five windows by five capacities, policies
/// slowest and capacities fastest, with three consecutive run ids per cell
/// (one per stratum) and capacities from the first matching cell of `cells`;
/// or the first window and percentage that no cell covers.
pub fn build_grid(cells: &Vec<CapacityCell>) -> (r: Result<Vec<SimSpec>, (u64, u32)>)
    ensures
        match r {
            Ok(v) => is_grid(cells@, v@),
            Err((w, p)) => exists|k: int|
                0 <= k < 75 && w == grid_window(k) && p == grid_pct(k) && cell_index(
                    cells@,
                    w,
                    p,
                ) is None,
        },
{
    let mut specs: Vec<SimSpec> = Vec::new();
    let mut k: usize = 0;
    while k < 75
        invariant
            0 <= k <= 75,
            specs@.len() == k,
            forall|j: int|
                0 <= j < k ==> {
                    let c = cell_index(cells@, grid_window(j), grid_pct(j));
                    &&& c is Some
                    &&& (#[trigger] specs@[j]).policy == grid_policy(j)
                    &&& specs@[j].window == grid_window(j)
                    &&& specs@[j].capacity_pct == grid_pct(j)
                    &&& specs@[j].capacity_entries == cells@[c->Some_0].capacity
                    &&& specs@[j].stem_capacity_entries == cells@[c->Some_0].stem_capacity
                    &&& specs@[j].run_ids[0] == 3 * j && specs@[j].run_ids[1] == 3 * j + 1
                        && specs@[j].run_ids[2] == 3 * j + 2
                },
        decreases 75 - k,
    {
        let policy = if k / 25 == 0 {
            PolicyKind::Lru
        } else if k / 25 == 1 {
            PolicyKind::Lfu
        } else {
            PolicyKind::Arc
        };
        let window = WINDOWS[(k / 5) % 5];
        let pct = CAPACITY_PCTS[k % 5];
        let idx = match find_cell(cells, window, pct) {
            Some(i) => i,
            None => {
                proof {
                    assert(window == grid_window(k as int));
                    assert(pct == grid_pct(k as int));
                }
                return Err((window, pct));
            },
        };
        let cell = cells[idx];
        let run_id = 3 * (k as u32);
        let ghost before = specs@;
        specs.push(
            SimSpec {
                policy,
                window,
                capacity_pct: pct,
                capacity_entries: cell.capacity,
                stem_capacity_entries: cell.stem_capacity,
                run_ids: [run_id, run_id + 1, run_id + 2],
            },
        );
        proof {
            assert forall|j: int|
                0 <= j < k + 1 implies {
                    let c = cell_index(cells@, grid_window(j), grid_pct(j));
                    &&& c is Some
                    &&& (#[trigger] specs@[j]).policy == grid_policy(j)
                    &&& specs@[j].window == grid_window(j)
                    &&& specs@[j].capacity_pct == grid_pct(j)
                    &&& specs@[j].capacity_entries == cells@[c->Some_0].capacity
                    &&& specs@[j].stem_capacity_entries == cells@[c->Some_0].stem_capacity
                    &&& specs@[j].run_ids[0] == 3 * j && specs@[j].run_ids[1] == 3 * j + 1
                        && specs@[j].run_ids[2] == 3 * j + 2
                } by {
                if j < k {
                    assert(specs@[j] == before[j]);
                } else {
                    assert(window == grid_window(j));
                    assert(pct == grid_pct(j));
                    assert(cell_index(cells@, window, pct) == Some(idx as int));
                    assert(specs@[j].run_ids[0] == run_id);
                }
            }
        }
        k = k + 1;
    }
    Ok(specs)
}

/// The blocks of `shard` that stratum `kind` counts.
pub open spec fn stratum_blocks(shard: Seq<BlockRecord>, strata: Strata, kind: StratumKind) -> nat
    decreases shard.len(),
{
    if shard.len() == 0 {
        0
    } else {
        stratum_blocks(shard.drop_last(), strata, kind) + if in_stratum_spec(
            kind,
            strata.defi_blocks(),
            strata.transfer_blocks(),
            shard.last().block_number,
        ) {
            1nat
        } else {
            0nat
        }
    }
}

/// One block of a simulation: the cache advances over the block with events
/// `ev`; the all-blocks sink absorbs them; each stratum's sink absorbs them
/// when the block is in that stratum and is left as it was otherwise.
pub open spec fn sim_step(s0: SimState, s1: SimState, block: BlockRecord, strata: Strata, ev: BlockEvents) -> bool {
    let now = block.block_number;
    let in_defi = in_stratum_spec(StratumKind::Defi, strata.defi_blocks(), strata.transfer_blocks(), now);
    let in_transfer = in_stratum_spec(StratumKind::Transfer, strata.defi_blocks(), strata.transfer_blocks(), now);
    &&& s1.spec == s0.spec
    &&& advanced(s0.cache, s1.cache, block, ev)
    &&& absorbed(s0.all, s1.all, ev)
    &&& if in_defi {
        absorbed(s0.defi, s1.defi, ev)
    } else {
        s1.defi == s0.defi
    }
    &&& if in_transfer {
        absorbed(s0.transfer, s1.transfer, ev)
    } else {
        s1.transfer == s0.transfer
    }
}

/// `s1` is `s0` after running `blocks` in order, one `sim_step` each.
pub open spec fn sim_ran(s0: SimState, s1: SimState, blocks: Seq<BlockRecord>, strata: Strata) -> bool
    decreases blocks.len(),
{
    if blocks.len() == 0 {
        s1 == s0
    } else {
        exists|mid: SimState, ev: BlockEvents|
            #[trigger] sim_step(mid, s1, blocks.last(), strata, ev) && sim_ran(s0, mid, blocks.drop_last(), strata)
    }
}

/// Every sink of `s` that counts `block` has room for all of `ev`.
pub open spec fn sinks_have_room(s: SimState, block: BlockRecord, strata: Strata, ev: BlockEvents) -> bool {
    let now = block.block_number;
    &&& s.all.room_for_events(ev)
    &&& in_stratum_spec(StratumKind::Defi, strata.defi_blocks(), strata.transfer_blocks(), now)
        ==> s.defi.room_for_events(ev)
    &&& in_stratum_spec(StratumKind::Transfer, strata.defi_blocks(), strata.transfer_blocks(), now)
        ==> s.transfer.room_for_events(ev)
}

/// A run stops at `block`: either the block does not fit the cache and
/// nothing changed, or the cache ran the block but some sink that counts it
/// has no room for what it reported, and no sink changed.
pub open spec fn sim_stopped(s0: SimState, s1: SimState, block: BlockRecord, strata: Strata) -> bool {
    ||| !block_fits(s0.cache, block) && s1 == s0
    ||| exists|ev: BlockEvents|
        #[trigger] advanced(s0.cache, s1.cache, block, ev) && !sinks_have_room(s0, block, strata, ev)
            && s1.spec == s0.spec && s1.all == s0.all && s1.defi == s0.defi && s1.transfer == s0.transfer
}

/// One cache simulation: its grid cell, its cache, and its metrics for the
/// three strata.
pub struct SimState {
    pub spec: SimSpec,
    pub cache: WitnessCache,
    pub all: RunMetrics,
    pub defi: RunMetrics,
    pub transfer: RunMetrics,
}

impl SimState {
    /// The simulation state is valid: the cache and the three sinks are, and
    /// each sink's totals are consistent.
    pub open spec fn wf(&self) -> bool {
        &&& self.cache.wf()
        &&& self.all.wf()
        &&& self.defi.wf()
        &&& self.transfer.wf()
        &&& self.all.consistent()
        &&& self.defi.consistent()
        &&& self.transfer.consistent()
    }

    /// The leaf cache was built with the grid cell's leaf capacity and the
    /// extension-node cache with its stem capacity, both of its policy.
    pub open spec fn sized_by_spec(&self) -> bool {
        &&& self.cache.leaf_policy().0 == self.spec.policy
        &&& self.cache.stem_policy_of().0 == self.spec.policy
        &&& self.cache.leaf_policy().1 == if self.spec.capacity_entries == 0 {
            1nat
        } else {
            self.spec.capacity_entries as nat
        }
        &&& self.cache.stem_policy_of().1 == if self.spec.stem_capacity_entries == 0 {
            1nat
        } else {
            self.spec.stem_capacity_entries as nat
        }
    }

    /// A simulation sized by its grid cell never holds more leaves than the
    /// cell's leaf capacity, nor more extension nodes than its stem capacity
    /// (one of each, for a capacity of zero).
    pub proof fn lemma_within_spec_capacity(&self)
        requires
            self.wf(),
            self.sized_by_spec(),
        ensures
            self.cache.resident().len() <= if self.spec.capacity_entries == 0 {
                1
            } else {
                self.spec.capacity_entries as int
            },
            self.cache.stem_resident().len() <= if self.spec.stem_capacity_entries == 0 {
                1
            } else {
                self.spec.stem_capacity_entries as int
            },
    {
        self.cache.lemma_within_capacity();
    }

    /// A fresh simulation of grid cell `spec`.
    pub fn new(spec: SimSpec) -> (s: Self)
        requires
            spec.policy == PolicyKind::Arc ==> spec.capacity_entries <= usize::MAX / 2
                && spec.stem_capacity_entries <= usize::MAX / 2,
        ensures
            s.wf(),
            s.spec == spec,
            s.all.is_fresh(),
            s.defi.is_fresh(),
            s.transfer.is_fresh(),
            s.cache.resident() == Set::<crate::model::Key>::empty(),
            s.cache.stem_resident() == Set::<crate::witness::StemId>::empty(),
            s.cache.span() == spec.window,
            s.cache.leaf_policy().0 == spec.policy,
            s.cache.stem_policy_of().0 == spec.policy,
            s.cache.leaf_policy().1 == if spec.capacity_entries == 0 {
                1nat
            } else {
                spec.capacity_entries as nat
            },
            s.cache.stem_policy_of().1 == if spec.stem_capacity_entries == 0 {
                1nat
            } else {
                spec.stem_capacity_entries as nat
            },
            s.sized_by_spec(),
    {
        let cache = WitnessCache::new(
            spec.policy.build(spec.capacity_entries),
            spec.policy.build(spec.stem_capacity_entries),
            spec.window,
        );
        SimState { spec, cache, all: RunMetrics::new(), defi: RunMetrics::new(), transfer: RunMetrics::new() }
    }

    /// Runs the blocks of one shard in order through the cache; every block
    /// advances the cache, and each stratum's metrics count only its own
    /// blocks. Stops at the first block that does not fit the cache, or whose
    /// events would overflow a counter of a sink that counts it, and returns
    /// its index.
    pub fn run_shard(&mut self, shard: &Vec<BlockRecord>, strata: &Strata) -> (r: Result<(), usize>)
        requires
            old(self).wf(),
        ensures
            final(self).wf(),
            final(self).spec == old(self).spec,
            final(self).cache.leaf_policy() == old(self).cache.leaf_policy(),
            final(self).cache.stem_policy_of() == old(self).cache.stem_policy_of(),
            old(self).sized_by_spec() ==> final(self).sized_by_spec(),
            ({
                let n = match r {
                    Ok(()) => shard@.len() as int,
                    Err(i) => i as int,
                };
                &&& 0 <= n <= shard@.len()
                &&& final(self).all.blocks_counted == old(self).all.blocks_counted + n
                &&& final(self).defi.blocks_counted == old(self).defi.blocks_counted + stratum_blocks(
                    shard@.take(n),
                    *strata,
                    StratumKind::Defi,
                )
                &&& final(self).transfer.blocks_counted == old(self).transfer.blocks_counted
                    + stratum_blocks(shard@.take(n), *strata, StratumKind::Transfer)
            }),
            r is Ok ==> sim_ran(*old(self), *final(self), shard@, *strata),
            r matches Err(i) ==> i < shard@.len() && exists|mid: SimState|
                #[trigger] sim_ran(*old(self), mid, shard@.take(i as int), *strata) && sim_stopped(
                    mid,
                    *final(self),
                    shard@[i as int],
                    *strata,
                ),
    {
        let mut i: usize = 0;
        while i < shard.len()
            invariant
                self.wf(),
                self.spec == old(self).spec,
                self.cache.leaf_policy() == old(self).cache.leaf_policy(),
                self.cache.stem_policy_of() == old(self).cache.stem_policy_of(),
                0 <= i <= shard@.len(),
                self.all.blocks_counted == old(self).all.blocks_counted + i,
                self.defi.blocks_counted == old(self).defi.blocks_counted + stratum_blocks(
                    shard@.take(i as int),
                    *strata,
                    StratumKind::Defi,
                ),
                self.transfer.blocks_counted == old(self).transfer.blocks_counted + stratum_blocks(
                    shard@.take(i as int),
                    *strata,
                    StratumKind::Transfer,
                ),
                sim_ran(*old(self), *self, shard@.take(i as int), *strata),
            decreases shard@.len() - i,
        {
            let block = &shard[i];
            let now = block.block_number;
            if !self.cache.fits(block) {
                return Err(i);
            }
            let in_defi = strata.in_stratum(StratumKind::Defi, now);
            let in_transfer = strata.in_stratum(StratumKind::Transfer, now);
            let ghost mid = *self;
            let ev = self.cache.advance(block);
            if !self.all.room_for(&ev) || (in_defi && !self.defi.room_for(&ev)) || (in_transfer
                && !self.transfer.room_for(&ev)) {
                proof {
                    assert(sim_ran(*old(self), mid, shard@.take(i as int), *strata));
                    assert(sim_stopped(mid, *self, shard@[i as int], *strata));
                }
                return Err(i);
            }
            self.all.absorb(&ev);
            if in_defi {
                self.defi.absorb(&ev);
            }
            if in_transfer {
                self.transfer.absorb(&ev);
            }
            proof {
                let t1 = shard@.take(i + 1);
                assert(t1.drop_last() =~= shard@.take(i as int));
                assert(t1.last() == shard@[i as int]);
                assert(sim_step(mid, *self, t1.last(), *strata, ev));
                assert(sim_ran(*old(self), *self, t1, *strata));
            }
            i = i + 1;
        }
        proof {
            assert(shard@.take(shard@.len() as int) =~= shard@);
        }
        Ok(())
    }
}

} // verus!

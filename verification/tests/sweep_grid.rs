//! The sweep grid, strata gating and the per-shard simulation step.

use caching_strategies::config::{CAPACITY_PCTS, WINDOWS};
use caching_strategies::model::{Address, BlockRecord, Key, ADDR_LEN};
use caching_strategies::policy::PolicyKind;
use caching_strategies::strata::{Strata, StratumKind};
use caching_strategies::sweep::{build_grid, CapacityCell, SimState};

fn cells() -> Vec<CapacityCell> {
    let mut v = Vec::new();
    for &window in &WINDOWS {
        for &pct in &CAPACITY_PCTS {
            v.push(CapacityCell {
                window,
                pct,
                capacity: (window as usize) * (pct as usize),
                stem_capacity: (pct as usize) + 1,
            });
        }
    }
    v
}

#[test]
fn grid_is_policy_major_with_three_runs_per_cell() {
    let g = build_grid(&cells()).unwrap();
    assert_eq!(g.len(), 75);
    assert_eq!(g[0].policy, PolicyKind::Lru);
    assert_eq!(g[0].window, 8);
    assert_eq!(g[0].capacity_pct, 10);
    assert_eq!(g[0].capacity_entries, 80);
    assert_eq!(g[0].stem_capacity_entries, 11);
    assert_eq!(g[0].run_ids, [0, 1, 2]);
    assert_eq!(g[26].policy, PolicyKind::Lfu);
    assert_eq!(g[26].window, 8);
    assert_eq!(g[26].capacity_pct, 25);
    assert_eq!(g[74].policy, PolicyKind::Arc);
    assert_eq!(g[74].window, 128);
    assert_eq!(g[74].capacity_pct, 100);
    assert_eq!(g[74].run_ids, [222, 223, 224]);
}

#[test]
fn grid_reports_the_first_missing_cell() {
    let mut c = cells();
    c.retain(|cell| !(cell.window == 32 && cell.pct == 50));
    assert_eq!(build_grid(&c).unwrap_err(), (32, 50));
}

fn k(n: u8) -> Key {
    Key::account(Address([n; ADDR_LEN]))
}

fn block(num: u64, reads: Vec<Key>) -> BlockRecord {
    BlockRecord { block_number: num, timestamp: num, reads, writes: vec![] }
}

#[test]
fn strata_gate_counting_but_not_the_cache() {
    let strata = Strata::new(vec![Address([3; ADDR_LEN])], vec![2, 4], vec![3]);
    assert!(strata.in_stratum(StratumKind::All, 1));
    assert!(strata.in_stratum(StratumKind::Defi, 2));
    assert!(!strata.in_stratum(StratumKind::Defi, 3));
    assert!(strata.in_stratum(StratumKind::Transfer, 3));
    assert_eq!(strata.count(StratumKind::All, 10), 10);
    assert_eq!(strata.count(StratumKind::Defi, 10), 2);
    assert_eq!(strata.count(StratumKind::Transfer, 10), 1);
    assert_eq!(StratumKind::Transfer.name(), "transfer");

    let spec = build_grid(&cells()).unwrap()[0];
    let mut sim = SimState::new(spec);
    let shard = vec![block(1, vec![k(1)]), block(2, vec![k(1)]), block(3, vec![k(2)]), block(4, vec![k(1)])];
    assert_eq!(sim.run_shard(&shard, &strata), Ok(()));
    assert_eq!(sim.all.blocks_counted, 4);
    assert_eq!(sim.defi.blocks_counted, 2);
    assert_eq!(sim.transfer.blocks_counted, 1);
    // Block 2 hits on the key block 1 (outside the DeFi stratum) brought in.
    assert_eq!(sim.defi.total_hits, 2);
    assert_eq!(sim.all.total_hits, 2);
    assert_eq!(sim.transfer.total_hits, 0);
}

//! Survival histogram bucketing and the contract ranking.

use caching_strategies::metrics::{ContractInvalidations, SurvivalHistogram};
use caching_strategies::model::{Address, ADDR_LEN};

#[test]
fn survival_bucketing() {
    assert_eq!(SurvivalHistogram::bucket_of(0), 0);
    assert_eq!(SurvivalHistogram::bucket_of(7), 7);
    assert_eq!(SurvivalHistogram::bucket_of(8), 8);
    assert_eq!(SurvivalHistogram::bucket_of(15), 8);
    assert_eq!(SurvivalHistogram::bucket_of(16), 9);
    assert_eq!(SurvivalHistogram::bucket_of(31), 9);
    assert_eq!(SurvivalHistogram::bucket_of(255), 12);
    assert_eq!(SurvivalHistogram::bucket_of(256), 13);
    assert_eq!(SurvivalHistogram::bucket_of(1_000_000), 13);
}

#[test]
fn record_puts_each_sample_in_one_bucket() {
    let mut h = SurvivalHistogram::default();
    for age in [0u64, 3, 9, 9, 300, u64::MAX / 4] {
        h.record(age);
    }
    assert_eq!(h.n, 6);
    assert_eq!(h.buckets.iter().sum::<u64>(), h.n);
    assert_eq!(h.buckets[8], 2);
    assert_eq!(h.buckets[13], 2);
    assert_eq!(h.sum_age, 0 + 3 + 9 + 9 + 300 + u64::MAX / 4);
}

fn addr(n: u8) -> Address {
    Address([n; ADDR_LEN])
}

#[test]
fn top_k_ranks_by_count_then_address() {
    let mut c = ContractInvalidations::default();
    for n in [5u8, 3, 5, 9, 3, 5, 1, 9] {
        c.record(addr(n));
    }
    // counts: 5 -> 3, 3 -> 2, 9 -> 2, 1 -> 1
    assert_eq!(c.counts.get(&addr(5)), Some(&3));
    assert_eq!(c.top_k(3), vec![(addr(5), 3), (addr(3), 2), (addr(9), 2)]);
    assert_eq!(c.top_k(10).len(), 4);
    assert_eq!(c.top_k(0), vec![]);
}

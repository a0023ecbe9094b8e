use vstd::prelude::*;

verus! {

/// The retention windows swept, in blocks.
pub const WINDOWS: [u64; 5] = [8, 16, 32, 64, 128];

/// The cache capacities swept, in percent of the window's working set.
pub const CAPACITY_PCTS: [u32; 5] = [10, 25, 50, 75, 100];

} // verus!

use vstd::prelude::*;

use std::collections::HashSet;

use crate::model::Address;

verus! {

broadcast use vstd::std_specs::hash::group_hash_axioms;

/// The block strata a run reports on.
#[derive(Debug, Clone, Copy, PartialEq, Eq)]
pub enum StratumKind {
    All,
    Defi,
    Transfer,
}

impl StratumKind {
    pub open spec fn spec_name(self) -> Seq<char> {
        match self {
            StratumKind::All => "all"@,
            StratumKind::Defi => "defi"@,
            StratumKind::Transfer => "transfer"@,
        }
    }

    pub fn name(self) -> (r: &'static str)
        ensures
            r@ == self.spec_name(),
    {
        match self {
            StratumKind::All => "all",
            StratumKind::Defi => "defi",
            StratumKind::Transfer => "transfer",
        }
    }

    pub const ALL: [StratumKind; 3] = [StratumKind::All, StratumKind::Defi, StratumKind::Transfer];
}

/// Which blocks are DeFi-heavy and which carry only transfers.
pub struct Strata {
    pub defi_contracts: Vec<Address>,
    defi_heavy: HashSet<u64>,
    transfer_only: HashSet<u64>,
}

/// Whether block `block` belongs to stratum `kind`, given the two block sets.
pub open spec fn in_stratum_spec(kind: StratumKind, defi: Set<u64>, transfer: Set<u64>, block: u64) -> bool {
    match kind {
        StratumKind::All => true,
        StratumKind::Defi => defi.contains(block),
        StratumKind::Transfer => transfer.contains(block),
    }
}

fn set_of(blocks: &Vec<u64>) -> (r: HashSet<u64>)
    ensures
        r@ == blocks@.to_set(),
{
    let mut r: HashSet<u64> = HashSet::new();
    let mut i: usize = 0;
    while i < blocks.len()
        invariant
            0 <= i <= blocks@.len(),
            r@ == blocks@.take(i as int).to_set(),
        decreases blocks@.len() - i,
    {
        r.insert(blocks[i]);
        proof {
            assert(blocks@.take(i + 1) =~= blocks@.take(i as int).push(blocks@[i as int]));
            Seq::lemma_to_set_insert_commutes(blocks@.take(i as int), blocks@[i as int]);
            assert(blocks@.take(i as int) + seq![blocks@[i as int]] =~= blocks@.take(i + 1));
        }
        i = i + 1;
    }
    proof {
        assert(blocks@.take(blocks@.len() as int) =~= blocks@);
    }
    r
}

impl Strata {
    /// The DeFi contracts.
    pub closed spec fn contracts(&self) -> Seq<Address> {
        self.defi_contracts@
    }

    /// The DeFi-heavy blocks.
    pub closed spec fn defi_blocks(&self) -> Set<u64> {
        self.defi_heavy@
    }

    /// The transfer-only blocks.
    pub closed spec fn transfer_blocks(&self) -> Set<u64> {
        self.transfer_only@
    }

    /// Strata from the DeFi contracts and the block numbers of each stratum.
    pub fn new(defi_contracts: Vec<Address>, defi_heavy: Vec<u64>, transfer_only: Vec<u64>) -> (s: Self)
        ensures
            s.contracts() == defi_contracts@,
            s.defi_blocks() == defi_heavy@.to_set(),
            s.transfer_blocks() == transfer_only@.to_set(),
    {
        Strata { defi_contracts, defi_heavy: set_of(&defi_heavy), transfer_only: set_of(&transfer_only) }
    }

    /// Whether `block` counts for stratum `kind`.
    pub fn in_stratum(&self, kind: StratumKind, block: u64) -> (r: bool)
        ensures
            r == in_stratum_spec(kind, self.defi_blocks(), self.transfer_blocks(), block),
    {
        match kind {
            StratumKind::All => true,
            StratumKind::Defi => self.defi_heavy.contains(&block),
            StratumKind::Transfer => self.transfer_only.contains(&block),
        }
    }

    /// How many blocks stratum `kind` holds, out of `total_blocks` in all.
    pub fn count(&self, kind: StratumKind, total_blocks: u64) -> (r: u64)
        ensures
            r == match kind {
                StratumKind::All => total_blocks as nat,
                StratumKind::Defi => self.defi_blocks().len(),
                StratumKind::Transfer => self.transfer_blocks().len(),
            },
    {
        match kind {
            StratumKind::All => total_blocks,
            StratumKind::Defi => self.defi_heavy.len() as u64,
            StratumKind::Transfer => self.transfer_only.len() as u64,
        }
    }
}

} // verus!

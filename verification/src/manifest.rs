use vstd::prelude::*;

use vstd::string::*;

use crate::model::{decimal_of, push_decimal};

verus! {

pub const SUPPORTED_SCHEMA_VERSION: u32 = 1;

/// One shard file of the dataset and the blocks it holds.
#[derive(Debug, Clone)]
pub struct ShardEntry {
    pub file: String,
    pub first_block: u64,
    pub last_block: u64,
    pub count: u64,
    pub sha256: String,
}

/// The dataset manifest: the block range, its encoding, and its shards in order.
#[derive(Debug, Clone)]
pub struct Manifest {
    pub network: String,
    pub start_block: u64,
    pub end_block: u64,
    pub shard_size: u32,
    pub schema_version: u32,
    pub key_encoding: String,
    pub shards: Vec<ShardEntry>,
}

impl Manifest {
    /// Accepts only the supported schema version.
    pub fn assert_schema_v1(&self) -> (r: Result<(), String>)
        ensures
            r is Ok <==> self.schema_version == SUPPORTED_SCHEMA_VERSION,
            r matches Err(e) ==> e@ == "manifest schema_version "@ + decimal_of(self.schema_version as nat)
                + " unsupported (expected 1)"@,
    {
        if self.schema_version != SUPPORTED_SCHEMA_VERSION {
            let mut msg = String::from_str("manifest schema_version ");
            push_decimal(&mut msg, self.schema_version as usize);
            msg.append(" unsupported (expected 1)");
            return Err(msg);
        }
        Ok(())
    }

    /// How many blocks the manifest covers, both ends included.
    pub fn block_span(&self) -> (r: u64)
        requires
            self.start_block <= self.end_block,
            self.end_block - self.start_block < u64::MAX,
        ensures
            r == self.end_block - self.start_block + 1,
    {
        self.end_block - self.start_block + 1
    }
}

} // verus!

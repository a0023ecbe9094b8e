use vstd::prelude::*;

use std::collections::VecDeque;

use sha2::{Digest, Sha256};
use vstd::string::*;

use crate::manifest::Manifest;
use crate::model::{Address, BlockRecord, Key, hex_of, push_hex};

verus! {

/// The SHA-256 digest of `data`.
pub uninterp spec fn sha256_of(data: Seq<u8>) -> Seq<u8>;

/// What zstd decompresses `data` to, or `None` if it is not a valid frame sequence.
pub uninterp spec fn zstd_decoded(data: Seq<u8>) -> Option<Seq<u8>>;

/// SHA-256 of `data` with `sha2::Sha256` (`new`, `update`, `finalize`): the
/// digest named `sha256_of`, 32 bytes long.
#[verifier::external_body]
fn sha256_digest(data: &[u8]) -> (r: Vec<u8>)
    ensures
        r@ == sha256_of(data@),
        r@.len() == 32,
{
    let mut hasher = Sha256::new();
    hasher.update(data);
    hasher.finalize().to_vec()
}

/// Decompresses `data` with `zstd::stream::decode_all`: the bytes named
/// `zstd_decoded` when it succeeds, and the error's text when it does not.
#[verifier::external_body]
fn zstd_decode(data: &[u8]) -> (r: Result<Vec<u8>, String>)
    ensures
        match r {
            Ok(v) => zstd_decoded(data@) == Some(v@),
            Err(_) => zstd_decoded(data@) is None,
        },
{
    match zstd::stream::decode_all(data) {
        Ok(v) => Ok(v),
        Err(e) => Err(e.to_string()),
    }
}

/// Lower-case hex of `bytes`.
pub fn hex_lower(bytes: &[u8]) -> (s: String)
    ensures
        s@ == hex_of(bytes@),
{
    let mut s = String::new();
    push_hex(&mut s, bytes);
    proof {
        assert(s@ =~= hex_of(bytes@));
    }
    s
}

/// Why a shard file could not be turned into its encoded records.
pub enum ShardError {
    /// The file's SHA-256 is not the one the manifest lists.
    DigestMismatch { expected: String, got: String },
    /// The file is not valid zstd; the decoder's message.
    Decompress { detail: String },
}

/// Checks a shard file against its expected SHA-256, if one is given, and
/// decompresses it.
pub fn unpack_shard(compressed: &[u8], expected_sha256: Option<&str>) -> (r: Result<Vec<u8>, ShardError>)
    ensures
        match expected_sha256 {
            Some(e) => hex_of(sha256_of(compressed@)) != e@ ==> (r matches Err(
                ShardError::DigestMismatch { expected, got },
            ) && expected@ == e@ && got@ == hex_of(sha256_of(compressed@))),
            None => true,
        },
        (expected_sha256 is None || hex_of(sha256_of(compressed@)) == expected_sha256->Some_0@) ==> match r {
            Ok(v) => zstd_decoded(compressed@) == Some(v@),
            Err(ShardError::Decompress { .. }) => zstd_decoded(compressed@) is None,
            Err(ShardError::DigestMismatch { .. }) => false,
        },
{
    match expected_sha256 {
        Some(expected) => {
            let digest = hex_lower(&sha256_digest(compressed));
            let want = String::from_str(expected);
            if !(digest == want) {
                return Err(ShardError::DigestMismatch { expected: want, got: digest });
            }
        },
        None => {},
    }
    match zstd_decode(compressed) {
        Ok(raw) => Ok(raw),
        Err(detail) => Err(ShardError::Decompress { detail }),
    }
}

/// A key as the wire format carries it: raw address bytes and, for a storage
/// slot, raw slot bytes.
pub struct WireKey {
    pub addr: Vec<u8>,
    pub slot: Option<Vec<u8>>,
}

/// A block as the wire format carries it.
pub struct WireRecord {
    pub block_number: u64,
    pub timestamp: u64,
    pub reads: Vec<WireKey>,
    pub writes: Vec<WireKey>,
}

/// A wire key of the wrong shape.
#[derive(Debug, Clone, Copy, PartialEq, Eq)]
pub enum KeyError {
    /// The address had this many bytes rather than 20.
    AddressLength(usize),
    /// The slot had this many bytes rather than 32.
    SlotLength(usize),
}

/// A wire record with a bad key, and in which set.
#[derive(Debug, Clone, Copy, PartialEq, Eq)]
pub enum RecordError {
    ReadSet(KeyError),
    WriteSet(KeyError),
}

/// The 20-byte array with the given contents.
pub open spec fn bytes20(s: Seq<u8>) -> [u8; 20] {
    choose|a: [u8; 20]| a@ == s
}

/// The 32-byte array with the given contents.
pub open spec fn bytes32(s: Seq<u8>) -> [u8; 32] {
    choose|a: [u8; 32]| a@ == s
}

/// The key a well-formed wire key stands for.
pub open spec fn key_of(w: WireKey) -> Key {
    Key {
        addr: Address(bytes20(w.addr@)),
        slot: match w.slot {
            None => None,
            Some(s) => Some(bytes32(s@)),
        },
    }
}

/// Why a wire key is malformed, if it is: its address is checked before its slot.
pub open spec fn key_error(w: WireKey) -> Option<KeyError> {
    if w.addr@.len() != 20 {
        Some(KeyError::AddressLength(w.addr@.len() as usize))
    } else {
        match w.slot {
            Some(s) => if s@.len() != 32 {
                Some(KeyError::SlotLength(s@.len() as usize))
            } else {
                None
            },
            None => None,
        }
    }
}

/// The first malformed key of `ws`, if any.
pub open spec fn first_key_error(ws: Seq<WireKey>) -> Option<KeyError>
    decreases ws.len(),
{
    if ws.len() == 0 {
        None
    } else {
        match key_error(ws[0]) {
            Some(e) => Some(e),
            None => first_key_error(ws.drop_first()),
        }
    }
}

fn array20(v: &Vec<u8>) -> (r: [u8; 20])
    requires
        v@.len() == 20,
    ensures
        r@ == v@,
{
    let mut a = [0u8; 20];
    let mut i: usize = 0;
    while i < 20
        invariant
            0 <= i <= 20,
            v@.len() == 20,
            forall|j: int| 0 <= j < i ==> a@[j] == v@[j],
        decreases 20 - i,
    {
        a[i] = v[i];
        i = i + 1;
    }
    proof {
        assert(a@ =~= v@);
    }
    a
}

fn array32(v: &Vec<u8>) -> (r: [u8; 32])
    requires
        v@.len() == 32,
    ensures
        r@ == v@,
{
    let mut a = [0u8; 32];
    let mut i: usize = 0;
    while i < 32
        invariant
            0 <= i <= 32,
            v@.len() == 32,
            forall|j: int| 0 <= j < i ==> a@[j] == v@[j],
        decreases 32 - i,
    {
        a[i] = v[i];
        i = i + 1;
    }
    proof {
        assert(a@ =~= v@);
    }
    a
}

proof fn lemma_array_unique<const N: usize>(a: [u8; N], b: [u8; N])
    requires
        a@ == b@,
    ensures
        a == b,
{
    assert(a =~= b);
}

/// Checks the shape of a wire key and builds the key.
pub fn convert_key(w: &WireKey) -> (r: Result<Key, KeyError>)
    ensures
        match key_error(*w) {
            Some(e) => r == Err::<Key, KeyError>(e),
            None => r == Ok::<Key, KeyError>(key_of(*w)),
        },
{
    if w.addr.len() != 20 {
        return Err(KeyError::AddressLength(w.addr.len()));
    }
    let a = array20(&w.addr);
    let addr = Address(a);
    proof {
        assert(exists|x: [u8; 20]| #![trigger x@] x@ == w.addr@);
        lemma_array_unique(a, bytes20(w.addr@));
    }
    match &w.slot {
        None => Ok(Key::account(addr)),
        Some(s) => {
            if s.len() != 32 {
                return Err(KeyError::SlotLength(s.len()));
            }
            let b = array32(s);
            proof {
                assert(exists|x: [u8; 32]| #![trigger x@] x@ == s@);
                lemma_array_unique(b, bytes32(s@));
            }
            Ok(Key::storage(addr, b))
        },
    }
}

/// Converts every key, stopping at the first malformed one.
pub fn convert_keys(ws: &Vec<WireKey>) -> (r: Result<Vec<Key>, KeyError>)
    ensures
        match first_key_error(ws@) {
            Some(e) => r == Err::<Vec<Key>, KeyError>(e),
            None => r is Ok && r->Ok_0@ == ws@.map_values(|w: WireKey| key_of(w)),
        },
{
    let mut out: Vec<Key> = Vec::new();
    let mut i: usize = 0;
    proof {
        assert(ws@.skip(0) =~= ws@);
    }
    while i < ws.len()
        invariant
            0 <= i <= ws@.len(),
            first_key_error(ws@) == first_key_error(ws@.skip(i as int)),
            out@ == ws@.take(i as int).map_values(|w: WireKey| key_of(w)),
        decreases ws@.len() - i,
    {
        proof {
            assert(ws@.skip(i as int)[0] == ws@[i as int]);
            assert(ws@.skip(i as int).drop_first() =~= ws@.skip(i + 1));
        }
        match convert_key(&ws[i]) {
            Ok(k) => {
                out.push(k);
                proof {
                    assert(out@ =~= ws@.take(i + 1).map_values(|w: WireKey| key_of(w)));
                }
            },
            Err(e) => {
                return Err(e);
            },
        }
        i = i + 1;
    }
    proof {
        assert(ws@.take(ws@.len() as int) =~= ws@);
        assert(ws@.skip(ws@.len() as int) =~= Seq::<WireKey>::empty());
    }
    Ok(out)
}

/// Converts a wire record: its read set, then its write set.
/// What is wrong with a record, if anything: its first malformed read key,
/// else its first malformed write key.
pub open spec fn record_error(w: WireRecord) -> Option<RecordError> {
    match (first_key_error(w.reads@), first_key_error(w.writes@)) {
        (Some(e), _) => Some(RecordError::ReadSet(e)),
        (None, Some(e)) => Some(RecordError::WriteSet(e)),
        (None, None) => None,
    }
}

pub fn convert_record(w: WireRecord) -> (r: Result<BlockRecord, RecordError>)
    ensures
        match (first_key_error(w.reads@), first_key_error(w.writes@)) {
            (Some(e), _) => r == Err::<BlockRecord, RecordError>(RecordError::ReadSet(e)),
            (None, Some(e)) => r == Err::<BlockRecord, RecordError>(RecordError::WriteSet(e)),
            (None, None) => r matches Ok(b) && b.block_number == w.block_number && b.timestamp
                == w.timestamp && b.reads@ == w.reads@.map_values(|k: WireKey| key_of(k)) && b.writes@
                == w.writes@.map_values(|k: WireKey| key_of(k)),
        },
{
    let reads = match convert_keys(&w.reads) {
        Ok(v) => v,
        Err(e) => {
            return Err(RecordError::ReadSet(e));
        },
    };
    let writes = match convert_keys(&w.writes) {
        Ok(v) => v,
        Err(e) => {
            return Err(RecordError::WriteSet(e));
        },
    };
    Ok(BlockRecord { block_number: w.block_number, timestamp: w.timestamp, reads, writes })
}

/// The elements of `v`, last first.
fn reversed<T>(v: Vec<T>) -> (r: Vec<T>)
    ensures
        r@.len() == v@.len(),
        forall|j: int| 0 <= j < v@.len() ==> r@[j] == v@[v@.len() - 1 - j],
{
    let ghost src = v@;
    let mut rest = v;
    let mut out: Vec<T> = Vec::new();
    while rest.len() > 0
        invariant
            rest@ == src.take(rest@.len() as int),
            out@.len() + rest@.len() == src.len(),
            forall|j: int| 0 <= j < out@.len() ==> out@[j] == src[src.len() - 1 - j],
        decreases rest@.len(),
    {
        let x = rest.pop().unwrap();
        out.push(x);
        proof {
            assert(rest@ =~= src.take(rest@.len() as int));
        }
    }
    out
}

/// Converts every record of a shard, stopping at the first malformed one.
pub fn convert_records(ws: Vec<WireRecord>) -> (r: Result<Vec<BlockRecord>, RecordError>)
    ensures
        r matches Ok(v) ==> v@.len() == ws@.len() && forall|i: int|
            0 <= i < ws@.len() ==> (#[trigger] v@[i]).block_number == ws@[i].block_number
                && v@[i].timestamp == ws@[i].timestamp && v@[i].reads@ == ws@[i].reads@.map_values(
                |k: WireKey| key_of(k),
            ) && v@[i].writes@ == ws@[i].writes@.map_values(|k: WireKey| key_of(k)),
        r is Err <==> exists|i: int|
            0 <= i < ws@.len() && (first_key_error(#[trigger] ws@[i].reads@) is Some || first_key_error(
                ws@[i].writes@,
            ) is Some),
        r matches Err(e) ==> exists|i: int|
            0 <= i < ws@.len() && record_error(#[trigger] ws@[i]) == Some(e) && forall|j: int|
                0 <= j < i ==> record_error(#[trigger] ws@[j]) is None,
{
    let ghost src = ws@;
    let mut out: Vec<BlockRecord> = Vec::new();
    let mut rest = reversed(ws);
    while rest.len() > 0
        invariant
            src == ws@,
            src.len() == out@.len() + rest@.len(),
            forall|j: int| 0 <= j < rest@.len() ==> rest@[j] == src[src.len() - 1 - j],
            forall|i: int|
                0 <= i < out@.len() ==> (#[trigger] out@[i]).block_number == src[i].block_number
                    && out@[i].timestamp == src[i].timestamp && out@[i].reads@ == src[i].reads@.map_values(
                    |k: WireKey| key_of(k),
                ) && out@[i].writes@ == src[i].writes@.map_values(|k: WireKey| key_of(k)),
            forall|i: int|
                0 <= i < out@.len() ==> first_key_error(#[trigger] src[i].reads@) is None && first_key_error(
                    src[i].writes@,
                ) is None,
        decreases rest@.len(),
    {
        let w = rest.pop().unwrap();
        let ghost i = out@.len() as int;
        proof {
            assert(w == src[i]);
        }
        match convert_record(w) {
            Ok(b) => {
                out.push(b);
            },
            Err(e) => {
                proof {
                    assert(first_key_error(src[i].reads@) is Some || first_key_error(src[i].writes@) is Some);
                    assert(ws@[i] == src[i]);
                    assert(record_error(ws@[i]) == Some(e));
                    assert forall|j: int| 0 <= j < i implies record_error(#[trigger] ws@[j]) is None by {
                        assert(out@[j] == out@[j]);
                    }
                }
                return Err(e);
            },
        }
    }
    Ok(out)
}

/// Streams the blocks of a manifest's shards in order, one shard at a time:
/// the caller loads the shard `next_shard` names and hands its records to
/// `accept`, then drains them with `pop`.
pub struct ShardStream<'a> {
    manifest: &'a Manifest,
    verify_sha: bool,
    next_shard: usize,
    buffer: VecDeque<BlockRecord>,
}

impl<'a> ShardStream<'a> {
    /// The shards handed out so far.
    pub closed spec fn position(&self) -> nat {
        self.next_shard as nat
    }

    /// The blocks accepted and not yet popped.
    pub closed spec fn pending(&self) -> Seq<BlockRecord> {
        self.buffer@
    }

    /// The manifest being streamed.
    pub closed spec fn source(&self) -> Manifest {
        *self.manifest
    }

    /// Whether shard digests are checked.
    pub closed spec fn checks_sha(&self) -> bool {
        self.verify_sha
    }

    pub fn new(manifest: &'a Manifest, verify_sha: bool) -> (s: Self)
        ensures
            s.position() == 0,
            s.pending() == Seq::<BlockRecord>::empty(),
            s.source() == *manifest,
            s.checks_sha() == verify_sha,
    {
        ShardStream { manifest, verify_sha, next_shard: 0, buffer: VecDeque::new() }
    }

    /// The next shard to load and the digest to check it against, or `None`
    /// once every shard has been handed out.
    pub fn next_shard(&mut self) -> (r: Option<(usize, Option<String>)>)
        ensures
            final(self).source() == old(self).source(),
            final(self).checks_sha() == old(self).checks_sha(),
            final(self).pending() == old(self).pending(),
            old(self).position() >= old(self).source().shards@.len() ==> r is None && final(self).position()
                == old(self).position(),
            old(self).position() < old(self).source().shards@.len() ==> (r matches Some((i, sha)) && i
                == old(self).position() && final(self).position() == old(self).position() + 1 && (
            sha is Some <==> old(self).checks_sha()) && (sha matches Some(h) ==> h@
                == old(self).source().shards@[i as int].sha256@)),
    {
        if self.next_shard >= self.manifest.shards.len() {
            return None;
        }
        let i = self.next_shard;
        self.next_shard = self.next_shard + 1;
        let sha = if self.verify_sha {
            Some(self.manifest.shards[i].sha256.clone())
        } else {
            None
        };
        Some((i, sha))
    }

    /// Queues the records of shard `index`, which must number what the
    /// manifest says; otherwise returns the count found and the count listed.
    pub fn accept(&mut self, index: usize, records: Vec<BlockRecord>) -> (r: Result<(), (usize, u64)>)
        requires
            index < old(self).source().shards@.len(),
        ensures
            final(self).source() == old(self).source(),
            final(self).checks_sha() == old(self).checks_sha(),
            final(self).position() == old(self).position(),
            records@.len() == old(self).source().shards@[index as int].count ==> r is Ok
                && final(self).pending() == old(self).pending() + records@,
            records@.len() != old(self).source().shards@[index as int].count ==> r == Err::<(), (usize, u64)>(
                (records@.len() as usize, old(self).source().shards@[index as int].count),
            ) && final(self).pending() == old(self).pending(),
    {
        let expected = self.manifest.shards[index].count;
        if records.len() as u64 != expected {
            return Err((records.len(), expected));
        }
        let ghost b0 = self.buffer@;
        let ghost src = records@;
        let mut rest = reversed(records);
        while rest.len() > 0
            invariant
                src.len() == (self.buffer@.len() - b0.len()) + rest@.len(),
                b0.len() <= self.buffer@.len(),
                forall|j: int| 0 <= j < rest@.len() ==> rest@[j] == src[src.len() - 1 - j],
                self.buffer@ == b0 + src.take(self.buffer@.len() - b0.len()),
                self.manifest == old(self).manifest,
                self.verify_sha == old(self).verify_sha,
                self.next_shard == old(self).next_shard,
            decreases rest@.len(),
        {
            let ghost k = self.buffer@.len() - b0.len();
            let x = rest.pop().unwrap();
            proof {
                assert(x == src[k]);
            }
            self.buffer.push_back(x);
            proof {
                assert(src.take(k + 1) =~= src.take(k).push(x));
                assert(self.buffer@ =~= b0 + src.take(k + 1));
            }
        }
        proof {
            assert(src.take(src.len() as int) =~= src);
        }
        Ok(())
    }

    /// The next queued block, oldest first.
    pub fn pop(&mut self) -> (r: Option<BlockRecord>)
        ensures
            final(self).source() == old(self).source(),
            final(self).checks_sha() == old(self).checks_sha(),
            final(self).position() == old(self).position(),
            old(self).pending().len() == 0 ==> r is None && final(self).pending() == old(self).pending(),
            old(self).pending().len() > 0 ==> r == Some(old(self).pending()[0]) && final(self).pending()
                == old(self).pending().drop_first(),
    {
        self.buffer.pop_front()
    }
}


/// What streaming a dataset has seen so far: how many blocks, how many times a
/// block number did not follow its predecessor, the last block number, and the
/// reads and writes.
pub struct LoadTally {
    pub count: u64,
    pub prev: Option<u64>,
    pub gaps: u64,
    pub total_reads: u64,
    pub total_writes: u64,
}

/// Why a streamed dataset does not match its manifest.
#[derive(Debug, Clone, Copy, PartialEq, Eq)]
pub enum TallyError {
    /// This many blocks streamed, but the manifest spans this many.
    CountMismatch { count: u64, span: u64 },
    /// This many breaks in the block sequence.
    Gaps(u64),
}

impl LoadTally {
    pub fn new() -> (t: Self)
        ensures
            t.count == 0,
            t.prev is None,
            t.gaps == 0,
            t.total_reads == 0,
            t.total_writes == 0,
    {
        LoadTally { count: 0, prev: None, gaps: 0, total_reads: 0, total_writes: 0 }
    }

    /// Counts one more streamed block.
    pub fn observe(&mut self, block: &BlockRecord)
        requires
            old(self).count < u64::MAX,
            old(self).gaps < u64::MAX,
            old(self).total_reads + block.reads@.len() <= u64::MAX,
            old(self).total_writes + block.writes@.len() <= u64::MAX,
            old(self).prev matches Some(p) ==> p < u64::MAX,
        ensures
            final(self).count == old(self).count + 1,
            final(self).prev == Some(block.block_number),
            final(self).gaps == old(self).gaps + if old(self).prev matches Some(p) && block.block_number
                != p + 1 {
                1int
            } else {
                0int
            },
            final(self).total_reads == old(self).total_reads + block.reads@.len(),
            final(self).total_writes == old(self).total_writes + block.writes@.len(),
    {
        match self.prev {
            Some(p) => {
                if block.block_number != p + 1 {
                    self.gaps = self.gaps + 1;
                }
            },
            None => {},
        }
        self.prev = Some(block.block_number);
        self.count = self.count + 1;
        self.total_reads = self.total_reads + block.reads.len() as u64;
        self.total_writes = self.total_writes + block.writes.len() as u64;
    }

    /// The stream matches a manifest spanning `span` blocks when it saw exactly
    /// that many blocks, with no gap.
    pub fn verdict(&self, span: u64) -> (r: Result<(), TallyError>)
        ensures
            self.count != span ==> r == Err::<(), TallyError>(
                TallyError::CountMismatch { count: self.count, span },
            ),
            self.count == span && self.gaps != 0 ==> r == Err::<(), TallyError>(TallyError::Gaps(self.gaps)),
            self.count == span && self.gaps == 0 ==> r is Ok,
    {
        if self.count != span {
            return Err(TallyError::CountMismatch { count: self.count, span });
        }
        if self.gaps != 0 {
            return Err(TallyError::Gaps(self.gaps));
        }
        Ok(())
    }
}

} // verus!

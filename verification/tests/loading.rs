//! Shard unpacking, wire-record conversion, the shard stream and the load tally.

use caching_strategies::loader::{
    convert_record, hex_lower, unpack_shard, KeyError, LoadTally, RecordError, ShardError,
    ShardStream, TallyError, WireKey, WireRecord,
};
use caching_strategies::manifest::{Manifest, ShardEntry};
use caching_strategies::model::{Address, BlockRecord, Key, ADDR_LEN, SLOT_LEN};
use sha2::{Digest, Sha256};

fn sha_hex(bytes: &[u8]) -> String {
    let mut h = Sha256::new();
    h.update(bytes);
    h.finalize().iter().map(|b| format!("{b:02x}")).collect()
}

#[test]
fn hex_lower_is_two_lower_case_digits_per_byte() {
    assert_eq!(hex_lower(&[0x00, 0x0f, 0xa0, 0xff]), "000fa0ff");
    assert_eq!(hex_lower(&[]), "");
}

#[test]
fn unpack_checks_the_digest_then_decompresses() {
    let raw = b"some msgpack bytes".to_vec();
    let compressed = zstd::stream::encode_all(&raw[..], 3).unwrap();
    let sha = sha_hex(&compressed);
    match unpack_shard(&compressed, Some(&sha)) {
        Ok(v) => assert_eq!(v, raw),
        Err(_) => panic!("valid shard rejected"),
    }
    match unpack_shard(&compressed, None) {
        Ok(v) => assert_eq!(v, raw),
        Err(_) => panic!("valid shard rejected"),
    }
}

#[test]
fn corrupted_shard_fails_sha() {
    let raw = b"payload".to_vec();
    let mut compressed = zstd::stream::encode_all(&raw[..], 3).unwrap();
    let sha = sha_hex(&compressed);
    let last = compressed.len() - 1;
    compressed[last] ^= 0xff;
    match unpack_shard(&compressed, Some(&sha)) {
        Err(ShardError::DigestMismatch { expected, got }) => {
            assert_eq!(expected, sha);
            assert_eq!(got, sha_hex(&compressed));
            assert_ne!(got, expected);
        }
        _ => panic!("corrupted shard accepted"),
    }
}

#[test]
fn unpack_reports_bad_zstd() {
    match unpack_shard(b"not zstd at all", None) {
        Err(ShardError::Decompress { .. }) => {}
        _ => panic!("garbage decompressed"),
    }
}

fn wkey(a: u8, slot: Option<u8>) -> WireKey {
    WireKey { addr: vec![a; ADDR_LEN], slot: slot.map(|s| vec![s; SLOT_LEN]) }
}

#[test]
fn wire_records_convert_to_keys() {
    let rec = WireRecord {
        block_number: 100,
        timestamp: 1_700_000_000,
        reads: vec![wkey(1, None), wkey(1, Some(0))],
        writes: vec![wkey(1, Some(0))],
    };
    let b = convert_record(rec).unwrap();
    assert_eq!(b.block_number, 100);
    assert_eq!(b.timestamp, 1_700_000_000);
    let a = Address([1; ADDR_LEN]);
    assert_eq!(b.reads, vec![Key::account(a), Key::storage(a, [0; SLOT_LEN])]);
    assert_eq!(b.writes, vec![Key::storage(a, [0; SLOT_LEN])]);
}

#[test]
fn wrong_address_length_is_rejected() {
    // A record whose address is 19 bytes must fail validation.
    let rec = WireRecord {
        block_number: 50,
        timestamp: 0,
        reads: vec![WireKey { addr: vec![1u8; 19], slot: None }],
        writes: vec![],
    };
    assert_eq!(convert_record(rec).unwrap_err(), RecordError::ReadSet(KeyError::AddressLength(19)));
}

#[test]
fn wrong_slot_length_is_rejected() {
    let rec = WireRecord {
        block_number: 50,
        timestamp: 0,
        reads: vec![],
        writes: vec![WireKey { addr: vec![1u8; 20], slot: Some(vec![0u8; 31]) }],
    };
    assert_eq!(convert_record(rec).unwrap_err(), RecordError::WriteSet(KeyError::SlotLength(31)));
}

fn manifest() -> Manifest {
    let entry = |file: &str, first: u64, count: u64| ShardEntry {
        file: file.to_string(),
        first_block: first,
        last_block: first + count - 1,
        count,
        sha256: format!("sha-of-{file}"),
    };
    Manifest {
        network: "eth-mainnet".to_string(),
        start_block: 100,
        end_block: 102,
        shard_size: 2,
        schema_version: 1,
        key_encoding: "raw-bytes:addr20+slot32-or-nil".to_string(),
        shards: vec![entry("a", 100, 2), entry("b", 102, 1)],
    }
}

fn block(n: u64) -> BlockRecord {
    BlockRecord { block_number: n, timestamp: n, reads: vec![], writes: vec![] }
}

#[test]
fn shard_stream_hands_out_shards_and_queues_their_blocks() {
    let m = manifest();
    let mut s = ShardStream::new(&m, true);
    assert!(s.pop().is_none());
    let (i, sha) = s.next_shard().unwrap();
    assert_eq!(i, 0);
    assert_eq!(sha.as_deref(), Some("sha-of-a"));
    assert_eq!(s.accept(i, vec![block(100)]), Err((1, 2)));
    assert!(s.accept(i, vec![block(100), block(101)]).is_ok());
    assert_eq!(s.pop().unwrap().block_number, 100);
    assert_eq!(s.pop().unwrap().block_number, 101);
    assert!(s.pop().is_none());
    let (j, _) = s.next_shard().unwrap();
    assert_eq!(j, 1);
    assert!(s.next_shard().is_none());

    let mut unchecked = ShardStream::new(&m, false);
    assert_eq!(unchecked.next_shard(), Some((0, None)));
}

#[test]
fn tally_counts_blocks_and_gaps() {
    let mut t = LoadTally::new();
    for n in [100u64, 101, 103] {
        t.observe(&block(n));
    }
    assert_eq!(t.count, 3);
    assert_eq!(t.gaps, 1);
    assert_eq!(t.prev, Some(103));
    assert_eq!(t.verdict(3), Err(TallyError::Gaps(1)));
    assert_eq!(t.verdict(4), Err(TallyError::CountMismatch { count: 3, span: 4 }));

    let mut ok = LoadTally::new();
    ok.observe(&block(7));
    ok.observe(&block(8));
    assert_eq!(ok.verdict(2), Ok(()));
}

#[test]
fn manifest_schema_and_span() {
    let mut m = manifest();
    assert!(m.assert_schema_v1().is_ok());
    assert_eq!(m.block_span(), 3);
    m.schema_version = 2;
    assert_eq!(m.assert_schema_v1().unwrap_err(), "manifest schema_version 2 unsupported (expected 1)");
}

type RawKey = (serde_bytes::ByteBuf, Option<serde_bytes::ByteBuf>);
type RawRecord = (u64, u64, Vec<RawKey>, Vec<RawKey>);

fn raw_key(a: u8, slot: Option<u8>) -> RawKey {
    (
        serde_bytes::ByteBuf::from(vec![a; ADDR_LEN]),
        slot.map(|s| serde_bytes::ByteBuf::from(vec![s; SLOT_LEN])),
    )
}

fn to_wire(k: RawKey) -> WireKey {
    WireKey { addr: k.0.into_vec(), slot: k.1.map(|s| s.into_vec()) }
}

#[test]
fn roundtrip_streams_records_with_sha_verification() {
    // A 3-block shard packed as msgpack positional records, then zstd.
    let records: Vec<RawRecord> = vec![
        (100, 1_700_000_000, vec![raw_key(1, None), raw_key(1, Some(0))], vec![raw_key(1, Some(0))]),
        (101, 1_700_000_012, vec![raw_key(2, Some(7)), raw_key(3, Some(9))], vec![]),
        (102, 1_700_000_024, vec![], vec![raw_key(2, None)]),
    ];
    let packed = rmp_serde::to_vec(&records).unwrap();
    let compressed = zstd::stream::encode_all(&packed[..], 10).unwrap();
    let sha = sha_hex(&compressed);
    let m = Manifest {
        network: "eth-mainnet".to_string(),
        start_block: 100,
        end_block: 102,
        shard_size: 500,
        schema_version: 1,
        key_encoding: "raw-bytes:addr20+slot32-or-nil".to_string(),
        shards: vec![ShardEntry {
            file: "shards/blocks_00000.msgpack.zst".to_string(),
            first_block: 100,
            last_block: 102,
            count: 3,
            sha256: sha,
        }],
    };
    m.assert_schema_v1().unwrap();
    assert_eq!(m.block_span(), 3);

    let mut stream = ShardStream::new(&m, true);
    let mut blocks = Vec::new();
    loop {
        if let Some(b) = stream.pop() {
            blocks.push(b);
            continue;
        }
        let Some((i, expected)) = stream.next_shard() else { break };
        let raw = match unpack_shard(&compressed, expected.as_deref()) {
            Ok(raw) => raw,
            Err(_) => panic!("shard rejected"),
        };
        let decoded: Vec<RawRecord> = rmp_serde::from_slice(&raw).unwrap();
        let wire: Vec<WireRecord> = decoded
            .into_iter()
            .map(|(n, t, r, w)| WireRecord {
                block_number: n,
                timestamp: t,
                reads: r.into_iter().map(to_wire).collect(),
                writes: w.into_iter().map(to_wire).collect(),
            })
            .collect();
        let converted = caching_strategies::loader::convert_records(wire).unwrap();
        stream.accept(i, converted).unwrap();
    }

    assert_eq!(blocks.len(), 3);
    // ascending
    assert_eq!(blocks[0].block_number, 100);
    assert_eq!(blocks[2].block_number, 102);

    // block 100: nil slot → account header, real slot → storage
    let addr = |n: u8| Address([n; ADDR_LEN]);
    assert_eq!(blocks[0].timestamp, 1_700_000_000);
    assert!(blocks[0].reads.contains(&Key::account(addr(1))));
    assert!(blocks[0].reads.contains(&Key::storage(addr(1), [0; SLOT_LEN])));
    assert_eq!(blocks[0].writes, vec![Key::storage(addr(1), [0; SLOT_LEN])]);

    // block 101: two distinct-contract storage reads, no writes
    assert_eq!(blocks[1].reads.len(), 2);
    assert!(blocks[1].writes.is_empty());

    // block 102: empty reads, one account write
    assert!(blocks[2].reads.is_empty());
    assert_eq!(blocks[2].writes, vec![Key::account(addr(2))]);
}

#[test]
fn convert_records_reports_the_first_bad_record() {
    let good = |n: u64| WireRecord { block_number: n, timestamp: n, reads: vec![wkey(1, None)], writes: vec![] };
    let bad_write = WireRecord {
        block_number: 2,
        timestamp: 2,
        reads: vec![],
        writes: vec![WireKey { addr: vec![1u8; 20], slot: Some(vec![0u8; 31]) }],
    };
    let bad_read = WireRecord {
        block_number: 3,
        timestamp: 3,
        reads: vec![WireKey { addr: vec![1u8; 19], slot: None }],
        writes: vec![],
    };
    let err = caching_strategies::loader::convert_records(vec![good(1), bad_write, bad_read, good(4)]).unwrap_err();
    assert_eq!(err, RecordError::WriteSet(KeyError::SlotLength(31)));
    let ok = caching_strategies::loader::convert_records(vec![good(1), good(2)]).unwrap();
    assert_eq!(ok.len(), 2);
    assert_eq!(ok[1].block_number, 2);
}

//! The structural witness-size model and the key-to-stem derivation.

use caching_strategies::model::{Address, Key, ADDR_LEN, SLOT_LEN};
use caching_strategies::witness::{
    key_to_leaf, seal, slot_below_header_offset, BlockWitnessAccum, COMMITMENT_BYTES,
    IPA_FLOOR_BYTES, STEM_SCAFFOLD_BYTES, VALUE_BYTES,
};

const A: Address = Address([7u8; ADDR_LEN]);
const B: Address = Address([9u8; ADDR_LEN]);

fn slot_key(addr: Address, n: u64) -> Key {
    let mut s = [0u8; SLOT_LEN];
    s[SLOT_LEN - 8..].copy_from_slice(&n.to_be_bytes());
    Key::storage(addr, s)
}

fn accum(leaves: &[(Key, bool, bool)]) -> BlockWitnessAccum {
    let mut a = BlockWitnessAccum::default();
    for (k, resident, written) in leaves {
        a.record_leaf(k, *resident, *written);
    }
    a
}

#[test]
fn account_header_is_suffix_zero() {
    let (stem, suffix) = key_to_leaf(&Key::account(A));
    assert_eq!(suffix, 0);
    assert!(!stem.storage);
    assert_eq!(stem.chunk, [0u8; 31]);
}

#[test]
fn low_slots_share_the_header_stem() {
    let header = key_to_leaf(&Key::account(A)).0;
    // EIP-6800 HEADER_STORAGE_OFFSET: slots 0..63 live at suffixes 64..127
    // of the account's own stem rather than in a storage stem of their own.
    let (s0, suf0) = key_to_leaf(&slot_key(A, 0));
    let (s63, suf63) = key_to_leaf(&slot_key(A, 63));
    assert_eq!(s0, header);
    assert_eq!(s63, header);
    assert_eq!(suf0, 64);
    assert_eq!(suf63, 127);
}

#[test]
fn slot_64_is_the_first_main_storage_leaf() {
    // The boundary: 63 is still header, 64 is the first main-storage slot.
    let (stem, suffix) = key_to_leaf(&slot_key(A, 64));
    assert!(stem.storage);
    assert_eq!(stem.chunk, [0u8; 31], "slot 64 sits in storage chunk 0");
    assert_eq!(suffix, 64);
    assert_ne!(stem, key_to_leaf(&slot_key(A, 63)).0);
}

#[test]
fn slot_256_opens_the_next_chunk() {
    let (stem, suffix) = key_to_leaf(&slot_key(A, 256));
    assert!(stem.storage);
    assert_eq!(suffix, 0);
    let mut want = [0u8; 31];
    want[30] = 1;
    assert_eq!(stem.chunk, want);
}

#[test]
fn stems_group_by_256_slot_blocks() {
    let same_a = key_to_leaf(&slot_key(A, 300)).0;
    let same_b = key_to_leaf(&slot_key(A, 400)).0; // both in chunk 1
    let other = key_to_leaf(&slot_key(A, 556)).0; // chunk 2, i.e. 300 + 256
    assert_eq!(same_a, same_b);
    assert_ne!(same_a, other);
}

#[test]
fn stems_are_per_address() {
    assert_ne!(key_to_leaf(&slot_key(A, 300)).0, key_to_leaf(&slot_key(B, 300)).0);
    assert_ne!(key_to_leaf(&Key::account(A)).0, key_to_leaf(&Key::account(B)).0);
}

#[test]
fn header_path_needs_the_whole_slot_below_64() {
    let mut s = [0u8; SLOT_LEN];
    s[SLOT_LEN - 2] = 1; // slot = 256
    assert!(!slot_below_header_offset(&s));
    s[SLOT_LEN - 1] = 5; // slot = 261, low byte 5 < 64
    assert!(!slot_below_header_offset(&s));

    let mut low = [0u8; SLOT_LEN];
    low[SLOT_LEN - 1] = 63;
    assert!(slot_below_header_offset(&low));
    low[SLOT_LEN - 1] = 64;
    assert!(!slot_below_header_offset(&low), "64 is the exclusive bound");
}

#[test]
fn empty_block_is_just_the_proof_floor() {
    let wb = seal(&accum(&[]));
    assert_eq!(wb.naive, IPA_FLOOR_BYTES);
    assert_eq!(wb.sent, IPA_FLOOR_BYTES);
    assert_eq!(wb.floor, IPA_FLOOR_BYTES);
    assert_eq!(wb.saved, 0);
}

#[test]
fn single_cold_leaf_saves_nothing() {
    let wb = seal(&accum(&[(Key::account(A), false, false)]));
    assert_eq!(wb.naive, IPA_FLOOR_BYTES + COMMITMENT_BYTES + STEM_SCAFFOLD_BYTES + 33);
    assert_eq!(wb.sent, wb.naive);
    assert_eq!(wb.saved, 0);
}

#[test]
fn resident_unwritten_leaf_elides_its_stem() {
    let wb = seal(&accum(&[(Key::account(A), true, false)]));
    assert_eq!(wb.sent, IPA_FLOOR_BYTES, "leaf and its stem both elided");
    assert_eq!(wb.saved, wb.naive - IPA_FLOOR_BYTES);
}

#[test]
fn stem_is_charged_once_for_all_its_leaves() {
    let wb = seal(&accum(&[
        (slot_key(A, 300), true, false),
        (slot_key(A, 400), false, false),
    ]));
    assert_eq!(wb.sent, IPA_FLOOR_BYTES + COMMITMENT_BYTES + STEM_SCAFFOLD_BYTES + 33);
    assert_eq!(wb.naive, IPA_FLOOR_BYTES + COMMITMENT_BYTES + STEM_SCAFFOLD_BYTES + 33 + 33);
}

#[test]
fn account_header_and_low_slot_share_one_stem_charge() {
    let wb = seal(&accum(&[(Key::account(A), false, false), (slot_key(A, 0), false, false)]));
    assert_eq!(wb.naive, IPA_FLOOR_BYTES + COMMITMENT_BYTES + STEM_SCAFFOLD_BYTES + 33 + 33);
}

#[test]
fn cold_written_leaf_costs_65_and_dirties_its_stem() {
    let wb = seal(&accum(&[(Key::account(A), false, true)]));
    assert_eq!(wb.naive, IPA_FLOOR_BYTES + COMMITMENT_BYTES + STEM_SCAFFOLD_BYTES + 65);
    assert_eq!(wb.sent, wb.naive);
    assert_eq!(wb.saved, 0);
}

#[test]
fn resident_written_leaf_pays_for_the_new_value_only() {
    let wb = seal(&accum(&[(Key::account(A), true, true)]));
    assert_eq!(wb.naive, IPA_FLOOR_BYTES + COMMITMENT_BYTES + STEM_SCAFFOLD_BYTES + 65);
    assert_eq!(wb.sent, IPA_FLOOR_BYTES + COMMITMENT_BYTES + STEM_SCAFFOLD_BYTES + 33);
    assert_eq!(wb.saved, VALUE_BYTES);
}

#[test]
fn a_write_dirties_the_stem_for_its_resident_siblings() {
    let wb = seal(&accum(&[
        (slot_key(A, 300), true, false),
        (slot_key(A, 400), true, true),
    ]));
    assert_eq!(wb.sent, IPA_FLOOR_BYTES + COMMITMENT_BYTES + STEM_SCAFFOLD_BYTES + 33);
}

#[test]
fn read_and_write_of_one_key_merges_to_written() {
    let k = Key::account(A);
    let read_then_write = seal(&accum(&[(k, true, false), (k, false, true)]));
    let write_then_read = seal(&accum(&[(k, false, true), (k, true, false)]));
    assert_eq!(read_then_write, write_then_read);
    assert_eq!(
        read_then_write.sent,
        IPA_FLOOR_BYTES + COMMITMENT_BYTES + STEM_SCAFFOLD_BYTES + 65
    );
}

#[test]
fn naive_ignores_residency() {
    let keys = [Key::account(A), slot_key(A, 0), slot_key(A, 300), slot_key(B, 900)];
    let cold: Vec<_> = keys.iter().map(|k| (*k, false, false)).collect();
    let warm: Vec<_> = keys.iter().map(|k| (*k, true, false)).collect();
    let cold_wb = seal(&accum(&cold));
    let warm_wb = seal(&accum(&warm));
    assert_eq!(cold_wb.naive, warm_wb.naive);
    assert_ne!(cold_wb.sent, warm_wb.sent, "residency must still move `sent`");
}

#[test]
fn relaxed_rule_never_charges_more_than_the_published_rule_per_block() {
    // A stem with one clean leaf and one cold leaf: the published rule charges
    // it, the relaxed rule (some held leaf, none written) does not.
    let wb = seal(&accum(&[
        (slot_key(A, 300), true, false),
        (slot_key(A, 400), false, false),
    ]));
    assert_eq!(wb.sent_stem_opt, IPA_FLOOR_BYTES + 33);
    assert!(wb.floor <= wb.sent_stem_opt && wb.sent_stem_opt <= wb.sent && wb.sent <= wb.naive);
    assert_eq!(wb.saved, wb.naive - wb.sent);
}

#[test]
fn commitments_by_path_is_one_commitment_per_stem() {
    assert_eq!(caching_strategies::witness::commitments_by_path_bytes(0), 0);
    assert_eq!(caching_strategies::witness::commitments_by_path_bytes(3), 96);
}

#[test]
fn holding_one_more_leaf_never_sends_more() {
    // Same leaves, same writes; the second client also holds slot 400.
    let fewer = seal(&accum(&[
        (slot_key(A, 300), true, false),
        (slot_key(A, 400), false, false),
        (slot_key(B, 900), false, true),
    ]));
    let more = seal(&accum(&[
        (slot_key(A, 300), true, false),
        (slot_key(A, 400), true, false),
        (slot_key(B, 900), false, true),
    ]));
    assert_eq!(more.naive, fewer.naive);
    assert!(more.sent <= fewer.sent);
    assert!(more.sent_stem <= fewer.sent_stem);
    assert!(more.sent_stem_opt <= fewer.sent_stem_opt);
    assert!(more.saved >= fewer.saved);
    // The stem of A is now free under the published rule, and slot 400 is free.
    assert_eq!(fewer.sent - more.sent, 33 + 128);
}

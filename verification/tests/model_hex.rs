//! Address hex round trip and key variants.

use caching_strategies::model::{Address, Key, ADDR_LEN, SLOT_LEN};

#[test]
fn address_hex_roundtrip() {
    let a = Address([0xab; ADDR_LEN]);
    let h = a.to_hex();
    assert_eq!(h.len(), 42);
    assert_eq!(Address::from_hex(&h).unwrap(), a);
    // matches a known lower-case strata address
    let usdt = "0xdac17f958d2ee523a2206206994597c13d831ec7";
    assert_eq!(Address::from_hex(usdt).unwrap().to_hex(), usdt);
}

#[test]
fn key_variants_distinct() {
    let a = Address([1; ADDR_LEN]);
    assert_ne!(Key::account(a), Key::storage(a, [0; SLOT_LEN]));
}

#[test]
fn from_hex_accepts_upper_case_and_no_prefix() {
    let a = Address::from_hex("DAC17F958D2EE523A2206206994597C13D831EC7").unwrap();
    assert_eq!(a.to_hex(), "0xdac17f958d2ee523a2206206994597c13d831ec7");
}

#[test]
fn from_hex_rejects_wrong_length() {
    let err = Address::from_hex("0xabcd").unwrap_err();
    assert_eq!(err, "address hex must be 40 chars, got 4");
}

#[test]
fn from_hex_rejects_bad_digit() {
    let err = Address::from_hex("0xzz c17f958d2ee523a2206206994597c13d831ec7").unwrap_err();
    assert_eq!(err, "address hex must be 40 chars, got 41");
    let err = Address::from_hex("0xzzc17f958d2ee523a2206206994597c13d831ec7").unwrap_err();
    assert_eq!(err, "bad hex in address: invalid digit found in string");
}

#[test]
fn debug_text_shows_address_and_slot_head() {
    let a = Address::from_hex("0xdac17f958d2ee523a2206206994597c13d831ec7").unwrap();
    assert_eq!(a.debug_text(), "Address(0xdac17f958d2ee523a2206206994597c13d831ec7)");
    assert_eq!(
        Key::account(a).debug_text(),
        "Key(0xdac17f958d2ee523a2206206994597c13d831ec7, header)"
    );
    let mut slot = [0u8; SLOT_LEN];
    slot[0] = 0xab;
    slot[1] = 0x01;
    slot[2] = 0xff;
    slot[3] = 0x10;
    slot[4] = 0x77;
    assert_eq!(
        Key::storage(a, slot).debug_text(),
        "Key(0xdac17f958d2ee523a2206206994597c13d831ec7, slot 0xab01ff10..)"
    );
}

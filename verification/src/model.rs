use vstd::prelude::*;

use vstd::string::*;
use vstd::utf8::is_ascii_chars;

use crate::policy::CacheKey;

verus! {

pub const ADDR_LEN: usize = 20;

pub const SLOT_LEN: usize = 32;

/// A 20-byte account address.
#[derive(Clone, Copy, Debug, PartialEq, Eq, Hash, PartialOrd, Ord)]
pub struct Address(pub [u8; 20]);

/// A state key: an account header (`slot == None`) or one storage slot.
#[derive(Clone, Copy, Debug, PartialEq, Eq, Hash)]
pub struct Key {
    pub addr: Address,
    pub slot: Option<[u8; 32]>,
}

/// The little-endian word formed by the eight bytes of `s` starting at `at`.
pub open spec fn le_word(s: Seq<u8>, at: int) -> u64 {
    (s[at] as u64) | ((s[at + 1] as u64) << 8u64) | ((s[at + 2] as u64) << 16u64) | ((s[at + 3]
        as u64) << 24u64) | ((s[at + 4] as u64) << 32u64) | ((s[at + 5] as u64) << 40u64) | ((s[at
        + 6] as u64) << 48u64) | ((s[at + 7] as u64) << 56u64)
}

fn le_word_exec(s: &[u8], at: usize) -> (r: u64)
    requires
        at + 8 <= s@.len(),
    ensures
        r == le_word(s@, at as int),
{
    (s[at] as u64) | ((s[at + 1] as u64) << 8u64) | ((s[at + 2] as u64) << 16u64) | ((s[at + 3]
        as u64) << 24u64) | ((s[at + 4] as u64) << 32u64) | ((s[at + 5] as u64) << 40u64) | ((s[at
        + 6] as u64) << 48u64) | ((s[at + 7] as u64) << 56u64)
}

/// Fingerprint of an address: its leading and trailing words, the second one
/// shifted so that addresses made of one repeated byte still differ.
pub open spec fn address_hash(a: Seq<u8>) -> u64 {
    le_word(a, 0) ^ (le_word(a, 12) >> 7u64)
}

fn address_hash_exec(a: &[u8; 20]) -> (r: u64)
    ensures
        r == address_hash(a@),
{
    let s = a.as_slice();
    le_word_exec(s, 0) ^ (le_word_exec(s, 12) >> 7u64)
}

/// Byte-wise equality of two slices of one length.
fn bytes_equal(a: &[u8], b: &[u8]) -> (r: bool)
    requires
        a@.len() == b@.len(),
    ensures
        r == (a@ =~= b@),
{
    let mut i: usize = 0;
    while i < a.len()
        invariant
            a@.len() == b@.len(),
            0 <= i <= a@.len(),
            forall|j: int| 0 <= j < i ==> a@[j] == b@[j],
        decreases a@.len() - i,
    {
        if a[i] != b[i] {
            return false;
        }
        i = i + 1;
    }
    true
}

pub fn address_eq(a: &Address, b: &Address) -> (r: bool)
    ensures
        r == (*a == *b),
{
    let r = bytes_equal(a.0.as_slice(), b.0.as_slice());
    proof {
        if r {
            assert(a.0 =~= b.0);
        }
    }
    r
}

impl CacheKey for Address {
    open spec fn key_hash(&self) -> u64 {
        address_hash(self.0@)
    }

    fn fingerprint(&self) -> (r: u64) {
        address_hash_exec(&self.0)
    }

    fn same_key(&self, other: &Self) -> (r: bool) {
        address_eq(self, other)
    }
}

impl CacheKey for Key {
    open spec fn key_hash(&self) -> u64 {
        match self.slot {
            None => address_hash(self.addr.0@),
            Some(s) => address_hash(self.addr.0@) ^ le_word(s@, 24) ^ (le_word(s@, 0) >> 3u64)
                ^ 0x9e37_79b9_7f4a_7c15u64,
        }
    }

    fn fingerprint(&self) -> (r: u64) {
        let h = address_hash_exec(&self.addr.0);
        match &self.slot {
            None => h,
            Some(s) => {
                let sl = s.as_slice();
                h ^ le_word_exec(sl, 24) ^ (le_word_exec(sl, 0) >> 3u64) ^ 0x9e37_79b9_7f4a_7c15u64
            },
        }
    }

    fn same_key(&self, other: &Self) -> (r: bool) {
        if !address_eq(&self.addr, &other.addr) {
            return false;
        }
        match (&self.slot, &other.slot) {
            (None, None) => true,
            (Some(a), Some(b)) => {
                let r = bytes_equal(a.as_slice(), b.as_slice());
                proof {
                    if r {
                        assert(*a =~= *b);
                    }
                }
                r
            },
            _ => false,
        }
    }
}

impl Key {
    pub fn account(addr: Address) -> (k: Key)
        ensures
            k == (Key { addr, slot: None }),
    {
        Key { addr, slot: None }
    }

    pub fn storage(addr: Address, slot: [u8; 32]) -> (k: Key)
        ensures
            k == (Key { addr, slot: Some(slot) }),
    {
        Key { addr, slot: Some(slot) }
    }

    /// The debug form of the key as `debug_text` writes it.
    pub open spec fn debug_spec(self) -> Seq<char> {
        match self.slot {
            None => "Key("@ + self.addr.hex_spec() + ", header)"@,
            Some(sl) => "Key("@ + self.addr.hex_spec() + ", slot 0x"@ + hex_of(sl@.take(4)) + "..)"@,
        }
    }

    /// The key as its debug form shows it: the address, then `header` or the
    /// first four bytes of the slot in hex.
    pub fn debug_text(&self) -> (s: String)
        ensures
            s@ == self.debug_spec(),
    {
        let mut s = String::from_str("Key(");
        let h = self.addr.to_hex();
        s.append(h.as_str());
        match &self.slot {
            None => {
                s.append(", header)");
            },
            Some(sl) => {
                s.append(", slot 0x");
                let head = vstd::slice::slice_subrange(sl.as_slice(), 0, 4);
                push_hex(&mut s, head);
                s.append("..)");
            },
        }
        s
    }
}

/// One block of the trace: its number, timestamp, and the keys it read and wrote.
#[derive(Clone, Debug)]
pub struct BlockRecord {
    pub block_number: u64,
    pub timestamp: u64,
    pub reads: Vec<Key>,
    pub writes: Vec<Key>,
}


/// The lower-case hex digit of a nibble.
pub open spec fn hex_digit(n: int) -> char {
    if n < 10 {
        (48 + n) as char
    } else {
        (87 + n) as char
    }
}

/// Lower-case hex of a byte string, two digits per byte, high nibble first.
pub open spec fn hex_of(b: Seq<u8>) -> Seq<char>
    decreases b.len(),
{
    if b.len() == 0 {
        Seq::empty()
    } else {
        hex_of(b.drop_last()) + seq![hex_digit((b.last() / 16) as int), hex_digit((b.last() % 16) as int)]
    }
}

/// The decimal digits of `n`, most significant first.
pub open spec fn decimal_of(n: nat) -> Seq<char>
    decreases n,
{
    if n < 10 {
        seq![(48 + n) as char]
    } else {
        decimal_of(n / 10).push((48 + n % 10) as char)
    }
}

/// The value of an ASCII hex digit of either case.
pub open spec fn hex_value(c: u8) -> Option<u8> {
    if 48 <= c <= 57 {
        Some((c - 48) as u8)
    } else if 97 <= c <= 102 {
        Some((c - 87) as u8)
    } else if 65 <= c <= 70 {
        Some((c - 55) as u8)
    } else {
        None
    }
}

/// A two-byte radix-16 field as `u8::from_str_radix` reads it: two digits, or
/// a plus sign and one digit.
pub open spec fn hex_pair(a: u8, b: u8) -> Option<u8> {
    if a == 43 {
        hex_value(b)
    } else {
        match (hex_value(a), hex_value(b)) {
            (Some(x), Some(y)) => Some((16 * x + y) as u8),
            _ => None,
        }
    }
}

/// The bytes after a leading `0x`, if there is one.
pub open spec fn strip_0x(b: Seq<u8>) -> Seq<u8> {
    if b.len() >= 2 && b[0] == 48 && b[1] == 120 {
        b.skip(2)
    } else {
        b
    }
}

/// Every byte pair of `h` is a radix-16 field.
pub open spec fn hex_pairs_ok(h: Seq<u8>) -> bool {
    forall|i: int| 0 <= i < h.len() / 2 ==> (#[trigger] hex_pair(h[2 * i], h[2 * i + 1])) is Some
}

/// The bytes of an ASCII character string.
pub open spec fn ascii_bytes(cs: Seq<char>) -> Seq<u8> {
    Seq::new(cs.len(), |i: int| cs[i] as u8)
}

/// Appends the character `"0123456789abcdef"[n]`.
fn push_digit(s: &mut String, n: u8)
    requires
        n < 16,
    ensures
        final(s)@ == old(s)@.push(hex_digit(n as int)),
{
    let digits = "0123456789abcdef";
    proof {
        reveal_strlit("0123456789abcdef");
        assert(digits@[n as int] == hex_digit(n as int)) by {
            assert(digits@ == seq!['0', '1', '2', '3', '4', '5', '6', '7', '8', '9', 'a', 'b', 'c', 'd', 'e', 'f']);
        }
    }
    let nu = n as usize;
    let d = digits.substring_ascii(nu, nu + 1);
    s.append(d);
    proof {
        assert(d@ =~= seq![hex_digit(n as int)]);
        assert(final(s)@ =~= old(s)@.push(hex_digit(n as int)));
    }
}

/// Appends the decimal digits of `n`.
pub fn push_decimal(s: &mut String, n: usize)
    ensures
        final(s)@ == old(s)@ + decimal_of(n as nat),
    decreases n,
{
    if n >= 10 {
        push_decimal(s, n / 10);
    }
    push_digit(s, (n % 10) as u8);
    proof {
        assert(hex_digit((n % 10) as int) == (48 + (n % 10) as nat) as char);
        if n >= 10 {
            assert(final(s)@ =~= old(s)@ + decimal_of(n as nat));
        } else {
            assert(final(s)@ =~= old(s)@ + decimal_of(n as nat));
        }
    }
}

/// Appends the lower-case hex of `bytes`.
pub fn push_hex(s: &mut String, bytes: &[u8])
    ensures
        final(s)@ == old(s)@ + hex_of(bytes@),
{
    let ghost s0 = s@;
    let mut i: usize = 0;
    while i < bytes.len()
        invariant
            0 <= i <= bytes@.len(),
            s@ == s0 + hex_of(bytes@.take(i as int)),
        decreases bytes@.len() - i,
    {
        let b = bytes[i];
        push_digit(s, b / 16);
        push_digit(s, b % 16);
        proof {
            assert(bytes@.take(i + 1).drop_last() =~= bytes@.take(i as int));
            assert(bytes@.take(i + 1).last() == b);
            assert(s@ =~= s0 + hex_of(bytes@.take(i + 1)));
        }
        i = i + 1;
    }
    proof {
        assert(bytes@.take(bytes@.len() as int) =~= bytes@);
    }
}

impl Address {
    /// `0x` followed by the address in lower-case hex.
    pub open spec fn hex_spec(self) -> Seq<char> {
        "0x"@ + hex_of(self.0@)
    }

    /// The address as `0x` and forty lower-case hex digits.
    pub fn to_hex(self) -> (s: String)
        ensures
            s@ == self.hex_spec(),
    {
        let mut s = String::from_str("0x");
        push_hex(&mut s, self.0.as_slice());
        s
    }

    /// The address as its debug form shows it: `Address(0x…)`.
    pub fn debug_text(self) -> (s: String)
        ensures
            s@ == "Address("@ + self.hex_spec() + ")"@,
    {
        let mut s = String::from_str("Address(");
        let h = self.to_hex();
        s.append(h.as_str());
        s.append(")");
        s
    }

    /// Parses forty hex digits of either case, optionally after `0x`.
    pub fn from_hex(s: &str) -> (r: Result<Address, String>)
        ensures
            ({
                let h = strip_0x(s.spec_bytes());
                &&& h.len() != 40 ==> r is Err && r->Err_0@ == "address hex must be 40 chars, got "@
                    + decimal_of(h.len())
                &&& h.len() == 40 && hex_pairs_ok(h) ==> r is Ok && forall|i: int|
                    0 <= i < 20 ==> #[trigger] r->Ok_0.0[i] == hex_pair(h[2 * i], h[2 * i + 1])->Some_0
                &&& h.len() == 40 && !hex_pairs_ok(h) ==> r is Err && r->Err_0@
                    == "bad hex in address: invalid digit found in string"@
            }),
    {
        let b = s.as_bytes();
        let start: usize = if b.len() >= 2 && b[0] == 48 && b[1] == 120 {
            2
        } else {
            0
        };
        let ghost h = strip_0x(s.spec_bytes());
        proof {
            assert(b@ == s.spec_bytes());
            if start == 2 {
                assert(h =~= b@.skip(2));
            } else {
                assert(h =~= b@.skip(0));
            }
        }
        let len = b.len() - start;
        if len != 40 {
            let mut msg = String::from_str("address hex must be 40 chars, got ");
            push_decimal(&mut msg, len);
            return Err(msg);
        }
        let mut out = [0u8; 20];
        let mut i: usize = 0;
        while i < 20
            invariant
                0 <= i <= 20,
                b@ == s.spec_bytes(),
                h == b@.skip(start as int),
                h == strip_0x(s.spec_bytes()),
                h.len() == 40,
                start + 40 == b@.len(),
                start + 40 == b.len(),
                forall|j: int| 0 <= j < i ==> (#[trigger] hex_pair(h[2 * j], h[2 * j + 1])) is Some,
                forall|j: int| 0 <= j < i ==> out[j] == hex_pair(h[2 * j], h[2 * j + 1])->Some_0,
            decreases 20 - i,
        {
            let hi = b[start + 2 * i];
            let lo = b[start + 2 * i + 1];
            proof {
                assert(hi == h[2 * i]);
                assert(lo == h[2 * i + 1]);
            }
            match hex_pair_exec(hi, lo) {
                Some(v) => {
                    out[i] = v;
                },
                None => {
                    proof {
                        assert(!hex_pairs_ok(h));
                    }
                    let msg = String::from_str("bad hex in address: invalid digit found in string");
                    proof {
                        assert(msg@ == "bad hex in address: invalid digit found in string"@);
                        assert(strip_0x(s.spec_bytes()) == h);
                    }
                    return Err(msg);
                },
            }
            i = i + 1;
        }
        proof {
            assert(hex_pairs_ok(h)) by {
                assert forall|j: int| 0 <= j < h.len() / 2 implies (#[trigger] hex_pair(h[2 * j], h[2 * j + 1])) is Some by {
                }
            }
        }
        Ok(Address(out))
    }
}

fn hex_value_exec(c: u8) -> (r: Option<u8>)
    ensures
        r == hex_value(c),
{
    if 48 <= c && c <= 57 {
        Some(c - 48)
    } else if 97 <= c && c <= 102 {
        Some(c - 87)
    } else if 65 <= c && c <= 70 {
        Some(c - 55)
    } else {
        None
    }
}

fn hex_pair_exec(a: u8, b: u8) -> (r: Option<u8>)
    ensures
        r == hex_pair(a, b),
{
    if a == 43 {
        hex_value_exec(b)
    } else {
        match (hex_value_exec(a), hex_value_exec(b)) {
            (Some(x), Some(y)) => Some(16 * x + y),
            _ => None,
        }
    }
}


proof fn lemma_hex_of(b: Seq<u8>)
    ensures
        hex_of(b).len() == 2 * b.len(),
        forall|i: int|
            0 <= i < b.len() ==> hex_of(b)[2 * i] == hex_digit((#[trigger] b[i] / 16) as int) && hex_of(
                b,
            )[2 * i + 1] == hex_digit((b[i] % 16) as int),
    decreases b.len(),
{
    if b.len() > 0 {
        let t = b.drop_last();
        lemma_hex_of(t);
        assert forall|i: int| 0 <= i < b.len() implies hex_of(b)[2 * i] == hex_digit(
            (#[trigger] b[i] / 16) as int,
        ) && hex_of(b)[2 * i + 1] == hex_digit((b[i] % 16) as int) by {
            if i < t.len() {
                assert(t[i] == b[i]);
            }
        }
    }
}

/// Reading back the hex of an address gives the address: the text is ASCII,
/// has forty digits after `0x`, and each digit pair is the byte it came from.
pub proof fn lemma_hex_roundtrip(a: Address)
    ensures
        is_ascii_chars(a.hex_spec()),
        strip_0x(ascii_bytes(a.hex_spec())).len() == 40,
        hex_pairs_ok(strip_0x(ascii_bytes(a.hex_spec()))),
        forall|i: int|
            0 <= i < 20 ==> #[trigger] hex_pair(
                strip_0x(ascii_bytes(a.hex_spec()))[2 * i],
                strip_0x(ascii_bytes(a.hex_spec()))[2 * i + 1],
            ) == Some(a.0[i]),
{
    reveal_strlit("0x");
    let b = a.0@;
    lemma_hex_of(b);
    let cs = a.hex_spec();
    assert(cs.len() == 42);
    assert forall|i: int| 0 <= i < cs.len() implies '\0' <= #[trigger] cs[i] <= '\u{7f}' by {
        if i >= 2 {
            let k = (i - 2) / 2;
            assert(b[k] == a.0[k]);
            if (i - 2) % 2 == 0 {
                assert(i - 2 == 2 * k);
                assert(cs[i] == hex_of(b)[2 * k]);
            } else {
                assert(i - 2 == 2 * k + 1);
                assert(cs[i] == hex_of(b)[2 * k + 1]);
            }
        }
    }
    let bytes = ascii_bytes(cs);
    assert(bytes[0] == 48 && bytes[1] == 120);
    let h = strip_0x(bytes);
    assert(h.len() == 40);
    assert forall|i: int| 0 <= i < 20 implies #[trigger] hex_pair(h[2 * i], h[2 * i + 1]) == Some(a.0[i]) by {
        assert(b[i] == a.0[i]);
        assert(h[2 * i] == cs[2 * i + 2] as u8);
        assert(cs[2 * i + 2] == hex_of(b)[2 * i]);
        assert(h[2 * i + 1] == cs[2 * i + 3] as u8);
        assert(cs[2 * i + 3] == hex_of(b)[2 * i + 1]);
        let x = a.0[i];
        assert(16 * (x / 16) + x % 16 == x);
    }
    assert forall|i: int| 0 <= i < h.len() / 2 implies (#[trigger] hex_pair(h[2 * i], h[2 * i + 1])) is Some by {
        assert(hex_pair(h[2 * i], h[2 * i + 1]) == Some(a.0[i]));
    }
}

} // verus!

//! The calls into outside crates, each behind a contract.
use vstd::prelude::*;
use vstd::string::StringSliceAdditionalSpecFns;

verus! {

/// The BLAKE3 digest of a byte string.
pub uninterp spec fn blake3_digest(b: Seq<u8>) -> Seq<u8>;

/// Relies on `blake3::hash`: a 32-byte digest that depends on the input bytes alone.
#[verifier::external_body]
pub(crate) fn content_digest(b: &Vec<u8>) -> (r: Vec<u8>)
    ensures
        r@ == blake3_digest(b@),
        r@.len() == 32,
{
    blake3::hash(b.as_slice()).as_bytes().to_vec()
}

/// The lowercase hexadecimal digit of a value below 16, as an ASCII byte.
pub open spec fn hex_digit(v: int) -> u8 {
    if v < 10 {
        (48 + v) as u8
    } else {
        (87 + v) as u8
    }
}

/// Two lowercase hexadecimal ASCII digits per byte, high nibble first.
pub open spec fn hex_ascii(b: Seq<u8>) -> Seq<u8>
    decreases b.len(),
{
    if b.len() == 0 {
        Seq::empty()
    } else {
        seq![hex_digit(b[0] as int / 16), hex_digit(b[0] as int % 16)] + hex_ascii(b.drop_first())
    }
}

/// Relies on `hex::encode`: lowercase digits, two per byte, high nibble first.
#[verifier::external_body]
pub(crate) fn hex_bytes(b: &Vec<u8>) -> (r: Vec<u8>)
    ensures
        r@ == hex_ascii(b@),
{
    hex::encode(b.as_slice()).into_bytes()
}

/// The length of the UTF-8 sequence that a lead byte starts (0: not a lead byte).
pub open spec fn utf8_lead_len(b0: u8) -> nat {
    if b0 <= 0x7f {
        1
    } else if 0xc2 <= b0 <= 0xdf {
        2
    } else if 0xe0 <= b0 <= 0xef {
        3
    } else if 0xf0 <= b0 <= 0xf4 {
        4
    } else {
        0
    }
}

/// The range of the byte after a lead byte (the Unicode table of well-formed sequences).
pub open spec fn utf8_second_ok(b0: u8, b1: u8) -> bool {
    if b0 == 0xe0 {
        0xa0 <= b1 <= 0xbf
    } else if b0 == 0xed {
        0x80 <= b1 <= 0x9f
    } else if b0 == 0xf0 {
        0x90 <= b1 <= 0xbf
    } else if b0 == 0xf4 {
        0x80 <= b1 <= 0x8f
    } else {
        0x80 <= b1 <= 0xbf
    }
}

/// Whether a byte string is well-formed UTF-8.
pub open spec fn utf8_valid(b: Seq<u8>) -> bool
    decreases b.len(),
{
    if b.len() == 0 {
        true
    } else {
        let n = utf8_lead_len(b[0]);
        &&& 1 <= n <= b.len()
        &&& (n >= 2 ==> utf8_second_ok(b[0], b[1]))
        &&& (forall|i: int| 2 <= i < n ==> 0x80 <= #[trigger] b[i] <= 0xbf)
        &&& utf8_valid(b.skip(n as int))
    }
}

/// Relies on `std::str::from_utf8`: it succeeds exactly on well-formed UTF-8.
#[verifier::external_body]
pub(crate) fn is_utf8(b: &Vec<u8>) -> (r: bool)
    ensures
        r == utf8_valid(b@),
{
    std::str::from_utf8(b.as_slice()).is_ok()
}

/// The Base58 digits of the Bitcoin alphabet, in order of value.
pub open spec fn base58_alphabet() -> Seq<u8> {
    "123456789ABCDEFGHJKLMNPQRSTUVWXYZabcdefghijkmnopqrstuvwxyz".spec_bytes()
}

/// The number of zero bytes that a byte string starts with.
pub open spec fn leading_zeros(b: Seq<u8>) -> nat
    decreases b.len(),
{
    if b.len() > 0 && b[0] == 0 {
        1 + leading_zeros(b.drop_first())
    } else {
        0
    }
}

/// The big-endian value of a byte string.
pub open spec fn be_value(b: Seq<u8>) -> nat
    decreases b.len(),
{
    if b.len() == 0 {
        0
    } else {
        (be_value(b.drop_last()) * 256 + b.last()) as nat
    }
}

/// The Base58 digits of a positive value, most significant first (none for 0).
pub open spec fn base58_digits(v: nat) -> Seq<u8>
    decreases v,
{
    if v == 0 {
        Seq::empty()
    } else {
        base58_digits(v / 58) + seq![base58_alphabet()[(v % 58) as int]]
    }
}

/// The Base58 text of a byte string: one `1` per leading zero byte, then the
/// digits of the value of the rest.
pub open spec fn base58_of(b: Seq<u8>) -> Seq<u8> {
    Seq::new(leading_zeros(b), |i: int| base58_alphabet()[0]) + base58_digits(
        be_value(b.skip(leading_zeros(b) as int)),
    )
}

/// Relies on `bs58::encode(..).into_string()`: Base58 text in the default (Bitcoin)
/// alphabet, a function of the input bytes alone.
#[verifier::external_body]
pub(crate) fn base58(b: &Vec<u8>) -> (r: Vec<u8>)
    ensures
        r@ == base58_of(b@),
{
    bs58::encode(b.as_slice()).into_string().into_bytes()
}

} // verus!

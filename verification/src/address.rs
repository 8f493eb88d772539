//! Pool-address decoding: a hex string, optionally prefixed with `0x`, is
//! turned into exactly 20 raw bytes, or rejected.

use vstd::prelude::*;

verus! {

/// The error for a pool-address string that cannot be turned into 20 bytes.
#[derive(Debug, Clone, Copy, PartialEq, Eq, Structural)]
pub enum AddressError {
    /// The string is not an even-length hex string after removing an optional
    /// `0x` prefix, or it decodes to fewer than 20 bytes.
    InvalidAddress,
}

/// Whether `c` is a hexadecimal digit (either case).
pub open spec fn is_hex_digit(c: char) -> bool {
    ('0' as u32 <= c as u32 && c as u32 <= '9' as u32) || ('a' as u32 <= c as u32 && c as u32
        <= 'f' as u32) || ('A' as u32 <= c as u32 && c as u32 <= 'F' as u32)
}

/// The value of one hexadecimal digit.
pub open spec fn hex_digit_value(c: char) -> u8
    recommends
        is_hex_digit(c),
{
    if '0' as u32 <= c as u32 && c as u32 <= '9' as u32 {
        (c as u32 - '0' as u32) as u8
    } else if 'a' as u32 <= c as u32 && c as u32 <= 'f' as u32 {
        (c as u32 - 'a' as u32 + 10) as u8
    } else {
        (c as u32 - 'A' as u32 + 10) as u8
    }
}

/// Whether every character of `s` is a hexadecimal digit.
pub open spec fn all_hex_digits(s: Seq<char>) -> bool {
    forall|i: int| 0 <= i < s.len() ==> is_hex_digit(#[trigger] s[i])
}

/// The byte denoted by two hexadecimal digits, high digit first.
pub open spec fn byte_of_hex_pair(hi: char, lo: char) -> u8
    recommends
        is_hex_digit(hi),
        is_hex_digit(lo),
{
    (hex_digit_value(hi) * 16 + hex_digit_value(lo)) as u8
}

/// What decoding a hex string yields: one byte per pair of digits, in order,
/// and nothing when the length is odd or any character is not a hex digit.
pub open spec fn spec_hex_decode(s: Seq<char>) -> Option<Seq<u8>> {
    if s.len() % 2 == 0 && all_hex_digits(s) {
        Some(Seq::new(s.len() / 2, |i: int| byte_of_hex_pair(s[2 * i], s[2 * i + 1])))
    } else {
        None
    }
}

/// The string with one leading `0x`, if any, removed.
pub open spec fn strip_0x(s: Seq<char>) -> Seq<char> {
    if s.len() >= 2 && s[0] == '0' && s[1] == 'x' {
        s.skip(2)
    } else {
        s
    }
}

/// What decoding a pool-address string yields: strip an optional `0x` prefix,
/// decode the rest as hex, and keep exactly the first 20 bytes; nothing when
/// the rest is not a hex string or gives fewer than 20 bytes.
pub open spec fn spec_decode_address(s: Seq<char>) -> Option<Seq<u8>> {
    match spec_hex_decode(strip_0x(s)) {
        Some(bytes) => if bytes.len() >= 20 {
            Some(bytes.take(20))
        } else {
            None
        },
        None => None,
    }
}

#[verifier::external_type_specification]
#[verifier::external_body]
pub struct ExFromHexError(hex::FromHexError);

/// Relies on `hex::decode`: it fails on an odd number of characters and on
/// any character that is not a hex digit (`0-9`, `a-f`, `A-F`), and otherwise
/// turns each pair of digits into one byte, high digit first.
#[verifier::external_body]
fn hex_decode(s: &str) -> (r: Result<Vec<u8>, hex::FromHexError>)
    ensures
        r is Ok <==> spec_hex_decode(s@) is Some,
        r is Ok ==> r->Ok_0@ == spec_hex_decode(s@)->Some_0,
{
    hex::decode(s)
}

/// Relies on `str::strip_prefix`: it removes the prefix exactly when the
/// string starts with it, and leaves the string as it is otherwise.
#[verifier::external_body]
fn strip_0x_prefix(s: &str) -> (r: &str)
    ensures
        r@ == strip_0x(s@),
{
    match s.strip_prefix("0x") {
        Some(rest) => rest,
        None => s,
    }
}

/// Decode a pool-address string into exactly 20 bytes.
///
/// An optional `0x` prefix is stripped, the rest is decoded as hex, and the
/// first 20 decoded bytes are the address, most significant byte first. Fails
/// with `InvalidAddress` exactly when the rest is not an even-length hex
/// string or decodes to fewer than 20 bytes. Bytes beyond the first 20 are
/// deliberately dropped: over-long input is parsed permissively.
pub fn decode_address(s: &str) -> (r: Result<[u8; 20], AddressError>)
    ensures
        (match r {
            Ok(addr) => spec_decode_address(s@) == Some(addr@),
            Err(e) => spec_decode_address(s@) is None && e == AddressError::InvalidAddress,
        }),
{
    let stripped = strip_0x_prefix(s);
    let bytes = match hex_decode(stripped) {
        Ok(b) => b,
        Err(_) => {
            return Err(AddressError::InvalidAddress);
        },
    };
    if bytes.len() < 20 {
        return Err(AddressError::InvalidAddress);
    }
    let mut addr = [0u8; 20];
    let mut i: usize = 0;
    while i < 20
        invariant
            i <= 20,
            bytes@.len() >= 20,
            addr@.len() == 20,
            forall|j: int| 0 <= j < i ==> addr@[j] == bytes@[j],
        decreases 20 - i,
    {
        addr[i] = bytes[i];
        i = i + 1;
    }
    assert(addr@ =~= bytes@.take(20));
    Ok(addr)
}

/// The lowercase hexadecimal digit for a value below 16.
pub open spec fn hex_digit_char(v: u8) -> char
    recommends
        v < 16,
{
    if v == 0 {
        '0'
    } else if v == 1 {
        '1'
    } else if v == 2 {
        '2'
    } else if v == 3 {
        '3'
    } else if v == 4 {
        '4'
    } else if v == 5 {
        '5'
    } else if v == 6 {
        '6'
    } else if v == 7 {
        '7'
    } else if v == 8 {
        '8'
    } else if v == 9 {
        '9'
    } else if v == 10 {
        'a'
    } else if v == 11 {
        'b'
    } else if v == 12 {
        'c'
    } else if v == 13 {
        'd'
    } else if v == 14 {
        'e'
    } else {
        'f'
    }
}

/// The lowercase hex string of a byte sequence: two digits per byte, high
/// digit first.
pub open spec fn spec_hex_encode(b: Seq<u8>) -> Seq<char> {
    Seq::new(
        b.len() * 2,
        |i: int|
            if i % 2 == 0 {
                hex_digit_char(b[i / 2] / 16)
            } else {
                hex_digit_char(b[i / 2] % 16)
            },
    )
}

/// Each hex digit decodes back to the value it was written for.
proof fn lemma_hex_digit_round_trip(v: u8)
    requires
        v < 16,
    ensures
        is_hex_digit(hex_digit_char(v)),
        hex_digit_value(hex_digit_char(v)) == v,
        hex_digit_char(v) != 'x',
{
}

/// Address round-trip: hex-encoding any 20 bytes and decoding the resulting
/// 40-character string, with or without a `0x` prefix, yields the same 20
/// bytes verbatim, in order.
pub proof fn lemma_address_round_trip(b: Seq<u8>)
    requires
        b.len() == 20,
    ensures
        spec_decode_address(spec_hex_encode(b)) == Some(b),
        spec_decode_address(seq!['0', 'x'] + spec_hex_encode(b)) == Some(b),
{
    let s = spec_hex_encode(b);
    assert forall|i: int| 0 <= i < s.len() implies is_hex_digit(#[trigger] s[i]) by {
        if i % 2 == 0 {
            lemma_hex_digit_round_trip(b[i / 2] / 16);
        } else {
            lemma_hex_digit_round_trip(b[i / 2] % 16);
        }
    }
    lemma_hex_digit_round_trip(b[0] % 16);
    assert(s[1] != 'x');
    assert(strip_0x(s) == s);
    let decoded = spec_hex_decode(s)->Some_0;
    assert forall|i: int| 0 <= i < 20 implies decoded[i] == b[i] by {
        lemma_hex_digit_round_trip(b[i] / 16);
        lemma_hex_digit_round_trip(b[i] % 16);
        assert(byte_of_hex_pair(s[2 * i], s[2 * i + 1]) == ((b[i] / 16) * 16 + b[i] % 16) as u8);
    }
    assert(decoded =~= b);
    assert(decoded.take(20) =~= b);

    let p = seq!['0', 'x'] + s;
    assert(p[0] == '0' && p[1] == 'x');
    assert(strip_0x(p) =~= s);
}

} // verus!

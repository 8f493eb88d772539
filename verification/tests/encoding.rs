use arb_encode::{decode_address, encode_arbitrage_request, AddressError};

fn addr_from(s: &str) -> [u8; 20] {
    decode_address(s).expect("valid address")
}

#[test]
fn test_length_law() {
    let a = addr_from("0x00112233445566778899aabbccddeeff00112233");
    assert_eq!(encode_arbitrage_request(0, 0, vec![]).len(), 32);
    assert_eq!(encode_arbitrage_request(1, 2, vec![(true, true, a)]).len(), 32 + 21);
    let steps = vec![(true, false, a), (false, true, a), (false, false, a)];
    assert_eq!(encode_arbitrage_request(7, 9, steps).len(), 32 + 21 * 3);
}

#[test]
fn test_field_placement_zero() {
    let out = encode_arbitrage_request(0, 0, vec![]);
    assert_eq!(out, vec![0u8; 32]);
}

#[test]
fn test_field_placement_max() {
    let out = encode_arbitrage_request(u128::MAX, u128::MAX, vec![]);
    assert_eq!(out, vec![0xffu8; 32]);
}

#[test]
fn test_field_placement_mixed() {
    let out = encode_arbitrage_request(1, u128::MAX - 1, vec![]);
    let mut expected = vec![0u8; 16];
    expected[15] = 1;
    expected.extend_from_slice(&[0xff; 16]);
    expected[31] = 0xfe;
    assert_eq!(out, expected);
}

#[test]
fn test_field_placement_big_endian_bytes() {
    // 0x0102030405060708090a0b0c0d0e0f10 spelled out most significant first.
    let amount: u128 = 0x0102030405060708090a0b0c0d0e0f10;
    let out = encode_arbitrage_request(amount, 0, vec![]);
    let expected: Vec<u8> = (1u8..=16).collect();
    assert_eq!(&out[0..16], &expected[..]);
    assert_eq!(&out[16..32], &[0u8; 16]);
}

#[test]
fn test_selector_bytes() {
    let a = addr_from("00112233445566778899aabbccddeeff00112233");
    let cases = [
        (false, false, 0x00u8),
        (false, true, 0x40u8),
        (true, false, 0x80u8),
        (true, true, 0xC0u8),
    ];
    for (v3, sell, expected) in cases {
        let out = encode_arbitrage_request(0, 0, vec![(v3, sell, a)]);
        assert_eq!(out[32], expected);
    }
}

#[test]
fn test_determinism() {
    let a = addr_from("0xdeadbeefdeadbeefdeadbeefdeadbeefdeadbeef");
    let steps = vec![(true, false, a), (false, true, a)];
    let out1 = encode_arbitrage_request(123456789, 42, steps.clone());
    let out2 = encode_arbitrage_request(123456789, 42, steps);
    assert_eq!(out1, out2);
}

#[test]
fn test_step_order_swap() {
    let a0 = addr_from("0x0000000000000000000000000000000000000001");
    let a1 = addr_from("0x0000000000000000000000000000000000000002");
    let a2 = addr_from("0x0000000000000000000000000000000000000003");
    let steps = vec![(true, false, a0), (false, true, a1), (false, false, a2)];
    let swapped = vec![(false, false, a2), (false, true, a1), (true, false, a0)];
    let out1 = encode_arbitrage_request(5, 6, steps);
    let out2 = encode_arbitrage_request(5, 6, swapped);
    // Header and the untouched middle record are unchanged.
    assert_eq!(&out1[0..32], &out2[0..32]);
    assert_eq!(&out1[32 + 21..32 + 42], &out2[32 + 21..32 + 42]);
    // The swapped records trade places.
    assert_eq!(&out1[32..32 + 21], &out2[32 + 42..32 + 63]);
    assert_eq!(&out1[32 + 42..32 + 63], &out2[32..32 + 21]);
}

#[test]
fn test_address_round_trip_lower() {
    let bytes: [u8; 20] = [
        0x00, 0x11, 0x22, 0x33, 0x44, 0x55, 0x66, 0x77, 0x88, 0x99, 0xaa, 0xbb, 0xcc, 0xdd, 0xee,
        0xff, 0x01, 0x23, 0x45, 0x67,
    ];
    let s = hex::encode(bytes);
    assert_eq!(s.len(), 40);
    assert_eq!(decode_address(&s), Ok(bytes));
    let prefixed = format!("0x{}", s);
    assert_eq!(decode_address(&prefixed), Ok(bytes));
}

#[test]
fn test_address_round_trip_upper() {
    let bytes: [u8; 20] = [
        0xde, 0xad, 0xbe, 0xef, 0x00, 0x01, 0x02, 0x03, 0x04, 0x05, 0x06, 0x07, 0x08, 0x09, 0x0a,
        0x0b, 0x0c, 0x0d, 0x0e, 0x0f,
    ];
    let s = hex::encode_upper(bytes);
    assert_eq!(decode_address(&s), Ok(bytes));
}

#[test]
fn test_address_exact_bytes() {
    let addr = addr_from("0x00112233445566778899aabbccddeeff00112233");
    let expected: [u8; 20] = [
        0x00, 0x11, 0x22, 0x33, 0x44, 0x55, 0x66, 0x77, 0x88, 0x99, 0xaa, 0xbb, 0xcc, 0xdd, 0xee,
        0xff, 0x00, 0x11, 0x22, 0x33,
    ];
    assert_eq!(addr, expected);
}

#[test]
fn test_concrete_scenario() {
    let addr = addr_from("0x00112233445566778899aabbccddeeff00112233");
    let out = encode_arbitrage_request(1000, 10, vec![(true, false, addr)]);
    assert_eq!(out.len(), 53);
    // 16 zero-padded bytes ending in 0x03e8.
    assert_eq!(&out[0..14], &[0u8; 14]);
    assert_eq!(out[14], 0x03);
    assert_eq!(out[15], 0xe8);
    // 16 zero-padded bytes ending in 0x0a.
    assert_eq!(&out[16..31], &[0u8; 15]);
    assert_eq!(out[31], 0x0a);
    // Selector for (is_v3, !sell_token1), then the address verbatim.
    assert_eq!(out[32], 0x80);
    assert_eq!(&out[33..53], &addr[..]);
}

#[test]
fn test_error_short_address() {
    // 38 hex characters: 19 bytes, one short of an address.
    let s = "00112233445566778899aabbccddeeff001122";
    assert_eq!(s.len(), 38);
    assert_eq!(decode_address(s), Err(AddressError::InvalidAddress));
    let prefixed = format!("0x{}", s);
    assert_eq!(decode_address(&prefixed), Err(AddressError::InvalidAddress));
}

#[test]
fn test_error_odd_length() {
    let s = "0x00112233445566778899aabbccddeeff0011223";
    assert_eq!(decode_address(s), Err(AddressError::InvalidAddress));
}

#[test]
fn test_error_invalid_character() {
    let s = "zz112233445566778899aabbccddeeff00112233";
    assert_eq!(decode_address(s), Err(AddressError::InvalidAddress));
    assert_eq!(decode_address(""), Err(AddressError::InvalidAddress));
    assert_eq!(decode_address("0x"), Err(AddressError::InvalidAddress));
}

#[test]
fn test_overlong_address_keeps_first_20_bytes() {
    // 21 bytes of hex: the byte beyond the first 20 is deliberately dropped.
    let s = "00112233445566778899aabbccddeeff00112233ff";
    let expected: [u8; 20] = [
        0x00, 0x11, 0x22, 0x33, 0x44, 0x55, 0x66, 0x77, 0x88, 0x99, 0xaa, 0xbb, 0xcc, 0xdd, 0xee,
        0xff, 0x00, 0x11, 0x22, 0x33,
    ];
    assert_eq!(decode_address(s), Ok(expected));
}

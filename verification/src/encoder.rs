//! The wire-format encoder: a pure function from an arbitrage request
//! (initial amount, minimum profit, ordered swap steps) to the fixed-layout
//! byte payload the on-chain consumer reads.

use vstd::prelude::*;

verus! {

/// The selector byte of one swap step: bit 7 (`0x80`) is set exactly when the
/// step uses a V3-style pool, bit 6 (`0x40`) exactly when the pool's token 1
/// is sold; all other bits are zero.
pub open spec fn selector_byte(is_v3: bool, sell_token1: bool) -> u8 {
    if is_v3 && sell_token1 {
        0xC0u8
    } else if is_v3 {
        0x80u8
    } else if sell_token1 {
        0x40u8
    } else {
        0x00u8
    }
}

/// Byte `i` (0-based, most significant first) of the 16-byte big-endian
/// encoding of a 128-bit value.
pub open spec fn be_byte(x: u128, i: int) -> u8
    recommends
        0 <= i < 16,
{
    ((x >> (((15 - i) * 8) as u128)) & 0xff) as u8
}

/// The 16-byte big-endian encoding of a 128-bit value.
pub open spec fn be_bytes_of(x: u128) -> Seq<u8> {
    Seq::new(16, |i: int| be_byte(x, i))
}

/// The unsigned integer that a byte sequence denotes when read big-endian.
pub open spec fn be_nat_of(s: Seq<u8>) -> nat
    decreases s.len(),
{
    if s.len() == 0 {
        0
    } else {
        be_nat_of(s.drop_last()) * 256 + (s.last() as nat)
    }
}

/// The 21-byte wire record of one swap step: the selector byte followed by
/// the 20 pool-address bytes verbatim.
pub open spec fn step_bytes(step: (bool, bool, [u8; 20])) -> Seq<u8> {
    seq![selector_byte(step.0, step.1)] + step.2@
}

/// The concatenation of the wire records of all steps, in input order.
pub open spec fn steps_bytes(steps: Seq<(bool, bool, [u8; 20])>) -> Seq<u8>
    decreases steps.len(),
{
    if steps.len() == 0 {
        Seq::<u8>::empty()
    } else {
        steps_bytes(steps.drop_last()) + step_bytes(steps.last())
    }
}

/// The whole payload: both 128-bit fields big-endian, then the step records.
pub open spec fn encoded_bytes(
    initial_amount: u128,
    min_profit: u128,
    steps: Seq<(bool, bool, [u8; 20])>,
) -> Seq<u8> {
    be_bytes_of(initial_amount) + be_bytes_of(min_profit) + steps_bytes(steps)
}

/// The denoted value of a shifted prefix: the first `k` big-endian bytes of
/// `x` read back as the high `8 * k` bits of `x`.
proof fn lemma_be_prefix(x: u128, k: int)
    requires
        1 <= k <= 16,
    ensures
        be_nat_of(be_bytes_of(x).take(k)) == (x >> (((16 - k) * 8) as u128)) as nat,
    decreases k,
{
    let s = be_bytes_of(x);
    if k == 1 {
        assert(s.take(1).drop_last() =~= Seq::<u8>::empty());
        assert(s.take(1).last() == be_byte(x, 0));
        assert((x >> 120u128) & 0xff == x >> 120u128) by (bit_vector);
        assert((x >> 120u128) & 0xff <= 0xff) by (bit_vector);
        assert(be_nat_of(s.take(1)) == be_nat_of(s.take(1).drop_last()) * 256 + (s.take(
            1,
        ).last() as nat));
        assert(be_nat_of(s.take(1)) == be_byte(x, 0) as nat);
    } else {
        lemma_be_prefix(x, k - 1);
        assert(s.take(k).drop_last() =~= s.take(k - 1));
        assert(s.take(k).last() == be_byte(x, k - 1));
        let lo: u128 = (((16 - k) * 8) as u128);
        let hi: u128 = (((17 - k) * 8) as u128);
        assert((x >> hi) * 256 + ((x >> lo) & 0xff) == x >> lo) by (bit_vector)
            requires
                lo <= 112,
                hi == lo + 8,
        ;
        assert((x >> lo) & 0xff <= 0xff) by (bit_vector);
        assert(be_byte(x, k - 1) == (x >> lo) & 0xff);
    }
}

/// Big-endian faithfulness: the 16 bytes written for `x` denote `x` itself
/// when read back as a base-256 big-endian number; so every 128-bit value,
/// including 0 and the largest one, is carried exactly.
pub proof fn lemma_be_bytes_value(x: u128)
    ensures
        be_nat_of(be_bytes_of(x)) == x,
{
    lemma_be_prefix(x, 16);
    assert(be_bytes_of(x).take(16) =~= be_bytes_of(x));
    assert(x >> 0u128 == x) by (bit_vector);
}

/// The step records of `n` steps take exactly `21 * n` bytes.
pub proof fn lemma_steps_bytes_len(steps: Seq<(bool, bool, [u8; 20])>)
    ensures
        steps_bytes(steps).len() == 21 * steps.len(),
    decreases steps.len(),
{
    if steps.len() > 0 {
        lemma_steps_bytes_len(steps.drop_last());
    }
}

/// Length law: a payload with `n` steps is exactly `32 + 21 * n` bytes long.
pub proof fn lemma_encoded_length(
    initial_amount: u128,
    min_profit: u128,
    steps: Seq<(bool, bool, [u8; 20])>,
)
    ensures
        encoded_bytes(initial_amount, min_profit, steps).len() == 32 + 21 * steps.len(),
{
    lemma_steps_bytes_len(steps);
}

/// Field placement: bytes 0..16 of the payload are the big-endian encoding of
/// `initial_amount`, bytes 16..32 the big-endian encoding of `min_profit`.
pub proof fn lemma_field_placement(
    initial_amount: u128,
    min_profit: u128,
    steps: Seq<(bool, bool, [u8; 20])>,
)
    ensures
        encoded_bytes(initial_amount, min_profit, steps).subrange(0, 16) == be_bytes_of(
            initial_amount,
        ),
        encoded_bytes(initial_amount, min_profit, steps).subrange(16, 32) == be_bytes_of(
            min_profit,
        ),
{
    let e = encoded_bytes(initial_amount, min_profit, steps);
    assert(e.subrange(0, 16) =~= be_bytes_of(initial_amount));
    assert(e.subrange(16, 32) =~= be_bytes_of(min_profit));
}

/// Within the step records, the bytes at offsets `21*i .. 21*i + 21` are the
/// wire record of step `i`.
proof fn lemma_steps_bytes_region(steps: Seq<(bool, bool, [u8; 20])>, i: int)
    requires
        0 <= i < steps.len(),
    ensures
        steps_bytes(steps).subrange(21 * i, 21 * i + 21) == step_bytes(steps[i]),
    decreases steps.len(),
{
    lemma_steps_bytes_len(steps);
    lemma_steps_bytes_len(steps.drop_last());
    if i == steps.len() - 1 {
        assert(steps_bytes(steps).subrange(21 * i, 21 * i + 21) =~= step_bytes(steps.last()));
    } else {
        lemma_steps_bytes_region(steps.drop_last(), i);
        assert(steps_bytes(steps).subrange(21 * i, 21 * i + 21) =~= steps_bytes(
            steps.drop_last(),
        ).subrange(21 * i, 21 * i + 21));
    }
}

/// Step placement: the payload bytes at offsets `32 + 21*i .. 53 + 21*i` are
/// the wire record of step `i`.
pub proof fn lemma_step_placement(
    initial_amount: u128,
    min_profit: u128,
    steps: Seq<(bool, bool, [u8; 20])>,
    i: int,
)
    requires
        0 <= i < steps.len(),
    ensures
        encoded_bytes(initial_amount, min_profit, steps).subrange(32 + 21 * i, 53 + 21 * i)
            == step_bytes(steps[i]),
{
    lemma_steps_bytes_region(steps, i);
    lemma_steps_bytes_len(steps);
    assert(encoded_bytes(initial_amount, min_profit, steps).subrange(32 + 21 * i, 53 + 21 * i)
        =~= steps_bytes(steps).subrange(21 * i, 21 * i + 21));
}

/// Selector correctness: the payload byte at offset `32 + 21*i` is step `i`'s
/// selector, which is `0x00`, `0x40`, `0x80` or `0xC0` exactly for the four
/// combinations of the two flags; no other bit is ever set.
pub proof fn lemma_selector_placement(
    initial_amount: u128,
    min_profit: u128,
    steps: Seq<(bool, bool, [u8; 20])>,
    i: int,
)
    requires
        0 <= i < steps.len(),
    ensures
        ({
            let sel = encoded_bytes(initial_amount, min_profit, steps)[32 + 21 * i];
            &&& sel == selector_byte(steps[i].0, steps[i].1)
            &&& sel == 0x00 || sel == 0x40 || sel == 0x80 || sel == 0xC0
        }),
{
    lemma_step_placement(initial_amount, min_profit, steps, i);
    lemma_encoded_length(initial_amount, min_profit, steps);
    let e = encoded_bytes(initial_amount, min_profit, steps);
    assert(e[32 + 21 * i] == e.subrange(32 + 21 * i, 53 + 21 * i)[0]);
}

/// Address placement: the 20 payload bytes after step `i`'s selector are the
/// pool address of step `i`, verbatim and in order.
pub proof fn lemma_address_placement(
    initial_amount: u128,
    min_profit: u128,
    steps: Seq<(bool, bool, [u8; 20])>,
    i: int,
)
    requires
        0 <= i < steps.len(),
    ensures
        encoded_bytes(initial_amount, min_profit, steps).subrange(33 + 21 * i, 53 + 21 * i)
            == steps[i].2@,
{
    lemma_step_placement(initial_amount, min_profit, steps, i);
    lemma_encoded_length(initial_amount, min_profit, steps);
    let e = encoded_bytes(initial_amount, min_profit, steps);
    assert(e.subrange(33 + 21 * i, 53 + 21 * i) =~= step_bytes(steps[i]).subrange(1, 21));
    assert(step_bytes(steps[i]).subrange(1, 21) =~= steps[i].2@);
}

/// Determinism: any two payloads that meet the encoder's contract for the
/// same request are byte-identical; the payload is a pure function of the
/// request alone.
pub proof fn lemma_encode_deterministic(
    initial_amount: u128,
    min_profit: u128,
    steps: Seq<(bool, bool, [u8; 20])>,
    out1: Seq<u8>,
    out2: Seq<u8>,
)
    requires
        out1 == encoded_bytes(initial_amount, min_profit, steps),
        out2 == encoded_bytes(initial_amount, min_profit, steps),
    ensures
        out1 == out2,
{
}

/// Step-order locality: swapping two steps leaves the header and every other
/// step record unchanged, and the two affected 21-byte records simply trade
/// places.
pub proof fn lemma_step_swap(
    initial_amount: u128,
    min_profit: u128,
    steps: Seq<(bool, bool, [u8; 20])>,
    j: int,
    k: int,
)
    requires
        0 <= j < steps.len(),
        0 <= k < steps.len(),
    ensures
        ({
            let e1 = encoded_bytes(initial_amount, min_profit, steps);
            let e2 = encoded_bytes(
                initial_amount,
                min_profit,
                steps.update(j, steps[k]).update(k, steps[j]),
            );
            &&& e2.len() == e1.len()
            &&& e2.subrange(0, 32) == e1.subrange(0, 32)
            &&& forall|m: int|
                0 <= m < steps.len() && m != j && m != k ==> #[trigger] e2.subrange(
                    32 + 21 * m,
                    53 + 21 * m,
                ) == e1.subrange(32 + 21 * m, 53 + 21 * m)
            &&& e2.subrange(32 + 21 * j, 53 + 21 * j) == e1.subrange(32 + 21 * k, 53 + 21 * k)
            &&& e2.subrange(32 + 21 * k, 53 + 21 * k) == e1.subrange(32 + 21 * j, 53 + 21 * j)
        }),
{
    let swapped = steps.update(j, steps[k]).update(k, steps[j]);
    let e1 = encoded_bytes(initial_amount, min_profit, steps);
    let e2 = encoded_bytes(initial_amount, min_profit, swapped);
    lemma_encoded_length(initial_amount, min_profit, steps);
    lemma_encoded_length(initial_amount, min_profit, swapped);
    lemma_field_placement(initial_amount, min_profit, steps);
    lemma_field_placement(initial_amount, min_profit, swapped);
    assert(e2.subrange(0, 32) =~= e1.subrange(0, 32));
    assert forall|m: int|
        0 <= m < steps.len() && m != j && m != k implies #[trigger] e2.subrange(
        32 + 21 * m,
        53 + 21 * m,
    ) == e1.subrange(32 + 21 * m, 53 + 21 * m) by {
        lemma_step_placement(initial_amount, min_profit, steps, m);
        lemma_step_placement(initial_amount, min_profit, swapped, m);
    }
    lemma_step_placement(initial_amount, min_profit, steps, j);
    lemma_step_placement(initial_amount, min_profit, steps, k);
    lemma_step_placement(initial_amount, min_profit, swapped, j);
    lemma_step_placement(initial_amount, min_profit, swapped, k);
}

/// Append the 16-byte big-endian encoding of `x` to `out`.
fn push_be_bytes(out: &mut Vec<u8>, x: u128)
    ensures
        final(out)@ == old(out)@ + be_bytes_of(x),
{
    let mut i: usize = 0;
    while i < 16
        invariant
            i <= 16,
            out@ =~= old(out)@ + be_bytes_of(x).take(i as int),
        decreases 16 - i,
    {
        let shift: u128 = (120 - 8 * i) as u128;
        proof {
            assert((x >> shift) & 0xff <= 0xff) by (bit_vector);
        }
        let b: u8 = ((x >> shift) & 0xff) as u8;
        assert(b == be_byte(x, i as int));
        out.push(b);
        assert(be_bytes_of(x).take(i + 1) =~= be_bytes_of(x).take(i as int).push(b));
        i = i + 1;
    }
    assert(be_bytes_of(x).take(16) =~= be_bytes_of(x));
}

/// Encode an arbitrage request as the fixed-layout payload: `initial_amount`
/// as 16 big-endian bytes, then `min_profit` as 16 big-endian bytes, then for
/// each step in input order one selector byte followed by the 20 address
/// bytes. The result is a pure function of the arguments, so equal requests
/// always yield byte-identical payloads.
pub fn encode_arbitrage_request(
    initial_amount: u128,
    min_profit: u128,
    steps: Vec<(bool, bool, [u8; 20])>,
) -> (encoded: Vec<u8>)
    ensures
        encoded@ == encoded_bytes(initial_amount, min_profit, steps@),
{
    let mut encoded: Vec<u8> = Vec::new();
    push_be_bytes(&mut encoded, initial_amount);
    push_be_bytes(&mut encoded, min_profit);
    let ghost header: Seq<u8> = be_bytes_of(initial_amount) + be_bytes_of(min_profit);
    assert(encoded@ =~= header + steps_bytes(steps@.take(0)));
    let n = steps.len();
    for k in 0..n
        invariant
            n == steps@.len(),
            encoded@ == header + steps_bytes(steps@.take(k as int)),
    {
        let (is_v3, sell_token1, pool) = steps[k];
        let mut selector: u8 = 0;
        if is_v3 {
            selector = selector | 0x80;
        }
        if sell_token1 {
            selector = selector | 0x40;
        }
        proof {
            assert(0x00u8 | 0x80u8 == 0x80u8) by (bit_vector);
            assert(0x00u8 | 0x40u8 == 0x40u8) by (bit_vector);
            assert(0x80u8 | 0x40u8 == 0xC0u8) by (bit_vector);
        }
        assert(selector == selector_byte(is_v3, sell_token1));
        let ghost before_step: Seq<u8> = encoded@;
        encoded.push(selector);
        let mut j: usize = 0;
        while j < 20
            invariant
                j <= 20,
                encoded@ =~= before_step + seq![selector] + pool@.take(j as int),
            decreases 20 - j,
        {
            encoded.push(pool[j]);
            assert(pool@.take(j + 1) =~= pool@.take(j as int).push(pool@[j as int]));
            j = j + 1;
        }
        proof {
            assert(pool@.take(20) =~= pool@);
            assert(encoded@ =~= before_step + step_bytes(steps@[k as int]));
            let taken = steps@.take(k + 1);
            assert(taken.drop_last() =~= steps@.take(k as int));
            assert(taken.last() == steps@[k as int]);
            assert(encoded@ =~= header + steps_bytes(steps@.take(k + 1)));
        }
    }
    assert(steps@.take(n as int) =~= steps@);
    encoded
}

} // verus!


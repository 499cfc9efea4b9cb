//! Bit strings and their packing into bytes, most significant bit first.

use vstd::prelude::*;

verus! {

/// The `k`-th bit of a byte, counted from the most significant one.
pub open spec fn byte_bit(b: u8, k: u8) -> bool {
    (b >> (7u8 - k) as u8) & 1u8 == 1u8
}

/// All the bits of a byte string, eight for each byte.
pub open spec fn bits_of(bytes: Seq<u8>) -> Seq<bool> {
    Seq::new(8 * bytes.len(), |i: int| byte_bit(bytes[i / 8], (i % 8) as u8))
}

/// The bits of a payload: all of them but the last `padding`.
pub open spec fn payload_bits(bytes: Seq<u8>, padding: nat) -> Seq<bool> {
    bits_of(bytes).take(8 * bytes.len() - padding)
}

/// The number that a bit string denotes in binary, most significant bit
/// first.
pub open spec fn bits_value(bits: Seq<bool>) -> nat
    decreases bits.len(),
{
    if bits.len() == 0 {
        0
    } else {
        2 * bits_value(bits.drop_last()) + if bits.last() {
            1nat
        } else {
            0nat
        }
    }
}

/// The eight bits from position `8 * j` on, `false` past the end.
pub open spec fn chunk(bits: Seq<bool>, j: int) -> Seq<bool> {
    Seq::new(8, |k: int| 8 * j + k < bits.len() && bits[8 * j + k])
}

/// The number of filler bits behind a bit string of length `n`.
pub open spec fn padding_of(n: nat) -> nat {
    ((8 - n % 8) % 8) as nat
}

/// The number of bytes that hold `n` bits.
pub open spec fn packed_len(n: nat) -> nat {
    (n + 7) / 8
}

/// A bit string packed into bytes, the last byte filled up with zero bits.
pub open spec fn pack(bits: Seq<bool>) -> Seq<u8> {
    Seq::new(packed_len(bits.len()), |j: int| bits_value(chunk(bits, j)) as u8)
}

/// Eight bits or fewer denote a number that fits in a byte.
pub proof fn lemma_bits_value_bound(bits: Seq<bool>)
    requires
        bits.len() <= 8,
    ensures
        bits_value(bits) < vstd::arithmetic::power2::pow2(bits.len()),
        bits_value(bits) < 256,
    decreases bits.len(),
{
    vstd::arithmetic::power2::lemma2_to64();
    if bits.len() > 0 {
        lemma_bits_value_bound(bits.drop_last());
        vstd::arithmetic::power2::lemma_pow2_unfold(bits.len());
    }
    if bits.len() < 8 {
        vstd::arithmetic::power2::lemma_pow2_strictly_increases(bits.len(), 8);
    }
}

proof fn lemma_byte_of_flags(
    b0: bool,
    b1: bool,
    b2: bool,
    b3: bool,
    b4: bool,
    b5: bool,
    b6: bool,
    b7: bool,
    v: u8,
)
    requires
        v == (if b0 { 128u8 } else { 0u8 }) + (if b1 { 64u8 } else { 0u8 }) + (if b2 { 32u8 } else {
            0u8
        }) + (if b3 { 16u8 } else { 0u8 }) + (if b4 { 8u8 } else { 0u8 }) + (if b5 { 4u8 } else {
            0u8
        }) + (if b6 { 2u8 } else { 0u8 }) + (if b7 { 1u8 } else { 0u8 }),
    ensures
        byte_bit(v, 0) == b0,
        byte_bit(v, 1) == b1,
        byte_bit(v, 2) == b2,
        byte_bit(v, 3) == b3,
        byte_bit(v, 4) == b4,
        byte_bit(v, 5) == b5,
        byte_bit(v, 6) == b6,
        byte_bit(v, 7) == b7,
{
    let f0 = if b0 { 128u8 } else { 0u8 };
    let f1 = if b1 { 64u8 } else { 0u8 };
    let f2 = if b2 { 32u8 } else { 0u8 };
    let f3 = if b3 { 16u8 } else { 0u8 };
    let f4 = if b4 { 8u8 } else { 0u8 };
    let f5 = if b5 { 4u8 } else { 0u8 };
    let f6 = if b6 { 2u8 } else { 0u8 };
    let f7 = if b7 { 1u8 } else { 0u8 };
    assert((f0 == 0 || f0 == 128) && (f1 == 0 || f1 == 64) && (f2 == 0 || f2 == 32) && (f3 == 0
        || f3 == 16) && (f4 == 0 || f4 == 8) && (f5 == 0 || f5 == 4) && (f6 == 0 || f6 == 2) && (f7
        == 0 || f7 == 1) && v == f0 + f1 + f2 + f3 + f4 + f5 + f6 + f7 ==> ((v >> 7u8) & 1u8 == 1u8
        <==> f0 == 128) && ((v >> 6u8) & 1u8 == 1u8 <==> f1 == 64) && ((v >> 5u8) & 1u8 == 1u8 <==> f2
        == 32) && ((v >> 4u8) & 1u8 == 1u8 <==> f3 == 16) && ((v >> 3u8) & 1u8 == 1u8 <==> f4 == 8)
        && ((v >> 2u8) & 1u8 == 1u8 <==> f5 == 4) && ((v >> 1u8) & 1u8 == 1u8 <==> f6 == 2) && ((v
        >> 0u8) & 1u8 == 1u8 <==> f7 == 1)) by (bit_vector);
}

/// One for a set bit, zero for a clear one.
pub open spec fn flag(b: bool) -> nat {
    if b {
        1
    } else {
        0
    }
}

proof fn lemma_value_step(s: Seq<bool>, head: Seq<bool>, last: bool)
    requires
        s.len() > 0,
        head == s.drop_last(),
        last == s.last(),
    ensures
        bits_value(s) == 2 * bits_value(head) + flag(last),
{
}

proof fn lemma_eight_value(w: Seq<bool>)
    requires
        w.len() == 8,
    ensures
        bits_value(w) == 128 * flag(w[0]) + 64 * flag(w[1]) + 32 * flag(w[2]) + 16 * flag(w[3]) + 8
            * flag(w[4]) + 4 * flag(w[5]) + 2 * flag(w[6]) + flag(w[7]),
{
    let w7 = w.drop_last();
    let w6 = w7.drop_last();
    let w5 = w6.drop_last();
    let w4 = w5.drop_last();
    let w3 = w4.drop_last();
    let w2 = w3.drop_last();
    let w1 = w2.drop_last();
    let w0 = w1.drop_last();
    assert(w0.len() == 0);
    assert(bits_value(w0) == 0);
    lemma_value_step(w1, w0, w[0]);
    lemma_value_step(w2, w1, w[1]);
    lemma_value_step(w3, w2, w[2]);
    lemma_value_step(w4, w3, w[3]);
    lemma_value_step(w5, w4, w[4]);
    lemma_value_step(w6, w5, w[5]);
    lemma_value_step(w7, w6, w[6]);
    lemma_value_step(w, w7, w[7]);
}

/// The `k`-th bit of the byte that eight bits denote is the `k`-th of them.
pub proof fn lemma_byte_bit_of_value(w: Seq<bool>, k: int)
    requires
        w.len() == 8,
        0 <= k < 8,
    ensures
        bits_value(w) < 256,
        byte_bit(bits_value(w) as u8, k as u8) == w[k],
{
    lemma_eight_value(w);
    let v = bits_value(w) as u8;
    lemma_byte_of_flags(w[0], w[1], w[2], w[3], w[4], w[5], w[6], w[7], v);
}

/// Packing loses no bit: what the packed bytes hold, less the filler, is
/// the bit string.
pub proof fn lemma_pack_round_trip(bits: Seq<bool>)
    ensures
        pack(bits).len() == packed_len(bits.len()),
        8 * pack(bits).len() == bits.len() + padding_of(bits.len()),
        padding_of(bits.len()) <= 7,
        payload_bits(pack(bits), padding_of(bits.len())) == bits,
{
    let bytes = pack(bits);
    let n = bits.len();
    let got = payload_bits(bytes, padding_of(n));
    assert(8 * packed_len(n) == n + padding_of(n));
    assert(got.len() == n);
    assert forall|i: int| 0 <= i < n implies got[i] == bits[i] by {
        let j = i / 8;
        let k = i % 8;
        lemma_byte_bit_of_value(chunk(bits, j), k);
        assert(chunk(bits, j)[k] == bits[i]);
        assert(bytes[j] == bits_value(chunk(bits, j)) as u8);
    }
    assert(got =~= bits);
}

} // verus!

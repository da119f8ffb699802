//! Bitmaps packed into bytes: what a bit means, and the facts about single
//! bytes that the board and the minos build on.

use vstd::prelude::*;

verus! {

/// Whether bit `bit` of `byte` is set, counting from the least significant bit.
pub open spec fn byte_bit(byte: u8, bit: u8) -> bool {
    byte & (1u8 << bit) != 0
}

/// Whether bit `i` of a bitmap packed into bytes is set: bit `i % 8` of byte `i / 8`.
pub open spec fn bitmap_bit(bytes: Seq<u8>, i: int) -> bool {
    byte_bit(bytes[i / 8], (i % 8) as u8)
}

/// The byte `old` with bit `bit` made equal to `value`.
pub open spec fn assign_bit(old: u8, bit: u8, value: bool) -> u8 {
    old & !(1u8 << bit) | ((if value { 1u8 } else { 0u8 }) << bit)
}

/// The byte whose bits, from the least significant one, are the eight flags.
pub open spec fn pack_bits(
    b0: bool,
    b1: bool,
    b2: bool,
    b3: bool,
    b4: bool,
    b5: bool,
    b6: bool,
    b7: bool,
) -> u8 {
    (if b0 { 1u8 } else { 0u8 }) << 0u8
        | (if b1 { 1u8 } else { 0u8 }) << 1u8
        | (if b2 { 1u8 } else { 0u8 }) << 2u8
        | (if b3 { 1u8 } else { 0u8 }) << 3u8
        | (if b4 { 1u8 } else { 0u8 }) << 4u8
        | (if b5 { 1u8 } else { 0u8 }) << 5u8
        | (if b6 { 1u8 } else { 0u8 }) << 6u8
        | (if b7 { 1u8 } else { 0u8 }) << 7u8
}

/// The number of bits that are set in `byte`.
pub open spec fn bit_count(byte: u8) -> nat {
    (if byte_bit(byte, 0) { 1nat } else { 0 })
        + (if byte_bit(byte, 1) { 1nat } else { 0 })
        + (if byte_bit(byte, 2) { 1nat } else { 0 })
        + (if byte_bit(byte, 3) { 1nat } else { 0 })
        + (if byte_bit(byte, 4) { 1nat } else { 0 })
        + (if byte_bit(byte, 5) { 1nat } else { 0 })
        + (if byte_bit(byte, 6) { 1nat } else { 0 })
        + (if byte_bit(byte, 7) { 1nat } else { 0 })
}

/// `u8::count_ones` of the standard library: the number of ones in the binary
/// representation of the byte. Taken on trust from its documentation.
pub assume_specification[ u8::count_ones ](byte: u8) -> (ones: u32)
    ensures
        ones == bit_count(byte),
;

/// Assigning one bit changes that bit and no other.
pub proof fn lemma_assign_bit(old: u8, bit: u8, value: bool, j: u8)
    by (bit_vector)
    requires
        bit < 8,
        j < 8,
    ensures
        byte_bit(assign_bit(old, bit, value), j) == (if j == bit {
            value
        } else {
            byte_bit(old, j)
        }),
{
}

/// A byte is zero exactly when none of its bits is set.
pub proof fn lemma_zero_byte(byte: u8)
    by (bit_vector)
    ensures
        byte == 0 <==> !byte_bit(byte, 0) && !byte_bit(byte, 1) && !byte_bit(byte, 2) && !byte_bit(
            byte,
            3,
        ) && !byte_bit(byte, 4) && !byte_bit(byte, 5) && !byte_bit(byte, 6) && !byte_bit(byte, 7),
{
}

/// Two bytes that agree on every bit are the same byte.
pub proof fn lemma_equal_bytes(a: u8, b: u8)
    by (bit_vector)
    requires
        byte_bit(a, 0) == byte_bit(b, 0),
        byte_bit(a, 1) == byte_bit(b, 1),
        byte_bit(a, 2) == byte_bit(b, 2),
        byte_bit(a, 3) == byte_bit(b, 3),
        byte_bit(a, 4) == byte_bit(b, 4),
        byte_bit(a, 5) == byte_bit(b, 5),
        byte_bit(a, 6) == byte_bit(b, 6),
        byte_bit(a, 7) == byte_bit(b, 7),
    ensures
        a == b,
{
}

/// Each bit of a packed byte is the flag it was packed from.
pub proof fn lemma_pack_bits(
    b0: bool,
    b1: bool,
    b2: bool,
    b3: bool,
    b4: bool,
    b5: bool,
    b6: bool,
    b7: bool,
)
    by (bit_vector)
    ensures
        byte_bit(pack_bits(b0, b1, b2, b3, b4, b5, b6, b7), 0) == b0,
        byte_bit(pack_bits(b0, b1, b2, b3, b4, b5, b6, b7), 1) == b1,
        byte_bit(pack_bits(b0, b1, b2, b3, b4, b5, b6, b7), 2) == b2,
        byte_bit(pack_bits(b0, b1, b2, b3, b4, b5, b6, b7), 3) == b3,
        byte_bit(pack_bits(b0, b1, b2, b3, b4, b5, b6, b7), 4) == b4,
        byte_bit(pack_bits(b0, b1, b2, b3, b4, b5, b6, b7), 5) == b5,
        byte_bit(pack_bits(b0, b1, b2, b3, b4, b5, b6, b7), 6) == b6,
        byte_bit(pack_bits(b0, b1, b2, b3, b4, b5, b6, b7), 7) == b7,
{
}

/// Assigning bit `idx` of a bitmap changes that bit and no other.
pub proof fn lemma_bitmap_assign(bytes: Seq<u8>, idx: int, value: bool, i: int)
    requires
        0 <= idx < 8 * bytes.len(),
        0 <= i < 8 * bytes.len(),
    ensures
        bitmap_bit(
            bytes.update(idx / 8, assign_bit(bytes[idx / 8], (idx % 8) as u8, value)),
            i,
        ) == (if i == idx {
            value
        } else {
            bitmap_bit(bytes, i)
        }),
{
    if i / 8 == idx / 8 {
        lemma_assign_bit(bytes[idx / 8], (idx % 8) as u8, value, (i % 8) as u8);
    }
}

/// A byte that is not zero has a bit that is set.
pub proof fn lemma_nonzero_byte_has_bit(byte: u8) -> (bit: u8)
    requires
        byte != 0,
    ensures
        bit < 8,
        byte_bit(byte, bit),
{
    lemma_zero_byte(byte);
    if byte_bit(byte, 0) {
        0
    } else if byte_bit(byte, 1) {
        1
    } else if byte_bit(byte, 2) {
        2
    } else if byte_bit(byte, 3) {
        3
    } else if byte_bit(byte, 4) {
        4
    } else if byte_bit(byte, 5) {
        5
    } else if byte_bit(byte, 6) {
        6
    } else {
        7
    }
}

/// The number of set bits among the first `n` bits of a bitmap.
pub open spec fn set_bits_below(bytes: Seq<u8>, n: int) -> nat
    decreases n,
{
    if n <= 0 {
        0
    } else {
        set_bits_below(bytes, n - 1) + (if bitmap_bit(bytes, n - 1) {
            1nat
        } else {
            0
        })
    }
}

/// The bits of byte `k` are counted by `bit_count`.
pub proof fn lemma_count_byte(bytes: Seq<u8>, k: int)
    requires
        0 <= k,
    ensures
        set_bits_below(bytes, 8 * (k + 1)) == set_bits_below(bytes, 8 * k) + bit_count(bytes[k]),
{
    reveal_with_fuel(set_bits_below, 9);
    assert(bitmap_bit(bytes, 8 * k) == byte_bit(bytes[k], 0));
    assert(bitmap_bit(bytes, 8 * k + 1) == byte_bit(bytes[k], 1));
    assert(bitmap_bit(bytes, 8 * k + 2) == byte_bit(bytes[k], 2));
    assert(bitmap_bit(bytes, 8 * k + 3) == byte_bit(bytes[k], 3));
    assert(bitmap_bit(bytes, 8 * k + 4) == byte_bit(bytes[k], 4));
    assert(bitmap_bit(bytes, 8 * k + 5) == byte_bit(bytes[k], 5));
    assert(bitmap_bit(bytes, 8 * k + 6) == byte_bit(bytes[k], 6));
    assert(bitmap_bit(bytes, 8 * k + 7) == byte_bit(bytes[k], 7));
}

/// Bits that are clear add nothing to the count.
pub proof fn lemma_count_clear_tail(bytes: Seq<u8>, from: int, to: int)
    requires
        0 <= from <= to,
        forall|i: int| from <= i < to ==> !bitmap_bit(bytes, i),
    ensures
        set_bits_below(bytes, to) == set_bits_below(bytes, from),
    decreases to - from,
{
    if from < to {
        lemma_count_clear_tail(bytes, from, to - 1);
    }
}

/// A byte has at most eight bits set.
pub proof fn lemma_bit_count_bound(byte: u8)
    ensures
        bit_count(byte) <= 8,
{
}

} // verus!

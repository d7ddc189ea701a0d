//! Bit-level reasoning helpers for 16-bit words.
//!
//! The cipher works on 16-bit blocks, addressing single bits and 4-bit
//! nibbles. The spec functions here give those notions a name, and the
//! lemmas provide the bit-vector facts the rest of the crate builds on.

use vstd::prelude::*;

verus! {

/// The bit of `v` at 0-based position `i`, counted from the least
/// significant bit; either 0 or 1 (and 0 whenever `i >= 16`).
pub open spec fn bit16(v: u16, i: u16) -> u16 {
    (v >> i) & 1
}

/// The 4-bit nibble of `v` at 0-based index `i` (nibble 0 holds the least
/// significant 4 bits, nibble 3 the most significant 4 bits).
pub open spec fn nib(v: u16, i: u16) -> u16 {
    (v >> (4 * i)) & 0xf
}

/// Every bit of a word is 0 or 1.
pub proof fn lemma_bit16_values(v: u16)
    by (bit_vector)
    ensures
        forall|i: u16| #![trigger bit16(v, i)] bit16(v, i) == 0 || bit16(v, i) == 1,
{
}

/// Every nibble of a word is below 16.
pub proof fn lemma_nib_bound(v: u16)
    by (bit_vector)
    ensures
        forall|i: u16| #![trigger nib(v, i)] nib(v, i) < 16,
{
}

/// The zero word has no bit set.
pub proof fn lemma_bit16_zero()
    by (bit_vector)
    ensures
        forall|i: u16| #![trigger bit16(0u16, i)] bit16(0u16, i) == 0,
{
}

/// Bitwise OR acts on each bit separately: a bit of `a | b` is set exactly
/// when that bit is set in `a` or in `b`.
pub proof fn lemma_bit16_or(a: u16, b: u16)
    by (bit_vector)
    ensures
        forall|i: u16| #![trigger bit16(a | b, i)]
            i < 16 ==> bit16(a | b, i) == (if bit16(a, i) == 1 || bit16(b, i) == 1 {
                1u16
            } else {
                0u16
            }),
{
}

/// `1 << j` has exactly one bit set, at position `j`.
pub proof fn lemma_bit16_single(j: u16)
    by (bit_vector)
    requires
        j < 16,
    ensures
        forall|i: u16| #![trigger bit16(1u16 << j, i)]
            i < 16 ==> bit16(1u16 << j, i) == (if i == j { 1u16 } else { 0u16 }),
{
}

/// Two 16-bit words that agree on all 16 bit positions are equal.
pub proof fn lemma_bit16_ext(v: u16, w: u16)
    requires
        forall|i: u16| i < 16 ==> bit16(v, i) == bit16(w, i),
    ensures
        v == w,
{
    assert(v == w) by (bit_vector)
        requires
            bit16(v, 0) == bit16(w, 0),
            bit16(v, 1) == bit16(w, 1),
            bit16(v, 2) == bit16(w, 2),
            bit16(v, 3) == bit16(w, 3),
            bit16(v, 4) == bit16(w, 4),
            bit16(v, 5) == bit16(w, 5),
            bit16(v, 6) == bit16(w, 6),
            bit16(v, 7) == bit16(w, 7),
            bit16(v, 8) == bit16(w, 8),
            bit16(v, 9) == bit16(w, 9),
            bit16(v, 10) == bit16(w, 10),
            bit16(v, 11) == bit16(w, 11),
            bit16(v, 12) == bit16(w, 12),
            bit16(v, 13) == bit16(w, 13),
            bit16(v, 14) == bit16(w, 14),
            bit16(v, 15) == bit16(w, 15),
    ;
}

/// Mixing the same key twice by XOR restores the starting word.
pub proof fn lemma_xor_involution(v: u16, k: u16)
    by (bit_vector)
    ensures
        (v ^ k) ^ k == v,
{
}

} // verus!

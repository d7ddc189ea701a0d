//! Heys' substitution-permutation-network cipher and a linear-cryptanalysis
//! engine that recovers the final round subkey from known plaintext /
//! ciphertext pairs.
//!
//! The cipher works on 16-bit blocks, runs 4 rounds of key mixing, nibble
//! substitution and bit permutation, and finishes with a key whitening step
//! (5 round subkeys in all). The attack engine measures, for every guess of
//! the final subkey, how strongly a chosen linear approximation between
//! plaintext bits and round-3 intermediate-state bits deviates from an even
//! coin, and ranks the guesses by that deviation.

use vstd::prelude::*;

use crate::bits::bit16;
use crate::bits::nib;
use crate::bits::lemma_bit16_values;
use crate::bits::lemma_nib_bound;
use crate::bits::lemma_bit16_zero;
use crate::bits::lemma_bit16_or;
use crate::bits::lemma_bit16_single;
use crate::bits::lemma_bit16_ext;
use crate::bits::lemma_xor_involution;

verus! {

/// A failure of a single cipher operation. All errors are local and
/// non-recoverable; the caller decides what to do with them.
#[derive(Debug, PartialEq, Eq, Structural, Clone, Copy)]
pub enum CipherError {
    /// A binary-string block had no digits, a character other than
    /// '0' or '1', or a value too large for 16 bits.
    Parse,
    /// A bit location lay outside 1..=16.
    Range,
    /// A cipher was built from other than exactly 5 round subkeys.
    Arity,
}

// ---------------------------------------------------------------------------
// Block
// ---------------------------------------------------------------------------

/// A 16-bit block: a plaintext, a ciphertext, or an intermediary state.
///
/// A block is immutable once constructed; every transform returns a new
/// block. Its view is the underlying 16-bit word.
#[derive(Debug, PartialEq, Eq, Structural, Clone, Copy)]
pub struct Block {
    val: u16,
}

impl View for Block {
    type V = u16;

    closed spec fn view(&self) -> u16 {
        self.val
    }
}

/// Whether every character of `s` is a binary digit.
pub open spec fn is_bin_seq(s: Seq<char>) -> bool {
    forall|i: int| 0 <= i < s.len() ==> (s[i] == '0' || s[i] == '1')
}

/// The value of `s` read as a base-2 numeral ('1' counts as 1, anything
/// else as 0).
pub open spec fn bin_value(s: Seq<char>) -> int
    decreases s.len(),
{
    if s.len() == 0 {
        0
    } else {
        2 * bin_value(s.drop_last()) + (if s.last() == '1' { 1int } else { 0int })
    }
}

proof fn lemma_bin_value_nonneg(s: Seq<char>)
    ensures
        bin_value(s) >= 0,
    decreases s.len(),
{
    if s.len() > 0 {
        lemma_bin_value_nonneg(s.drop_last());
    }
}

/// Reading more digits never shrinks the value.
proof fn lemma_bin_value_mono(s: Seq<char>, i: int, j: int)
    requires
        0 <= i <= j <= s.len(),
    ensures
        bin_value(s.take(i)) <= bin_value(s.take(j)),
    decreases j - i,
{
    if i < j {
        lemma_bin_value_mono(s, i, j - 1);
        assert(s.take(j).drop_last() =~= s.take(j - 1));
        lemma_bin_value_nonneg(s.take(j - 1));
    }
}

impl Block {
    /// Wrap a raw 16-bit value; every value is a valid block.
    pub fn new(val: u16) -> (r: Self)
        ensures
            r@ == val,
    {
        Block { val }
    }

    /// The raw 16-bit value of the block.
    pub fn value(&self) -> (r: u16)
        ensures
            r == self@,
    {
        self.val
    }

    /// Parse a block from a string of binary digits. Fails on an empty
    /// string, on a character other than '0' or '1', and on a value that
    /// does not fit in 16 bits; shorter strings parse as smaller values.
    pub fn from_binstr(binstr: &str) -> (r: Result<Self, CipherError>)
        ensures
            r is Ok <==> (binstr@.len() > 0 && is_bin_seq(binstr@) && bin_value(binstr@)
                <= u16::MAX),
            r is Ok ==> r.unwrap()@ == bin_value(binstr@),
            r is Err ==> r == Err::<Block, CipherError>(CipherError::Parse),
    {
        let len = binstr.unicode_len();
        if len == 0 {
            return Err(CipherError::Parse);
        }
        let mut acc: u16 = 0;
        let mut i: usize = 0;
        while i < len
            invariant
                i <= len,
                len == binstr@.len(),
                is_bin_seq(binstr@.take(i as int)),
                acc == bin_value(binstr@.take(i as int)),
            decreases len - i,
        {
            let c = binstr.get_char(i);
            if c != '0' && c != '1' {
                assert(!is_bin_seq(binstr@));
                return Err(CipherError::Parse);
            }
            if acc > 0x7fff {
                proof {
                    assert(binstr@.take(i as int + 1).drop_last() =~= binstr@.take(i as int));
                    lemma_bin_value_nonneg(binstr@.take(i as int + 1));
                    lemma_bin_value_mono(binstr@, i as int + 1, len as int);
                    assert(binstr@.take(len as int) =~= binstr@);
                }
                return Err(CipherError::Parse);
            }
            let d: u16 = if c == '1' {
                1
            } else {
                0
            };
            proof {
                assert(binstr@.take(i as int + 1).drop_last() =~= binstr@.take(i as int));
            }
            acc = 2 * acc + d;
            i += 1;
        }
        proof {
            assert(binstr@.take(len as int) =~= binstr@);
        }
        Ok(Block { val: acc })
    }

    /// Substitute each of the four 4-bit nibbles through `table` (nibble n
    /// maps to entry n), then reassemble the nibbles in their positions.
    /// Nibble i of the output depends only on nibble i of the input.
    pub fn substitute(&self, table: &[u16; 16]) -> (r: Self)
        ensures
            r@ == sub_spec(table@, self@),
    {
        let v = self.val;
        let b0 = v % 16;
        let b1 = (v >> 4) % 16;
        let b2 = (v >> 8) % 16;
        let b3 = (v >> 12) % 16;
        proof {
            assert(b0 == nib(v, 0) && b1 == nib(v, 1) && b2 == nib(v, 2) && b3 == nib(v, 3)
                && b0 < 16 && b1 < 16 && b2 < 16 && b3 < 16) by (bit_vector)
                requires
                    b0 == v % 16 && b1 == (v >> 4) % 16 && b2 == (v >> 8) % 16 && b3 == (v >> 12)
                        % 16,
            ;
        }
        let b0 = table[b0 as usize];
        let b1 = table[b1 as usize];
        let b2 = table[b2 as usize];
        let b3 = table[b3 as usize];
        Block { val: (b3 << 12) | (b2 << 8) | (b1 << 4) | b0 }
    }

    /// Move each bit of the block to its destination: the bit at 0-based
    /// position i of the input lands at position `table[i]` of the output.
    pub fn permute(&self, table: &[u16; 16]) -> (r: Self)
        requires
            forall|i: int| 0 <= i < 16 ==> table@[i] < 16,
        ensures
            r@ == perm_spec(table@, self@),
    {
        let mut val: u16 = 0;
        let mut shift: u16 = 0;
        let v = self.val;
        while shift < 16
            invariant
                shift <= 16,
                v == self@,
                forall|i: int| 0 <= i < 16 ==> table@[i] < 16,
                val == perm_rec(table@, v, shift as int),
            decreases 16 - shift,
        {
            let mask = 1u16 << shift;
            proof {
                assert(((v & (1u16 << shift)) == 0 ==> bit16(v, shift) == 0) && ((v & (1u16
                    << shift)) != 0 ==> bit16(v, shift) == 1)) by (bit_vector)
                    requires
                        shift < 16,
                ;
            }
            let ghost prev = val;
            if v & mask != 0 {
                val = val | (1u16 << table[shift as usize]);
            } else {
                proof {
                    assert(prev | 0u16 == prev) by (bit_vector);
                }
            }
            proof {
                assert(perm_rec(table@, v, shift as int + 1) == perm_rec(table@, v, shift as int)
                    | (if bit16(v, shift) == 1 {
                    (1u16 << table@[shift as int])
                } else {
                    0u16
                }));
            }
            shift += 1;
        }
        Block { val }
    }

    /// XOR the block with a round key. Self-inverse: mixing the same key
    /// twice restores the block.
    pub fn mix_key(&self, key: u16) -> (r: Self)
        ensures
            r@ == self@ ^ key,
    {
        Block { val: self.val ^ key }
    }

    /// The bit at 1-based, big-endian location `loc`: location 1 is the
    /// most significant bit, location 16 the least significant. Fails with
    /// a range error outside 1..=16.
    pub fn get_bit_1base(&self, loc: u8) -> (r: Result<u16, CipherError>)
        ensures
            1 <= loc <= 16 ==> r == Ok::<u16, CipherError>(bit16(self@, (16 - loc) as u16)),
            !(1 <= loc <= 16) ==> r == Err::<u16, CipherError>(CipherError::Range),
    {
        if loc < 1 || loc > 16 {
            return Err(CipherError::Range);
        }
        let shift: u16 = 16 - (loc as u16);
        let mask: u16 = 1u16 << shift;
        let v = self.val;
        proof {
            assert(((v & (1u16 << shift)) == 0 ==> bit16(v, shift) == 0) && ((v & (1u16
                << shift)) != 0 ==> bit16(v, shift) == 1)) by (bit_vector)
                requires
                    shift < 16,
            ;
        }
        if v & mask == 0 {
            Ok(0)
        } else {
            Ok(1)
        }
    }
}

// ---------------------------------------------------------------------------
// Substitution and permutation, over an arbitrary table
// ---------------------------------------------------------------------------

/// The word whose nibble i is entry `nib(v, i)` of `t`: the meaning of a
/// substitution step.
pub open spec fn sub_spec(t: Seq<u16>, v: u16) -> u16 {
    (t[nib(v, 3) as int] << 12) | (t[nib(v, 2) as int] << 8) | (t[nib(v, 1) as int] << 4) | t[nib(
        v,
        0,
    ) as int]
}

/// The partial result of a permutation step after the lowest `n` source
/// bits have been moved: each set bit at position i < n of `v` has been
/// OR-accumulated into position `t[i]`.
pub open spec fn perm_rec(t: Seq<u16>, v: u16, n: int) -> u16
    decreases n,
{
    if n <= 0 {
        0u16
    } else {
        perm_rec(t, v, n - 1) | (if bit16(v, (n - 1) as u16) == 1 {
            (1u16 << t[n - 1])
        } else {
            0u16
        })
    }
}

/// The meaning of a full permutation step: all 16 source bits moved.
pub open spec fn perm_spec(t: Seq<u16>, v: u16) -> u16 {
    perm_rec(t, v, 16)
}

/// Substituting through a table and then through a left inverse of that
/// table restores the block.
pub proof fn lemma_substitute_inverse(t: Seq<u16>, ti: Seq<u16>, v: u16)
    requires
        t.len() == 16,
        ti.len() == 16,
        forall|n: int| 0 <= n < 16 ==> t[n] < 16,
        forall|n: int| 0 <= n < 16 ==> ti[t[n] as int] == n,
    ensures
        sub_spec(ti, sub_spec(t, v)) == v,
{
    lemma_nib_bound(v);
    let n0 = nib(v, 0);
    let n1 = nib(v, 1);
    let n2 = nib(v, 2);
    let n3 = nib(v, 3);
    let t0 = t[n0 as int];
    let t1 = t[n1 as int];
    let t2 = t[n2 as int];
    let t3 = t[n3 as int];
    let w = sub_spec(t, v);
    assert(nib(w, 0) == t0 && nib(w, 1) == t1 && nib(w, 2) == t2 && nib(w, 3) == t3)
        by (bit_vector)
        requires
            t0 < 16 && t1 < 16 && t2 < 16 && t3 < 16,
            w == (t3 << 12) | (t2 << 8) | (t1 << 4) | t0,
    ;
    assert(sub_spec(ti, w) == (ti[t3 as int] << 12) | (ti[t2 as int] << 8) | (ti[t1 as int] << 4)
        | ti[t0 as int]);
    assert((((n3 as u16) << 12) | ((n2 as u16) << 8) | ((n1 as u16) << 4) | (n0 as u16)) == v)
        by (bit_vector)
        requires
            n0 == nib(v, 0) && n1 == nib(v, 1) && n2 == nib(v, 2) && n3 == nib(v, 3),
    ;
}

/// How a partial permutation places bits: position `t[i]` of the result
/// carries bit i of `v` for every moved bit i < n, and every position not
/// yet written to is still clear. Needs the moved entries to be pairwise
/// distinct, else a later bit would overwrite an earlier one.
pub proof fn lemma_perm_rec_bits(t: Seq<u16>, v: u16, n: int)
    requires
        t.len() == 16,
        forall|i: int| 0 <= i < 16 ==> t[i] < 16,
        forall|i: int, j: int| 0 <= i < j < 16 ==> t[i] != t[j],
        0 <= n <= 16,
    ensures
        forall|i: int| 0 <= i < n ==> bit16(perm_rec(t, v, n), t[i]) == bit16(v, i as u16),
        forall|k: u16|
            k < 16 && (forall|i: int| 0 <= i < n ==> t[i] != k) ==> bit16(perm_rec(t, v, n), k)
                == 0,
    decreases n,
{
    lemma_bit16_values(v);
    if n <= 0 {
        assert forall|k: u16|
            k < 16 && (forall|i: int| 0 <= i < n ==> t[i] != k) implies bit16(
            perm_rec(t, v, n),
            k,
        ) == 0 by {
            lemma_bit16_zero();
            assert(bit16(0u16, k) == 0);
        }
    } else {
        lemma_perm_rec_bits(t, v, n - 1);
        let prev = perm_rec(t, v, n - 1);
        let b = bit16(v, (n - 1) as u16);
        let m: u16 = if b == 1 {
            (1u16 << t[n - 1])
        } else {
            0u16
        };
        assert(perm_rec(t, v, n) == prev | m);
        lemma_bit16_or(prev, m);
        assert forall|k: u16| k < 16 implies bit16(m, k) == (if k == t[n - 1] {
            b
        } else {
            0u16
        }) by {
            if b == 1 {
                lemma_bit16_single(t[n - 1]);
                assert(bit16(1u16 << t[n - 1], k) == (if k == t[n - 1] {
                    1u16
                } else {
                    0u16
                }));
            } else {
                lemma_bit16_zero();
                assert(bit16(0u16, k) == 0);
            }
        }
        assert forall|i: int| 0 <= i < n implies bit16(perm_rec(t, v, n), t[i]) == bit16(
            v,
            i as u16,
        ) by {
            assert(t[i] < 16);
            assert(bit16(prev | m, t[i]) == (if bit16(prev, t[i]) == 1 || bit16(m, t[i]) == 1 {
                1u16
            } else {
                0u16
            }));
            if i < n - 1 {
                assert(t[i] != t[n - 1]);
                assert(bit16(m, t[i]) == 0);
                assert(bit16(perm_rec(t, v, n - 1), t[i]) == bit16(v, i as u16));
            } else {
                assert(forall|j: int| 0 <= j < n - 1 ==> #[trigger] t[j] != t[n - 1]);
                assert(bit16(perm_rec(t, v, n - 1), t[n - 1]) == 0);
                assert(bit16(m, t[n - 1]) == b);
            }
        }
        assert forall|k: u16|
            k < 16 && (forall|i: int| 0 <= i < n ==> t[i] != k) implies bit16(
            perm_rec(t, v, n),
            k,
        ) == 0 by {
            assert(t[n - 1] != k);
            assert(bit16(m, k) == 0);
            assert(forall|i: int| 0 <= i < n - 1 ==> #[trigger] t[i] != k);
            assert(bit16(perm_rec(t, v, n - 1), k) == 0);
            assert(bit16(prev | m, k) == (if bit16(prev, k) == 1 || bit16(m, k) == 1 {
                1u16
            } else {
                0u16
            }));
        }
    }
}

/// Permuting through a table and then through its inverse restores the
/// block.
pub proof fn lemma_permute_inverse(t: Seq<u16>, ti: Seq<u16>, v: u16)
    requires
        t.len() == 16,
        ti.len() == 16,
        forall|i: int| 0 <= i < 16 ==> t[i] < 16,
        forall|i: int| 0 <= i < 16 ==> ti[i] < 16,
        forall|i: int| 0 <= i < 16 ==> ti[t[i] as int] == i,
        forall|i: int| 0 <= i < 16 ==> t[ti[i] as int] == i,
    ensures
        perm_spec(ti, perm_spec(t, v)) == v,
{
    let w = perm_spec(t, v);
    assert forall|i: int, j: int| 0 <= i < j < 16 implies t[i] != t[j] by {
        assert(ti[t[i] as int] == i && ti[t[j] as int] == j);
    }
    assert forall|i: int, j: int| 0 <= i < j < 16 implies ti[i] != ti[j] by {
        assert(t[ti[i] as int] == i && t[ti[j] as int] == j);
    }
    lemma_perm_rec_bits(t, v, 16);
    lemma_perm_rec_bits(ti, w, 16);
    assert forall|k: u16| k < 16 implies bit16(perm_spec(ti, perm_spec(t, v)), k) == bit16(
        v,
        k,
    ) by {
        assert(ti[t[k as int] as int] == k as int);
        assert(bit16(perm_rec(ti, w, 16), ti[t[k as int] as int]) == bit16(w, t[k as int]));
        assert(bit16(perm_rec(t, v, 16), t[k as int]) == bit16(v, k));
    }
    lemma_bit16_ext(perm_spec(ti, perm_spec(t, v)), v);
}

// ---------------------------------------------------------------------------
// The fixed tables of Heys' cipher
// ---------------------------------------------------------------------------

/// Entry n of the forward S-box.
pub open spec fn sbox_at(n: int) -> u16 {
    if n == 0 { 0xe } else if n == 1 { 0x4 } else if n == 2 { 0xd } else if n == 3 { 0x1 }
    else if n == 4 { 0x2 } else if n == 5 { 0xf } else if n == 6 { 0xb } else if n == 7 { 0x8 }
    else if n == 8 { 0x3 } else if n == 9 { 0xa } else if n == 10 { 0x6 } else if n == 11 { 0xc }
    else if n == 12 { 0x5 } else if n == 13 { 0x9 } else if n == 14 { 0x0 } else { 0x7 }
}

/// Entry n of the inverse S-box.
pub open spec fn sbox_inv_at(n: int) -> u16 {
    if n == 0 { 0xe } else if n == 1 { 0x3 } else if n == 2 { 0x4 } else if n == 3 { 0x8 }
    else if n == 4 { 0x1 } else if n == 5 { 0xc } else if n == 6 { 0xa } else if n == 7 { 0xf }
    else if n == 8 { 0x7 } else if n == 9 { 0xd } else if n == 10 { 0x9 } else if n == 11 { 0x6 }
    else if n == 12 { 0xb } else if n == 13 { 0x2 } else if n == 14 { 0x0 } else { 0x5 }
}

/// Destination of source bit n under the forward permutation (0-based
/// positions from the least significant bit): bit b of nibble a moves to
/// bit a of nibble b.
pub open spec fn perm_at(n: int) -> u16 {
    if n == 0 { 0 } else if n == 1 { 4 } else if n == 2 { 8 } else if n == 3 { 12 }
    else if n == 4 { 1 } else if n == 5 { 5 } else if n == 6 { 9 } else if n == 7 { 13 }
    else if n == 8 { 2 } else if n == 9 { 6 } else if n == 10 { 10 } else if n == 11 { 14 }
    else if n == 12 { 3 } else if n == 13 { 7 } else if n == 14 { 11 } else { 15 }
}

/// Destination of source bit n under the inverse permutation. The forward
/// permutation is an involution, so the entries coincide with `perm_at`;
/// the inverse is still supplied under its own name, as the cipher uses it.
pub open spec fn perm_inv_at(n: int) -> u16 {
    if n == 0 { 0 } else if n == 1 { 4 } else if n == 2 { 8 } else if n == 3 { 12 }
    else if n == 4 { 1 } else if n == 5 { 5 } else if n == 6 { 9 } else if n == 7 { 13 }
    else if n == 8 { 2 } else if n == 9 { 6 } else if n == 10 { 10 } else if n == 11 { 14 }
    else if n == 12 { 3 } else if n == 13 { 7 } else if n == 14 { 11 } else { 15 }
}

/// The forward S-box table, indexed by input nibble.
pub fn sbox_table() -> (t: [u16; 16])
    ensures
        forall|i: int| 0 <= i < 16 ==> t@[i] == sbox_at(i),
{
    [0xe, 0x4, 0xd, 0x1, 0x2, 0xf, 0xb, 0x8, 0x3, 0xa, 0x6, 0xc, 0x5, 0x9, 0x0, 0x7]
}

/// The inverse S-box table, indexed by input nibble.
pub fn sbox_inverse_table() -> (t: [u16; 16])
    ensures
        forall|i: int| 0 <= i < 16 ==> t@[i] == sbox_inv_at(i),
{
    [0xe, 0x3, 0x4, 0x8, 0x1, 0xc, 0xa, 0xf, 0x7, 0xd, 0x9, 0x6, 0xb, 0x2, 0x0, 0x5]
}

/// The forward permutation table, indexed by 0-based source bit position.
pub fn permutation_table() -> (t: [u16; 16])
    ensures
        forall|i: int| 0 <= i < 16 ==> t@[i] == perm_at(i),
{
    [0, 4, 8, 12, 1, 5, 9, 13, 2, 6, 10, 14, 3, 7, 11, 15]
}

/// The inverse permutation table, indexed by 0-based source bit position.
pub fn permutation_inverse_table() -> (t: [u16; 16])
    ensures
        forall|i: int| 0 <= i < 16 ==> t@[i] == perm_inv_at(i),
{
    [0, 4, 8, 12, 1, 5, 9, 13, 2, 6, 10, 14, 3, 7, 11, 15]
}

/// The forward S-box as a sequence, indexed by input nibble.
pub open spec fn sbox_seq() -> Seq<u16> {
    Seq::new(16, |i: int| sbox_at(i))
}

/// The inverse S-box as a sequence, indexed by input nibble.
pub open spec fn sbox_inv_seq() -> Seq<u16> {
    Seq::new(16, |i: int| sbox_inv_at(i))
}

/// The forward permutation as a sequence, indexed by source bit position.
pub open spec fn perm_seq() -> Seq<u16> {
    Seq::new(16, |i: int| perm_at(i))
}

/// The inverse permutation as a sequence, indexed by source bit position.
pub open spec fn perm_inv_seq() -> Seq<u16> {
    Seq::new(16, |i: int| perm_inv_at(i))
}

/// The fixed tables are exact inverses of one another, entry by entry, and
/// all entries are 4 bits wide.
pub proof fn lemma_tables_well_formed()
    ensures
        forall|n: int| 0 <= n < 16 ==> sbox_at(n) < 16,
        forall|n: int| 0 <= n < 16 ==> sbox_inv_at(n) < 16,
        forall|n: int| 0 <= n < 16 ==> sbox_inv_at(sbox_at(n) as int) == n,
        forall|n: int| 0 <= n < 16 ==> sbox_at(sbox_inv_at(n) as int) == n,
        forall|n: int| 0 <= n < 16 ==> perm_at(n) < 16,
        forall|n: int| 0 <= n < 16 ==> perm_inv_at(n) < 16,
        forall|n: int| 0 <= n < 16 ==> perm_inv_at(perm_at(n) as int) == n,
        forall|n: int| 0 <= n < 16 ==> perm_at(perm_inv_at(n) as int) == n,
{
}

// ---------------------------------------------------------------------------
// HeysCipher
// ---------------------------------------------------------------------------

/// What encryption computes: 4 rounds of key mixing, substitution and
/// permutation (the permutation of the last round is replaced by a final
/// key whitening).
pub open spec fn encrypt_spec(keys: Seq<u16>, p: u16) -> u16 {
    let v1 = sub_spec(sbox_seq(), p ^ keys[0]);
    let v2 = sub_spec(sbox_seq(), perm_spec(perm_seq(), v1) ^ keys[1]);
    let v3 = sub_spec(sbox_seq(), perm_spec(perm_seq(), v2) ^ keys[2]);
    let v4 = sub_spec(sbox_seq(), perm_spec(perm_seq(), v3) ^ keys[3]);
    v4 ^ keys[4]
}

/// What decryption computes: the algebraic inverse of `encrypt_spec`,
/// applied in reverse order with the inverse tables.
pub open spec fn decrypt_spec(keys: Seq<u16>, c: u16) -> u16 {
    let u4 = sub_spec(sbox_inv_seq(), c ^ keys[4]);
    let u3 = sub_spec(sbox_inv_seq(), perm_spec(perm_inv_seq(), u4 ^ keys[3]));
    let u2 = sub_spec(sbox_inv_seq(), perm_spec(perm_inv_seq(), u3 ^ keys[2]));
    let u1 = sub_spec(sbox_inv_seq(), perm_spec(perm_inv_seq(), u2 ^ keys[1]));
    u1 ^ keys[0]
}

/// The spec-level table sequences are well formed: 16 entries each, every
/// entry 4 bits wide, and forward and inverse compose to the identity.
pub proof fn lemma_table_seqs()
    ensures
        sbox_seq().len() == 16,
        sbox_inv_seq().len() == 16,
        perm_seq().len() == 16,
        perm_inv_seq().len() == 16,
        forall|n: int| 0 <= n < 16 ==> #[trigger] sbox_seq()[n] < 16,
        forall|n: int| 0 <= n < 16 ==> #[trigger] sbox_inv_seq()[n] < 16,
        forall|n: int| 0 <= n < 16 ==> sbox_inv_seq()[#[trigger] sbox_seq()[n] as int] == n,
        forall|n: int| 0 <= n < 16 ==> sbox_seq()[#[trigger] sbox_inv_seq()[n] as int] == n,
        forall|n: int| 0 <= n < 16 ==> #[trigger] perm_seq()[n] < 16,
        forall|n: int| 0 <= n < 16 ==> #[trigger] perm_inv_seq()[n] < 16,
        forall|n: int| 0 <= n < 16 ==> perm_inv_seq()[#[trigger] perm_seq()[n] as int] == n,
        forall|n: int| 0 <= n < 16 ==> perm_seq()[#[trigger] perm_inv_seq()[n] as int] == n,
{
    lemma_tables_well_formed();
}

/// Heys' block cipher: 5 round subkeys, fixed at construction. Its view is
/// the sequence of the 5 subkeys.
pub struct HeysCipher {
    round_keys: [u16; 5],
}

impl View for HeysCipher {
    type V = Seq<u16>;

    closed spec fn view(&self) -> Seq<u16> {
        self.round_keys@
    }
}

impl HeysCipher {
    /// Build a cipher from its round subkeys; fails unless exactly 5 are
    /// supplied.
    pub fn from_keys(new_keys: &[u16]) -> (r: Result<Self, CipherError>)
        ensures
            new_keys@.len() == 5 ==> (r is Ok && r.unwrap()@ == new_keys@),
            new_keys@.len() != 5 ==> r == Err::<HeysCipher, CipherError>(CipherError::Arity),
    {
        if new_keys.len() != 5 {
            return Err(CipherError::Arity);
        }
        let round_keys: [u16; 5] = [new_keys[0], new_keys[1], new_keys[2], new_keys[3], new_keys[4]];
        proof {
            assert(round_keys@ =~= new_keys@);
        }
        Ok(HeysCipher { round_keys })
    }

    /// Encrypt a plaintext block: mix subkey 0, then three full rounds of
    /// substitute-permute-mix, then a final substitution and whitening with
    /// subkey 4.
    pub fn encrypt(&self, plaintext: &Block) -> (r: Block)
        ensures
            r@ == encrypt_spec(self@, plaintext@),
    {
        let sbox = sbox_table();
        let perm = permutation_table();
        proof {
            lemma_tables_well_formed();
            assert(sbox@ =~= sbox_seq());
            assert(perm@ =~= perm_seq());
        }
        let u1 = plaintext.mix_key(self.round_keys[0]);
        let v1 = u1.substitute(&sbox);
        let u2 = v1.permute(&perm).mix_key(self.round_keys[1]);
        let v2 = u2.substitute(&sbox);
        let u3 = v2.permute(&perm).mix_key(self.round_keys[2]);
        let v3 = u3.substitute(&sbox);
        let u4 = v3.permute(&perm).mix_key(self.round_keys[3]);
        let v4 = u4.substitute(&sbox);
        v4.mix_key(self.round_keys[4])
    }

    /// Decrypt a ciphertext block: the exact inverse pipeline, using the
    /// inverse tables; key mixing is self-inverse and is reused unchanged.
    pub fn decrypt(&self, ciphertext: &Block) -> (r: Block)
        ensures
            r@ == decrypt_spec(self@, ciphertext@),
    {
        let sbox_inv = sbox_inverse_table();
        let perm_inv = permutation_inverse_table();
        proof {
            lemma_tables_well_formed();
            assert(sbox_inv@ =~= sbox_inv_seq());
            assert(perm_inv@ =~= perm_inv_seq());
        }
        let v4 = ciphertext.mix_key(self.round_keys[4]);
        let u4 = v4.substitute(&sbox_inv);
        let v3 = u4.mix_key(self.round_keys[3]).permute(&perm_inv);
        let u3 = v3.substitute(&sbox_inv);
        let v2 = u3.mix_key(self.round_keys[2]).permute(&perm_inv);
        let u2 = v2.substitute(&sbox_inv);
        let v1 = u2.mix_key(self.round_keys[1]).permute(&perm_inv);
        let u1 = v1.substitute(&sbox_inv);
        u1.mix_key(self.round_keys[0])
    }
}

/// Law: the cipher is invertible. For every set of 5 round subkeys and
/// every 16-bit block, decrypting an encryption restores the block.
pub proof fn lemma_cipher_invertible(keys: Seq<u16>, p: u16)
    requires
        keys.len() == 5,
    ensures
        decrypt_spec(keys, encrypt_spec(keys, p)) == p,
{
    lemma_table_seqs();
    let s = sbox_seq();
    let si = sbox_inv_seq();
    let pm = perm_seq();
    let pi = perm_inv_seq();
    let v1 = sub_spec(s, p ^ keys[0]);
    let v2 = sub_spec(s, perm_spec(pm, v1) ^ keys[1]);
    let v3 = sub_spec(s, perm_spec(pm, v2) ^ keys[2]);
    let v4 = sub_spec(s, perm_spec(pm, v3) ^ keys[3]);
    let c = v4 ^ keys[4];
    assert(encrypt_spec(keys, p) == c);
    lemma_xor_involution(v4, keys[4]);
    lemma_substitute_inverse(s, si, perm_spec(pm, v3) ^ keys[3]);
    lemma_xor_involution(perm_spec(pm, v3), keys[3]);
    lemma_permute_inverse(pm, pi, v3);
    lemma_substitute_inverse(s, si, perm_spec(pm, v2) ^ keys[2]);
    lemma_xor_involution(perm_spec(pm, v2), keys[2]);
    lemma_permute_inverse(pm, pi, v2);
    lemma_substitute_inverse(s, si, perm_spec(pm, v1) ^ keys[1]);
    lemma_xor_involution(perm_spec(pm, v1), keys[1]);
    lemma_permute_inverse(pm, pi, v1);
    lemma_substitute_inverse(s, si, p ^ keys[0]);
    lemma_xor_involution(p, keys[0]);
    assert(decrypt_spec(keys, c) == p);
}

/// Law: key mixing is an involution, on the spec view of a block.
pub proof fn lemma_mix_key_involution(v: u16, k: u16)
    ensures
        (v ^ k) ^ k == v,
{
    lemma_xor_involution(v, k);
}

// ---------------------------------------------------------------------------
// Linear approximation and bias
// ---------------------------------------------------------------------------

/// Whether every entry of `locs` is a valid 1-based bit location.
pub open spec fn valid_locs(locs: Seq<u8>) -> bool {
    forall|i: int| 0 <= i < locs.len() ==> 1 <= #[trigger] locs[i] <= 16
}

/// The sum, over the integers, of the bits of `v` at the given 1-based
/// big-endian locations.
pub open spec fn bit_sum(v: u16, locs: Seq<u8>) -> int
    decreases locs.len(),
{
    if locs.len() == 0 {
        0
    } else {
        bit_sum(v, locs.drop_last()) + bit16(v, (16 - locs.last()) as u16)
    }
}

proof fn lemma_bit_sum_nonneg(v: u16, locs: Seq<u8>)
    ensures
        bit_sum(v, locs) >= 0,
    decreases locs.len(),
{
    if locs.len() > 0 {
        lemma_bit_sum_nonneg(v, locs.drop_last());
        lemma_bit16_values(v);
    }
}

/// The round-3 intermediate state that the attack reaches by undoing only
/// the final key whitening and the final substitution of a ciphertext.
pub open spec fn u4_state(k5: u16, c: u16) -> u16 {
    sub_spec(sbox_inv_seq(), c ^ k5)
}

/// Whether a (plaintext, ciphertext) pair votes for the linear
/// approximation under the cipher's final subkey: 1 exactly when the
/// XOR-parity of the selected plaintext bits and intermediate-state bits
/// is 0, i.e. the predicted relation holds; 0 otherwise.
pub open spec fn approx_spec(keys: Seq<u16>, p: u16, c: u16, pt_locs: Seq<u8>, u4_locs: Seq<u8>) -> u16 {
    if (bit_sum(p, pt_locs) + bit_sum(u4_state(keys[4], c), u4_locs)) % 2 == 0 {
        1u16
    } else {
        0u16
    }
}

/// The parity (mod 2) of the bits of `b` at the given 1-based locations.
fn bit_parity(b: &Block, locs: &[u8]) -> (r: u16)
    requires
        valid_locs(locs@),
    ensures
        r == bit_sum(b@, locs@) % 2,
{
    proof {
        lemma_bit16_values(b@);
    }
    let mut par: u16 = 0;
    let mut i: usize = 0;
    while i < locs.len()
        invariant
            valid_locs(locs@),
            i <= locs@.len(),
            par == bit_sum(b@, locs@.take(i as int)) % 2,
            forall|s: u16| #![trigger bit16(b@, s)] bit16(b@, s) == 0 || bit16(b@, s) == 1,
        decreases locs@.len() - i,
    {
        let bit = match b.get_bit_1base(locs[i]) {
            Ok(x) => x,
            Err(_) => 0,
        };
        proof {
            assert(locs@.take(i as int + 1).drop_last() =~= locs@.take(i as int));
            lemma_bit_sum_nonneg(b@, locs@.take(i as int));
            vstd::arithmetic::div_mod::lemma_add_mod_noop(
                bit_sum(b@, locs@.take(i as int)),
                bit as int,
                2,
            );
        }
        par = (par + bit) % 2;
        i += 1;
    }
    proof {
        assert(locs@.take(locs@.len() as int) =~= locs@);
    }
    par
}

impl HeysCipher {
    /// Evaluate the linear approximation on one (plaintext, ciphertext)
    /// pair: undo the final whitening and substitution of the ciphertext,
    /// then return 1 exactly when the bits of the plaintext at `pt_locs`
    /// and of the intermediate state at `u4_locs` have even XOR-parity.
    ///
    /// A linear approximation takes the form
    /// (some plaintext bits) + (some intermediate-state bits) = 0 (mod 2),
    /// with bits named by big-endian 1-based locations.
    pub fn check_linear_approx(&self, pt: &Block, ct: &Block, pt_locs: &[u8], u4_locs: &[u8]) -> (r:
        u16)
        requires
            valid_locs(pt_locs@),
            valid_locs(u4_locs@),
        ensures
            r == approx_spec(self@, pt@, ct@, pt_locs@, u4_locs@),
    {
        let sbox_inv = sbox_inverse_table();
        proof {
            assert(sbox_inv@ =~= sbox_inv_seq());
        }
        let u4 = ct.mix_key(self.round_keys[4]).substitute(&sbox_inv);
        let p1 = bit_parity(pt, pt_locs);
        let p2 = bit_parity(&u4, u4_locs);
        proof {
            lemma_bit_sum_nonneg(pt@, pt_locs@);
            lemma_bit_sum_nonneg(u4@, u4_locs@);
            vstd::arithmetic::div_mod::lemma_add_mod_noop(
                bit_sum(pt@, pt_locs@),
                bit_sum(u4@, u4_locs@),
                2,
            );
        }
        if (p1 + p2) % 2 == 0 {
            1
        } else {
            0
        }
    }

    /// How many of the first `n` (plaintext, ciphertext) pairs vote for the
    /// approximation under this cipher's final subkey.
    pub fn count_approx_matches(
        &self,
        plaintexts: &[Block],
        ciphertexts: &[Block],
        pt_locs: &[u8],
        u4_locs: &[u8],
    ) -> (r: usize)
        requires
            plaintexts@.len() == ciphertexts@.len(),
            valid_locs(pt_locs@),
            valid_locs(u4_locs@),
        ensures
            r == match_count_spec(self@, plaintexts@, ciphertexts@, pt_locs@, u4_locs@),
            r <= plaintexts@.len(),
    {
        let mut count: usize = 0;
        let mut i: usize = 0;
        while i < plaintexts.len()
            invariant
                plaintexts@.len() == ciphertexts@.len(),
                valid_locs(pt_locs@),
                valid_locs(u4_locs@),
                i <= plaintexts@.len(),
                count <= i,
                count == match_count_to(
                    self@,
                    plaintexts@,
                    ciphertexts@,
                    pt_locs@,
                    u4_locs@,
                    i as int,
                ),
            decreases plaintexts@.len() - i,
        {
            let m = self.check_linear_approx(&plaintexts[i], &ciphertexts[i], pt_locs, u4_locs);
            count += m as usize;
            i += 1;
        }
        count
    }

    /// The observed bias of the approximation over a non-empty corpus,
    /// scaled to an exact integer: with c votes out of n pairs the observed
    /// match probability is c/n, and the bias |c/n - 1/2| equals r/(2n) for
    /// the returned r == |2c - n|. Since r <= n, the bias always lies in
    /// [0, 1/2].
    pub fn bias_deviation(
        &self,
        plaintexts: &[Block],
        ciphertexts: &[Block],
        pt_locs: &[u8],
        u4_locs: &[u8],
    ) -> (r: usize)
        requires
            plaintexts@.len() == ciphertexts@.len(),
            plaintexts@.len() > 0,
            plaintexts@.len() <= usize::MAX / 2,
            valid_locs(pt_locs@),
            valid_locs(u4_locs@),
        ensures
            r == deviation_spec(self@, plaintexts@, ciphertexts@, pt_locs@, u4_locs@),
            r <= plaintexts@.len(),
    {
        let c = self.count_approx_matches(plaintexts, ciphertexts, pt_locs, u4_locs);
        let n = plaintexts.len();
        if 2 * c >= n {
            2 * c - n
        } else {
            n - 2 * c
        }
    }
}

/// The number of votes for the approximation among the first `n` pairs of
/// the corpus.
pub open spec fn match_count_to(
    keys: Seq<u16>,
    pts: Seq<Block>,
    cts: Seq<Block>,
    pt_locs: Seq<u8>,
    u4_locs: Seq<u8>,
    n: int,
) -> int
    decreases n,
{
    if n <= 0 {
        0
    } else {
        match_count_to(keys, pts, cts, pt_locs, u4_locs, n - 1) + approx_spec(
            keys,
            pts[n - 1]@,
            cts[n - 1]@,
            pt_locs,
            u4_locs,
        )
    }
}

/// The number of votes for the approximation over the whole corpus.
pub open spec fn match_count_spec(
    keys: Seq<u16>,
    pts: Seq<Block>,
    cts: Seq<Block>,
    pt_locs: Seq<u8>,
    u4_locs: Seq<u8>,
) -> int {
    match_count_to(keys, pts, cts, pt_locs, u4_locs, pts.len() as int)
}

/// The bias of the approximation over the corpus, scaled by twice the
/// corpus length: |2c - n| for c votes out of n pairs.
pub open spec fn deviation_spec(
    keys: Seq<u16>,
    pts: Seq<Block>,
    cts: Seq<Block>,
    pt_locs: Seq<u8>,
    u4_locs: Seq<u8>,
) -> int {
    let c = match_count_spec(keys, pts, cts, pt_locs, u4_locs);
    let n = pts.len() as int;
    if 2 * c >= n {
        2 * c - n
    } else {
        n - 2 * c
    }
}

/// Law: the vote count lies between 0 and the corpus length, so the scaled
/// bias |2c - n| lies between 0 and n: the bias itself lies in [0, 1/2].
pub proof fn lemma_deviation_in_range(
    keys: Seq<u16>,
    pts: Seq<Block>,
    cts: Seq<Block>,
    pt_locs: Seq<u8>,
    u4_locs: Seq<u8>,
)
    ensures
        0 <= match_count_spec(keys, pts, cts, pt_locs, u4_locs) <= pts.len(),
        0 <= deviation_spec(keys, pts, cts, pt_locs, u4_locs) <= pts.len(),
{
    lemma_match_count_to_bounds(keys, pts, cts, pt_locs, u4_locs, pts.len() as int);
}

proof fn lemma_match_count_to_bounds(
    keys: Seq<u16>,
    pts: Seq<Block>,
    cts: Seq<Block>,
    pt_locs: Seq<u8>,
    u4_locs: Seq<u8>,
    n: int,
)
    ensures
        0 <= match_count_to(keys, pts, cts, pt_locs, u4_locs, n) <= (if n >= 0 { n } else { 0 }),
    decreases n,
{
    if n > 0 {
        lemma_match_count_to_bounds(keys, pts, cts, pt_locs, u4_locs, n - 1);
    }
}

// ---------------------------------------------------------------------------
// Key recovery
// ---------------------------------------------------------------------------

/// The subkeys of the last-round-only cipher used during key recovery:
/// the candidate in the final slot, zero everywhere else.
pub open spec fn last_round_keys(k5: u16) -> Seq<u16> {
    seq![0u16, 0u16, 0u16, 0u16, k5]
}

/// A cipher whose final subkey is `k5` and whose other four subkeys are
/// zero. The attack only ever partially decrypts through the final
/// whitening and substitution, so the other subkeys are irrelevant to it
/// and can be pinned to zero.
pub fn last_round_only_cipher(k5: u16) -> (c: HeysCipher)
    ensures
        c@ == last_round_keys(k5),
{
    let c = HeysCipher { round_keys: [0, 0, 0, 0, k5] };
    proof {
        assert(c@ =~= last_round_keys(k5));
    }
    c
}

/// The scaled bias that a candidate final subkey shows on the corpus,
/// measured through the last-round-only cipher.
pub open spec fn candidate_deviation(
    pts: Seq<Block>,
    cts: Seq<Block>,
    pt_locs: Seq<u8>,
    u4_locs: Seq<u8>,
    k: u16,
) -> int {
    deviation_spec(last_round_keys(k), pts, cts, pt_locs, u4_locs)
}

/// Whether candidate `k` lies in the subspace selected by `mask`: every
/// bit of `k` outside the mask is zero.
pub open spec fn in_subspace(k: u16, mask: u16) -> bool {
    k & !mask == 0
}

/// Every candidate lies in the subspace of the full mask.
pub proof fn lemma_full_subspace()
    ensures
        forall|k: u16| #[trigger] in_subspace(k, 0xffffu16),
{
    assert forall|k: u16| in_subspace(k, 0xffffu16) by {
        assert(k & !0xffffu16 == 0) by (bit_vector);
    }
}

/// Whether the sequence is strictly ordered by descending deviation, with
/// ties broken by ascending candidate value (the enumeration order, so the
/// ranking is what a stable descending sort produces).
pub open spec fn ranking_sorted(r: Seq<(usize, u16)>) -> bool {
    forall|i: int, j: int| #![trigger r[i], r[j]]
        0 <= i < j < r.len() ==> (r[i].0 > r[j].0 || (r[i].0 == r[j].0 && r[i].1 < r[j].1))
}

/// Whether `r` ranks exactly the candidates of the subspace of `mask` by
/// descending bias over the corpus: it is sorted, every entry pairs a
/// subspace candidate with that candidate's own scaled bias, and every
/// subspace candidate appears.
pub open spec fn is_bias_ranking(
    r: Seq<(usize, u16)>,
    pts: Seq<Block>,
    cts: Seq<Block>,
    pt_locs: Seq<u8>,
    u4_locs: Seq<u8>,
    mask: u16,
) -> bool {
    &&& ranking_sorted(r)
    &&& forall|i: int| #![trigger r[i]]
        0 <= i < r.len() ==> in_subspace(r[i].1, mask) && r[i].0 == candidate_deviation(
            pts,
            cts,
            pt_locs,
            u4_locs,
            r[i].1,
        )
    &&& forall|key: u16|
        #[trigger] in_subspace(key, mask) ==> exists|i: int|
            0 <= i < r.len() && (#[trigger] r[i]).1 == key
}

/// Every stored candidate is in the subspace, below the enumeration bound,
/// filed under its own deviation, and each row is strictly ascending.
spec fn buckets_ok(
    b: Seq<Vec<u16>>,
    pts: Seq<Block>,
    cts: Seq<Block>,
    pt_locs: Seq<u8>,
    u4_locs: Seq<u8>,
    mask: u16,
    bound: int,
) -> bool {
    &&& forall|d: int, x: int|
        0 <= d < b.len() && 0 <= x < b[d]@.len() ==> in_subspace(#[trigger] b[d]@[x], mask)
            && b[d]@[x] < bound && candidate_deviation(pts, cts, pt_locs, u4_locs, b[d]@[x]) == d
    &&& forall|d: int, x: int, y: int|
        0 <= d < b.len() && 0 <= x < y < b[d]@.len() ==> #[trigger] b[d]@[x] < #[trigger] b[d]@[y]
}

/// Every subspace candidate below the enumeration bound is filed in the
/// row of its own deviation.
spec fn buckets_complete(
    b: Seq<Vec<u16>>,
    pts: Seq<Block>,
    cts: Seq<Block>,
    pt_locs: Seq<u8>,
    u4_locs: Seq<u8>,
    mask: u16,
    bound: int,
) -> bool {
    forall|key: u16|
        key < bound && #[trigger] in_subspace(key, mask) ==> {
            let dev = candidate_deviation(pts, cts, pt_locs, u4_locs, key);
            0 <= dev < b.len() && exists|x: int| 0 <= x < b[dev]@.len() && b[dev]@[x] == key
        }
}

/// Enumerate every candidate final subkey in the subspace of `mask` in
/// ascending order, measure each candidate's scaled bias over the corpus,
/// and return the candidates ranked by descending bias (ties keep the
/// enumeration order).
#[verifier::rlimit(60)]
pub fn ranked_candidates(
    plaintexts: &[Block],
    ciphertexts: &[Block],
    pt_locs: &[u8],
    u4_locs: &[u8],
    mask: u16,
) -> (r: Vec<(usize, u16)>)
    requires
        plaintexts@.len() == ciphertexts@.len(),
        plaintexts@.len() > 0,
        plaintexts@.len() <= usize::MAX / 2,
        valid_locs(pt_locs@),
        valid_locs(u4_locs@),
    ensures
        is_bias_ranking(r@, plaintexts@, ciphertexts@, pt_locs@, u4_locs@, mask),
{
    let n = plaintexts.len();
    let mut buckets: Vec<Vec<u16>> = Vec::new();
    let mut di: usize = 0;
    while di < n + 1
        invariant
            di <= n + 1,
            n == plaintexts@.len(),
            plaintexts@.len() <= usize::MAX / 2,
            buckets@.len() == di,
            forall|x: int| 0 <= x < di ==> #[trigger] buckets@[x]@.len() == 0,
        decreases n + 1 - di,
    {
        buckets.push(Vec::new());
        di += 1;
    }
    let mut k: u32 = 0;
    while k < 0x10000
        invariant
            k <= 0x10000,
            n == plaintexts@.len(),
            plaintexts@.len() == ciphertexts@.len(),
            plaintexts@.len() > 0,
            plaintexts@.len() <= usize::MAX / 2,
            valid_locs(pt_locs@),
            valid_locs(u4_locs@),
            buckets@.len() == n + 1,
            buckets_ok(buckets@, plaintexts@, ciphertexts@, pt_locs@, u4_locs@, mask, k as int),
            buckets_complete(
                buckets@,
                plaintexts@,
                ciphertexts@,
                pt_locs@,
                u4_locs@,
                mask,
                k as int,
            ),
        decreases 0x10000 - k,
    {
        let key = k as u16;
        if key & !mask == 0 {
            let cipher = last_round_only_cipher(key);
            let dev = cipher.bias_deviation(plaintexts, ciphertexts, pt_locs, u4_locs);
            let ghost old_buckets = buckets@;
            proof {
                lemma_deviation_in_range(
                    last_round_keys(key),
                    plaintexts@,
                    ciphertexts@,
                    pt_locs@,
                    u4_locs@,
                );
            }
            buckets[dev].push(key);
            proof {
                assert forall|key2: u16|
                    key2 < k as int + 1 && in_subspace(key2, mask) implies {
                    let dv = candidate_deviation(
                        plaintexts@,
                        ciphertexts@,
                        pt_locs@,
                        u4_locs@,
                        key2,
                    );
                    0 <= dv < buckets@.len() && exists|x: int|
                        0 <= x < buckets@[dv]@.len() && buckets@[dv]@[x] == key2
                } by {
                    let dv = candidate_deviation(
                        plaintexts@,
                        ciphertexts@,
                        pt_locs@,
                        u4_locs@,
                        key2,
                    );
                    if key2 == key {
                        assert(buckets@[dv]@[old_buckets[dv]@.len() as int] == key2);
                    } else {
                        assert(key2 < k as int);
                        let x = choose|x: int|
                            0 <= x < old_buckets[dv]@.len() && old_buckets[dv]@[x] == key2;
                        assert(buckets@[dv]@[x] == key2);
                    }
                }
            }
        }
        k += 1;
    }
    let ghost final_buckets = buckets@;
    let mut out: Vec<(usize, u16)> = Vec::new();
    let mut d: usize = n + 1;
    while d > 0
        invariant
            d <= n + 1,
            n == plaintexts@.len(),
            buckets@ == final_buckets,
            buckets@.len() == n + 1,
            buckets_ok(buckets@, plaintexts@, ciphertexts@, pt_locs@, u4_locs@, mask, 0x10000),
            buckets_complete(
                buckets@,
                plaintexts@,
                ciphertexts@,
                pt_locs@,
                u4_locs@,
                mask,
                0x10000,
            ),
            ranking_sorted(out@),
            forall|i: int| #![trigger out@[i]]
                0 <= i < out@.len() ==> in_subspace(out@[i].1, mask) && out@[i].0
                    == candidate_deviation(
                    plaintexts@,
                    ciphertexts@,
                    pt_locs@,
                    u4_locs@,
                    out@[i].1,
                ) && out@[i].0 >= d,
            forall|key: u16|
                #[trigger] in_subspace(key, mask) && candidate_deviation(
                    plaintexts@,
                    ciphertexts@,
                    pt_locs@,
                    u4_locs@,
                    key,
                ) >= d ==> exists|i: int| 0 <= i < out@.len() && (#[trigger] out@[i]).1 == key,
        decreases d,
    {
        d -= 1;
        let row_len = buckets[d].len();
        let mut j: usize = 0;
        while j < row_len
            invariant
                j <= row_len,
                d < n + 1,
                n == plaintexts@.len(),
                buckets@ == final_buckets,
                buckets@.len() == n + 1,
                row_len == buckets@[d as int]@.len(),
                buckets_ok(buckets@, plaintexts@, ciphertexts@, pt_locs@, u4_locs@, mask, 0x10000),
                buckets_complete(
                    buckets@,
                    plaintexts@,
                    ciphertexts@,
                    pt_locs@,
                    u4_locs@,
                    mask,
                    0x10000,
                ),
                ranking_sorted(out@),
                forall|i: int| #![trigger out@[i]]
                    0 <= i < out@.len() ==> in_subspace(out@[i].1, mask) && out@[i].0
                        == candidate_deviation(
                        plaintexts@,
                        ciphertexts@,
                        pt_locs@,
                        u4_locs@,
                        out@[i].1,
                    ) && (out@[i].0 > d || (out@[i].0 == d && exists|x: int|
                        0 <= x < j && buckets@[d as int]@[x] == out@[i].1)),
                forall|key: u16|
                    #[trigger] in_subspace(key, mask) && candidate_deviation(
                        plaintexts@,
                        ciphertexts@,
                        pt_locs@,
                        u4_locs@,
                        key,
                    ) > d ==> exists|i: int| 0 <= i < out@.len() && (#[trigger] out@[i]).1 == key,
                forall|x: int| #![trigger buckets@[d as int]@[x]]
                    0 <= x < j ==> exists|i: int|
                        0 <= i < out@.len() && (#[trigger] out@[i]).1 == buckets@[d as int]@[x],
            decreases row_len - j,
        {
            let key = buckets[d][j];
            let ghost old_out = out@;
            out.push((d, key));
            proof {
                assert forall|i1: int, i2: int| #![trigger out@[i1], out@[i2]]
                    0 <= i1 < i2 < out@.len() implies (out@[i1].0 > out@[i2].0 || (out@[i1].0
                    == out@[i2].0 && out@[i1].1 < out@[i2].1)) by {
                    if i2 < old_out.len() {
                        assert(out@[i1] == old_out[i1] && out@[i2] == old_out[i2]);
                    } else {
                        assert(out@[i2] == (d, key));
                        assert(out@[i1] == old_out[i1]);
                        if old_out[i1].0 == d {
                            let x = choose|x: int|
                                0 <= x < j && buckets@[d as int]@[x] == old_out[i1].1;
                            assert(buckets@[d as int]@[x] < buckets@[d as int]@[j as int]);
                        }
                    }
                }
                assert(out@[old_out.len() as int].1 == buckets@[d as int]@[j as int]);
                assert forall|key2: u16|
                    #[trigger] in_subspace(key2, mask) && candidate_deviation(
                        plaintexts@,
                        ciphertexts@,
                        pt_locs@,
                        u4_locs@,
                        key2,
                    ) > d implies exists|i: int|
                    0 <= i < out@.len() && (#[trigger] out@[i]).1 == key2 by {
                    let i = choose|i: int| 0 <= i < old_out.len() && (#[trigger] old_out[i]).1
                        == key2;
                    assert(out@[i].1 == key2);
                }
                assert forall|x: int| #![trigger buckets@[d as int]@[x]]
                    0 <= x < j + 1 implies exists|i: int|
                    0 <= i < out@.len() && (#[trigger] out@[i]).1 == buckets@[d as int]@[x] by {
                    if x < j {
                        let i = choose|i: int|
                            0 <= i < old_out.len() && (#[trigger] old_out[i]).1
                                == buckets@[d as int]@[x];
                        assert(out@[i].1 == buckets@[d as int]@[x]);
                    } else {
                        assert(out@[old_out.len() as int].1 == buckets@[d as int]@[x]);
                    }
                }
            }
            j += 1;
        }
        proof {
            assert forall|key: u16|
                #[trigger] in_subspace(key, mask) && candidate_deviation(
                    plaintexts@,
                    ciphertexts@,
                    pt_locs@,
                    u4_locs@,
                    key,
                ) >= d implies exists|i: int|
                0 <= i < out@.len() && (#[trigger] out@[i]).1 == key by {
                let dv = candidate_deviation(plaintexts@, ciphertexts@, pt_locs@, u4_locs@, key);
                if dv == d {
                    let x = choose|x: int|
                        0 <= x < buckets@[dv]@.len() && buckets@[dv]@[x] == key;
                    assert(exists|i: int|
                        0 <= i < out@.len() && (#[trigger] out@[i]).1 == buckets@[d as int]@[x]);
                }
            }
        }
    }
    proof {
        assert forall|key: u16| #[trigger] in_subspace(key, mask) implies exists|i: int|
            0 <= i < out@.len() && (#[trigger] out@[i]).1 == key by {
            lemma_deviation_in_range(
                last_round_keys(key),
                plaintexts@,
                ciphertexts@,
                pt_locs@,
                u4_locs@,
            );
        }
    }
    out
}

/// Rank every possible value of the final round subkey (the full 16-bit
/// space) by the scaled bias its last-round-only cipher shows on the given
/// corpus, descending; ties keep the enumeration order. Each entry pairs
/// the scaled bias |2c - n| with the candidate; the bias itself is the
/// entry divided by twice the corpus length.
pub fn brute_force_k5(
    plaintexts: &[Block],
    ciphertexts: &[Block],
    pt_locs: &[u8],
    u4_locs: &[u8],
) -> (r: Vec<(usize, u16)>)
    requires
        plaintexts@.len() == ciphertexts@.len(),
        plaintexts@.len() > 0,
        plaintexts@.len() <= usize::MAX / 2,
        valid_locs(pt_locs@),
        valid_locs(u4_locs@),
    ensures
        is_bias_ranking(r@, plaintexts@, ciphertexts@, pt_locs@, u4_locs@, 0xffffu16),
{
    ranked_candidates(plaintexts, ciphertexts, pt_locs, u4_locs, 0xffff)
}

/// The candidate-subspace mask that frees the named nibbles (0-based,
/// nibble 0 = least significant 4 bits) and pins every other nibble to
/// zero.
pub open spec fn nibble_mask(nibs: Seq<u8>) -> u16
    decreases nibs.len(),
{
    if nibs.len() == 0 {
        0u16
    } else {
        nibble_mask(nibs.drop_last()) | (0xfu16 << ((4 * nibs.last()) as u16))
    }
}

/// Rank only the candidates whose value is zero outside the named nibbles:
/// the substitution acts on each nibble independently and the final subkey
/// is mixed in right before the final inverse substitution, so only the
/// subkey nibbles aligned with the targeted intermediate-state bits can
/// influence the approximation. This collapses the search space while
/// ranking those nibbles exactly as the full search does.
pub fn brute_force_k5_nibbles(
    plaintexts: &[Block],
    ciphertexts: &[Block],
    pt_locs: &[u8],
    u4_locs: &[u8],
    nibbles: &[u8],
) -> (r: Vec<(usize, u16)>)
    requires
        plaintexts@.len() == ciphertexts@.len(),
        plaintexts@.len() > 0,
        plaintexts@.len() <= usize::MAX / 2,
        valid_locs(pt_locs@),
        valid_locs(u4_locs@),
        forall|i: int| 0 <= i < nibbles@.len() ==> #[trigger] nibbles@[i] < 4,
    ensures
        is_bias_ranking(r@, plaintexts@, ciphertexts@, pt_locs@, u4_locs@, nibble_mask(nibbles@)),
{
    let mut mask: u16 = 0;
    let mut i: usize = 0;
    while i < nibbles.len()
        invariant
            i <= nibbles@.len(),
            forall|x: int| 0 <= x < nibbles@.len() ==> #[trigger] nibbles@[x] < 4,
            mask == nibble_mask(nibbles@.take(i as int)),
        decreases nibbles@.len() - i,
    {
        let shift: u16 = 4 * (nibbles[i] as u16);
        proof {
            assert(nibbles@.take(i as int + 1).drop_last() =~= nibbles@.take(i as int));
        }
        mask = mask | (0xfu16 << shift);
        i += 1;
    }
    proof {
        assert(nibbles@.take(nibbles@.len() as int) =~= nibbles@);
    }
    ranked_candidates(plaintexts, ciphertexts, pt_locs, u4_locs, mask)
}

proof fn lemma_ranking_prefix_eq(
    a: Seq<(usize, u16)>,
    b: Seq<(usize, u16)>,
    pts: Seq<Block>,
    cts: Seq<Block>,
    pt_locs: Seq<u8>,
    u4_locs: Seq<u8>,
    mask: u16,
    i: int,
)
    requires
        is_bias_ranking(a, pts, cts, pt_locs, u4_locs, mask),
        is_bias_ranking(b, pts, cts, pt_locs, u4_locs, mask),
        0 <= i <= a.len(),
        i <= b.len(),
    ensures
        forall|x: int| 0 <= x < i ==> a[x] == b[x],
    decreases i,
{
    if i > 0 {
        lemma_ranking_prefix_eq(a, b, pts, cts, pt_locs, u4_locs, mask, i - 1);
        let ea = a[i - 1];
        let eb = b[i - 1];
        assert(in_subspace(ea.1, mask));
        assert(in_subspace(eb.1, mask));
        let j = choose|j: int| 0 <= j < b.len() && (#[trigger] b[j]).1 == ea.1;
        let j2 = choose|j: int| 0 <= j < a.len() && (#[trigger] a[j]).1 == eb.1;
        assert(b[j].0 == candidate_deviation(pts, cts, pt_locs, u4_locs, ea.1));
        assert(ea.0 == candidate_deviation(pts, cts, pt_locs, u4_locs, ea.1));
        assert(a[j2].0 == candidate_deviation(pts, cts, pt_locs, u4_locs, eb.1));
        assert(eb.0 == candidate_deviation(pts, cts, pt_locs, u4_locs, eb.1));
        if j < i - 1 {
            // then the key of `ea` would appear twice in `a`, against the
            // strict order
            assert(a[j] == b[j]);
            assert(a[j].0 == candidate_deviation(pts, cts, pt_locs, u4_locs, a[j].1));
            assert(false);
        }
        if j2 < i - 1 {
            assert(a[j2] == b[j2]);
            assert(b[j2].0 == candidate_deviation(pts, cts, pt_locs, u4_locs, b[j2].1));
            assert(false);
        }
        if ea.1 != eb.1 {
            // each ranking would place the other's entry strictly later, so
            // each entry would rank strictly before the other
            assert(j != i - 1 && j2 != i - 1);
            assert(b[i - 1].0 > b[j].0 || (b[i - 1].0 == b[j].0 && b[i - 1].1 < b[j].1));
            assert(a[i - 1].0 > a[j2].0 || (a[i - 1].0 == a[j2].0 && a[i - 1].1 < a[j2].1));
            assert(false);
        }
        assert(ea.0 == eb.0);
        assert(a[i - 1] =~= b[i - 1]);
    }
}

/// Law: a bias ranking is canonical. Any two sequences that both rank the
/// same subspace of candidates over the same corpus are equal, entry for
/// entry.
pub proof fn lemma_ranking_unique(
    a: Seq<(usize, u16)>,
    b: Seq<(usize, u16)>,
    pts: Seq<Block>,
    cts: Seq<Block>,
    pt_locs: Seq<u8>,
    u4_locs: Seq<u8>,
    mask: u16,
)
    requires
        is_bias_ranking(a, pts, cts, pt_locs, u4_locs, mask),
        is_bias_ranking(b, pts, cts, pt_locs, u4_locs, mask),
    ensures
        a == b,
{
    let m = if a.len() <= b.len() {
        a.len() as int
    } else {
        b.len() as int
    };
    lemma_ranking_prefix_eq(a, b, pts, cts, pt_locs, u4_locs, mask, m);
    if a.len() < b.len() {
        // the key of the first surplus entry of `b` would appear twice in `b`
        let e = b[a.len() as int];
        assert(in_subspace(e.1, mask));
        let x = choose|x: int| 0 <= x < a.len() && (#[trigger] a[x]).1 == e.1;
        assert(b[x].0 > e.0 || (b[x].0 == e.0 && b[x].1 < e.1));
        assert(b[x].0 == candidate_deviation(pts, cts, pt_locs, u4_locs, b[x].1));
        assert(e.0 == candidate_deviation(pts, cts, pt_locs, u4_locs, e.1));
        assert(false);
    }
    if b.len() < a.len() {
        let e = a[b.len() as int];
        assert(in_subspace(e.1, mask));
        let x = choose|x: int| 0 <= x < b.len() && (#[trigger] b[x]).1 == e.1;
        assert(a[x].0 > e.0 || (a[x].0 == e.0 && a[x].1 < e.1));
        assert(a[x].0 == candidate_deviation(pts, cts, pt_locs, u4_locs, a[x].1));
        assert(e.0 == candidate_deviation(pts, cts, pt_locs, u4_locs, e.1));
        assert(false);
    }
    assert(a =~= b);
}

/// Law: restricted-search equivalence. Any two candidates that a
/// nibble-restricted ranking orders appear in the same relative order in
/// the ranking of the full search: the full search ranks every candidate,
/// among them those with zeros outside the restricted nibbles, and both
/// rankings order by the same scaled bias with the same tie-break.
pub proof fn lemma_restricted_order_matches_full(
    full: Seq<(usize, u16)>,
    sub: Seq<(usize, u16)>,
    pts: Seq<Block>,
    cts: Seq<Block>,
    pt_locs: Seq<u8>,
    u4_locs: Seq<u8>,
    mask: u16,
    i1: int,
    i2: int,
)
    requires
        is_bias_ranking(full, pts, cts, pt_locs, u4_locs, 0xffffu16),
        is_bias_ranking(sub, pts, cts, pt_locs, u4_locs, mask),
        0 <= i1 < i2 < sub.len(),
    ensures
        exists|j1: int, j2: int|
            0 <= j1 < j2 < full.len() && (#[trigger] full[j1]).1 == sub[i1].1 && (
            #[trigger] full[j2]).1 == sub[i2].1,
{
    lemma_full_subspace();
    let k1 = sub[i1].1;
    let k2 = sub[i2].1;
    assert(in_subspace(k1, 0xffffu16));
    assert(in_subspace(k2, 0xffffu16));
    let j1 = choose|j: int| 0 <= j < full.len() && (#[trigger] full[j]).1 == k1;
    let j2 = choose|j: int| 0 <= j < full.len() && (#[trigger] full[j]).1 == k2;
    assert(full[j1].0 == candidate_deviation(pts, cts, pt_locs, u4_locs, k1));
    assert(full[j2].0 == candidate_deviation(pts, cts, pt_locs, u4_locs, k2));
    assert(sub[i1].0 == candidate_deviation(pts, cts, pt_locs, u4_locs, k1));
    assert(sub[i2].0 == candidate_deviation(pts, cts, pt_locs, u4_locs, k2));
    if j1 == j2 {
        assert(k1 == k2);
        assert(sub[i1].0 == sub[i2].0);
        assert(false);
    }
    if j2 < j1 {
        assert(full[j2].0 > full[j1].0 || (full[j2].0 == full[j1].0 && full[j2].1 < full[j1].1));
        assert(false);
    }
    assert(0 <= j1 < j2 < full.len() && full[j1].1 == sub[i1].1 && full[j2].1 == sub[i2].1);
}

} // verus!

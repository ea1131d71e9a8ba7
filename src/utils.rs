//! Word and bit utilities: sign extension, wrapping addition and byte order.
use vstd::arithmetic::power2::{lemma2_to64, lemma_pow2_strictly_increases, pow2};
use vstd::bits::lemma_u32_shl_is_mul;
use vstd::prelude::*;

verus! {

/// The low `n` bits of `x` (for `1 <= n <= 16`), that is `x & ((1 << n) - 1)`.
pub open spec fn low_bits(x: u16, n: u16) -> u16 {
    x & (0xFFFFu16 >> ((16 - n) as u16))
}

/// The value of `y < 2^n` read as an `n`-bit two's-complement integer.
pub open spec fn twos_complement(y: u16, n: nat) -> int {
    if y >= pow2((n - 1) as nat) {
        y - pow2(n)
    } else {
        y as int
    }
}

/// The value of a word read as a signed 16-bit integer.
pub open spec fn signed(w: u16) -> int {
    if w >= 0x8000 {
        w - 0x10000
    } else {
        w as int
    }
}

/// `x` widened from `bit_count` bits: every bit at position `bit_count - 1` and above
/// takes the value of bit `bit_count - 1`.
pub open spec fn sign_extend_spec(x: u16, bit_count: u16) -> u16
    recommends
        1 <= bit_count <= 16,
{
    if (x >> ((bit_count - 1) as u16)) & 1 != 0 {
        x | (0xFFFFu16 << ((bit_count - 1) as u16))
    } else {
        x & !(0xFFFFu16 << ((bit_count - 1) as u16))
    }
}

/// Treats `x` as a `bit_count`-wide two's-complement value and widens it to a word.
pub fn sign_extend(x: u16, bit_count: u8) -> (r: u16)
    requires
        1 <= bit_count <= 16,
    ensures
        r == sign_extend_spec(x, bit_count as u16),
{
    let shift: u16 = (bit_count - 1) as u16;
    if ((x >> shift) & 1) != 0 {
        x | (0xFFFFu16 << shift)
    } else {
        x & !(0xFFFFu16 << shift)
    }
}

/// Addition modulo 2^16.
pub open spec fn wrapping_add_spec(a: u16, b: u16) -> u16 {
    ((a + b) % 0x10000) as u16
}

/// Adds two words modulo 2^16.
pub fn wrapping_add(a: u16, b: u16) -> (r: u16)
    ensures
        r == wrapping_add_spec(a, b),
        r == ((crate::utils::add(a as u32, b as u32) & 0xFFFFu32) as u16),
{
    let r = a.wrapping_add(b);
    assert((crate::utils::add(a as u32, b as u32) & 0xFFFFu32) as u16 == ((a + b) % 0x10000) as u16)
        by (bit_vector);
    r
}

/// The word with its two bytes swapped.
pub open spec fn swap_bytes_spec(w: u16) -> u16 {
    ((w % 0x100) * 0x100 + w / 0x100) as u16
}

/// Swaps the high and low byte of a word.
pub fn reverse_endianness(bytes: u16) -> (r: u16)
    ensures
        r == swap_bytes_spec(bytes),
{
    let r = (bytes >> 8) | (bytes << 8);
    assert((bytes >> 8) | (bytes << 8) == ((bytes % 0x100) * 0x100 + bytes / 0x100) as u16)
        by (bit_vector);
    r
}

proof fn lemma_sign_extend_bits(x: u16, n: u16)
    by (bit_vector)
    requires
        1 <= n <= 16,
    ensures
        (low_bits(x, n) as u32) < (1u32 << n),
        ((low_bits(x, n) >> ((n - 1) as u16)) & 1 != 0) <==> (low_bits(x, n) as u32) >= (1u32 << (
        (n - 1) as u32)),
        ((low_bits(x, n) >> ((n - 1) as u16)) & 1 != 0) ==> (sign_extend_spec(low_bits(x, n), n)
            as u32) + (1u32 << n) == (low_bits(x, n) as u32) + 0x10000u32,
        ((low_bits(x, n) >> ((n - 1) as u16)) & 1 == 0) ==> sign_extend_spec(low_bits(x, n), n)
            == low_bits(x, n),
{
}

/// Sign extension is faithful: for `1 <= n <= 16`, the word that `sign_extend` makes of
/// the low `n` bits of `w`, read as a signed 16-bit integer, is the value of those `n`
/// bits read as an `n`-bit two's-complement integer.
pub proof fn lemma_sign_extend_twos_complement(w: u16, n: u16)
    requires
        1 <= n <= 16,
    ensures
        signed(sign_extend_spec(low_bits(w, n), n)) == twos_complement(low_bits(w, n), n as nat),
{
    lemma_sign_extend_bits(w, n);
    lemma2_to64();
    if n < 16 {
        lemma_pow2_strictly_increases(n as nat, 16);
    }
    if n > 1 {
        lemma_pow2_strictly_increases((n - 1) as nat, 16);
    }
    lemma_u32_shl_is_mul(1, n as u32);
    lemma_u32_shl_is_mul(1, (n - 1) as u32);
}

} // verus!

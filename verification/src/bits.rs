//! Powers of two, prefix masks and bit counts on 128-bit integers.

use vstd::arithmetic::power2::{lemma_pow2_pos, lemma_pow2_strictly_increases, lemma_pow2_unfold, pow2};
use vstd::prelude::*;

verus! {

/// `1 << h` on 128 bits is the `h`-th power of two.
pub proof fn lemma_shl_is_pow2(h: u32)
    requires
        h < 128,
    ensures
        (1u128 << h) == pow2(h as nat),
    decreases h,
{
    if h == 0 {
        assert(1u128 << 0u32 == 1) by (bit_vector);
        lemma_pow2_unfold(1);
        assert(pow2(0) == 1) by {
            vstd::arithmetic::power2::lemma2_to64();
        }
    } else {
        let g: u32 = (h - 1) as u32;
        lemma_shl_is_pow2(g);
        assert((1u128 << h) == 2 * (1u128 << g)) by (bit_vector)
            requires
                0 < h < 128,
                g == h - 1,
        ;
        lemma_pow2_unfold(h as nat);
    }
}

/// Powers of two grow with the exponent.
pub proof fn lemma_pow2_monotonic(a: nat, b: nat)
    requires
        a <= b,
    ensures
        pow2(a) <= pow2(b),
        pow2(a) > 0,
{
    lemma_pow2_pos(a);
    if a < b {
        lemma_pow2_strictly_increases(a, b);
    }
}

/// Every power of two below the 128th fits in a `u128`; the 128th is one more
/// than `u128::MAX`.
pub proof fn lemma_pow2_bounds(h: nat)
    ensures
        h < 128 ==> pow2(h) <= u128::MAX,
        h == 128 ==> pow2(h) == u128::MAX + 1,
        h == 32 ==> pow2(h) == 0x1_0000_0000,
{
    if h < 128 {
        lemma_shl_is_pow2(h as u32);
    }
    if h == 128 {
        lemma_shl_is_pow2(127);
        assert(1u128 << 127u32 == 0x8000_0000_0000_0000_0000_0000_0000_0000u128) by (bit_vector);
        lemma_pow2_unfold(128);
    }
    if h == 32 {
        lemma_shl_is_pow2(32);
        assert(1u128 << 32u32 == 0x1_0000_0000u128) by (bit_vector);
    }
}

/// The low `h` bits of `x` are its remainder modulo the `h`-th power of two.
pub proof fn lemma_low_bits_is_mod(x: u128, h: u32)
    requires
        h < 128,
    ensures
        (x & (((1u128 << h) - 1) as u128)) == (x as int) % (pow2(h as nat) as int),
    decreases h,
{
    lemma_shl_is_pow2(h);
    lemma_pow2_pos(h as nat);
    if h == 0 {
        assert(x & (((1u128 << 0u32) - 1) as u128) == 0) by (bit_vector);
        assert(pow2(0) == 1) by {
            vstd::arithmetic::power2::lemma2_to64();
        }
    } else {
        let g: u32 = (h - 1) as u32;
        lemma_low_bits_is_mod(x, g);
        lemma_shl_is_pow2(g);
        lemma_pow2_pos(g as nat);
        let bit: u128 = (x >> g) & 1;
        assert((x & (((1u128 << h) - 1) as u128)) == (x & (((1u128 << g) - 1) as u128)) + (if (x
            >> g) & 1 == 1 {
            1u128 << g
        } else {
            0u128
        })) by (bit_vector)
            requires
                0 < h < 128,
                g == h - 1,
        ;
        assert(bit == (x >> g) % 2) by (bit_vector)
            requires
                bit == (x >> g) & 1,
        ;
        vstd::bits::lemma_u128_shr_is_div(x, g as u128);
        let p: int = pow2(g as nat) as int;
        assert((x >> g) == (x as int) / p);
        assert(bit == ((x as int) / p) % 2);
        vstd::arithmetic::div_mod::lemma_mod_breakdown(x as int, p, 2);
        lemma_pow2_unfold(h as nat);
        assert(pow2(h as nat) == p * 2) by (nonlinear_arith)
            requires
                pow2(h as nat) == 2 * pow2(g as nat),
                p == pow2(g as nat),
        ;
        assert(p * (((x as int) / p) % 2) == if bit == 1 {
            p
        } else {
            0
        }) by (nonlinear_arith)
            requires
                bit == ((x as int) / p) % 2,
                bit == 0 || bit == 1,
        ;
        assert((x as int) % (p * 2) == p * (((x as int) / p) % 2) + (x as int) % p);
    }
}

/// The prefix mask as a number: the top `prefix`
/// bits of a `bits`-wide field set, the low `bits - prefix` bits clear.
/// A zero prefix gives zero; a prefix of the full width or more gives all
/// 128 bits set.
pub open spec fn mask_spec(bits: u8, prefix: u8) -> int {
    if prefix == 0 {
        0
    } else if prefix >= bits {
        u128::MAX as int
    } else {
        pow2(bits as nat) - pow2((bits - prefix) as nat)
    }
}

/// Builds the prefix mask for a field of `bits` bits.
pub fn mask_u128(bits: u8, prefix: u8) -> (m: u128)
    requires
        bits <= 128,
    ensures
        m == mask_spec(bits, prefix),
{
    if prefix == 0 {
        return 0;
    }
    if prefix >= bits {
        assert(!0u128 == 0xffff_ffff_ffff_ffff_ffff_ffff_ffff_ffffu128) by (bit_vector);
        return !0u128;
    }
    let low: u8 = bits - prefix;
    proof {
        lemma_shl_is_pow2(low as u32);
        lemma_pow2_bounds(bits as nat);
        lemma_pow2_monotonic(low as nat, bits as nat);
    }
    let low_bits: u128 = (1u128 << low) - 1;
    if bits == 128 {
        assert(!0u128 & !low_bits == 0xffff_ffff_ffff_ffff_ffff_ffff_ffff_ffffu128 - low_bits)
            by (bit_vector);
        !0u128 & !low_bits
    } else {
        proof {
            lemma_shl_is_pow2(bits as u32);
        }
        let all: u128 = (1u128 << bits) - 1;
        assert(all & !low_bits == all - low_bits) by (bit_vector)
            requires
                low < bits < 128,
                all == (1u128 << bits) - 1,
                low_bits == (1u128 << low) - 1,
        ;
        all & !low_bits
    }
}

/// `r` is the number of trailing zero bits of `i`: 128 for zero, else the
/// exponent of the largest power of two that divides `i`.
pub open spec fn is_trailing_zeros(i: u128, r: nat) -> bool {
    if i == 0 {
        r == 128
    } else {
        r < 128 && i as int % pow2(r) as int == 0 && (i as int / pow2(r) as int) % 2 == 1
    }
}

/// `r` is the number of leading zero bits of `i` on 128 bits: 128 for zero,
/// else the highest set bit is bit `127 - r`.
pub open spec fn is_leading_zeros(i: u128, r: nat) -> bool {
    if i == 0 {
        r == 128
    } else {
        r < 128 && pow2((127 - r) as nat) <= i < pow2((128 - r) as nat)
    }
}

/// `u128::trailing_zeros` of the standard library, which is documented to
/// return the number of trailing zeros in the binary representation of its
/// argument. Not proved here.
pub assume_specification[ u128::trailing_zeros ](i: u128) -> (r: u32)
    ensures
        is_trailing_zeros(i, r as nat),
;

/// `u128::leading_zeros` of the standard library, which is documented to
/// return the number of leading zeros in the binary representation of its
/// argument. Not proved here.
pub assume_specification[ u128::leading_zeros ](i: u128) -> (r: u32)
    ensures
        is_leading_zeros(i, r as nat),
;

/// `r` is the integer part of the base-two logarithm of `x`.
pub open spec fn is_floor_log2(x: u128, r: nat) -> bool {
    pow2(r) <= x < pow2(r + 1)
}

/// Integer part of the base-two logarithm of `x`; zero for `x == 0`.
pub fn floor_log2_u128(x: u128) -> (r: u8)
    ensures
        r <= 127,
        x >= 1 ==> is_floor_log2(x, r as nat),
        x == 0 ==> r == 0,
{
    let lz: u32 = x.leading_zeros();
    if lz >= 128 {
        0
    } else {
        let lz8: u8 = lz as u8;
        127u8 - lz8
    }
}

} // verus!

//! IEEE 754 binary64 narrowed to binary32 (the element type of
//! Float32Array), on the bit patterns: a finite number rounds to nearest,
//! ties to even, overflowing to an infinity.
use crate::half::{f64_exp, f64_frac, f64_scaled, f64_sign, lemma_round_bits, lemma_round_scale, round_half_even};
use crate::number_compare::{f32_exp, f32_frac};
use vstd::arithmetic::div_mod::{lemma_fundamental_div_mod, lemma_fundamental_div_mod_converse, lemma_mod_pos_bound};
use vstd::arithmetic::power2::{
    lemma2_to64, lemma2_to64_rest, lemma_pow2_adds, lemma_pow2_pos, lemma_pow2_strictly_increases,
    lemma_pow2_unfold, pow2,
};
use vstd::bits::{lemma_u64_low_bits_mask_is_mod, lemma_u64_pow2_no_overflow, lemma_u64_shl_is_mul, lemma_u64_shr_is_div};
use vstd::prelude::*;

verus! {

/// The binary32 magnitude bits (sign left out) that a finite binary64
/// pattern rounds to. In the binade of 2^(e-1023) binary32 numbers lie
/// 2^(e-1046) apart (2^(e+28) once scaled by 2^1074); subnormal ones lie
/// 2^-149 apart. Rounding up out of a binade carries into the exponent,
/// and past the largest finite number into infinity.
pub open spec fn f32_rounded_magnitude(b: u64) -> nat {
    let e = f64_exp(b);
    let x = f64_scaled(b);
    if e >= 1151 {
        0x7F80_0000
    } else if e >= 897 {
        ((e - 897) * 0x80_0000 + round_half_even(x, pow2((e + 28) as nat))) as nat
    } else {
        round_half_even(x, pow2(925))
    }
}

/// The binary32 pattern `f64_to_f32_bits` gives: for a NaN the quiet NaN
/// of its sign keeping the top 22 bits of the payload.
pub open spec fn spec_f32_bits(b: u64) -> nat {
    if f64_exp(b) == 2047 && f64_frac(b) != 0 {
        f64_sign(b) * 0x8000_0000 + 0x7FC0_0000 + (f64_frac(b) / 0x2000_0000) % 0x40_0000
    } else if f64_exp(b) == 2047 {
        f64_sign(b) * 0x8000_0000 + 0x7F80_0000
    } else {
        f64_sign(b) * 0x8000_0000 + f32_rounded_magnitude(b)
    }
}

/// A binary64 pattern narrowed to binary32: an infinity to the infinity of
/// its sign, a NaN to a NaN of its sign, a finite number to the binary32
/// number it rounds to (nearest, ties to even).
pub fn f64_to_f32_bits(bits: u64) -> (r: u32)
    ensures
        r == spec_f32_bits(bits),
        f64_exp(bits) == 2047 && f64_frac(bits) != 0 ==> r / 0x8000_0000 == f64_sign(bits) && f32_exp(r as nat)
            == 255 && f32_frac(r as nat) != 0,
        f64_exp(bits) == 2047 && f64_frac(bits) == 0 ==> r == f64_sign(bits) * 0x8000_0000 + 0x7F80_0000,
        f64_exp(bits) < 2047 ==> r == f64_sign(bits) * 0x8000_0000 + f32_rounded_magnitude(bits),
{
    proof {
        lemma2_to64();
        lemma2_to64_rest();
    }
    let sign: u32 = (bits / 0x8000_0000_0000_0000) as u32;
    let exp: u64 = (bits / 0x10_0000_0000_0000) % 2048;
    let frac: u64 = bits % 0x10_0000_0000_0000;
    assert(sign <= 1);
    if exp == 0x7FF && frac != 0 {
        let payload: u32 = (frac / 0x2000_0000) as u32;
        return sign * 0x8000_0000 + 0x7FC0_0000 + payload % 0x40_0000;
    }
    if exp == 0x7FF {
        return sign * 0x8000_0000 + 0x7F80_0000;
    }
    // Past the largest binade of binary32.
    if exp > 1150 {
        return sign * 0x8000_0000 + 0x7F80_0000;
    }
    let ghost m: nat = (0x10_0000_0000_0000 + frac) as nat;
    if exp >= 897 {
        // A normal binary32 number: 23 of the 52 fraction bits stay.
        let e32: u32 = (exp - 896) as u32;
        let f32f: u32 = (frac >> 29) as u32;
        let round_bit: u64 = (frac >> 28) & 1;
        let sticky: u64 = frac & 0xFFF_FFFF;
        proof {
            assert(f32f == frac / 0x2000_0000 && f32f < 0x80_0000) by (bit_vector)
                requires
                    f32f == (frac >> 29) as u32,
                    frac < 0x10_0000_0000_0000,
            ;
            assert((round_bit != 0 && sticky != 0) == (2 * (frac % 0x2000_0000) > 0x2000_0000)) by (bit_vector)
                requires
                    round_bit == (frac >> 28) & 1,
                    sticky == frac & 0xFFF_FFFF,
            ;
            assert((round_bit != 0 && sticky == 0) == (2 * (frac % 0x2000_0000) == 0x2000_0000)) by (bit_vector)
                requires
                    round_bit == (frac >> 28) & 1,
                    sticky == frac & 0xFFF_FFFF,
            ;
            assert((f32f & 1 != 0) == (f32f % 2 == 1)) by (bit_vector);
            let q = 0x80_0000 + frac / 0x2000_0000;
            let rm = frac % 0x2000_0000;
            lemma_fundamental_div_mod_converse(m as int, 0x2000_0000, q as int, rm as int);
            lemma_pow2_adds((exp - 1) as nat, 29);
            lemma_pow2_pos((exp - 1) as nat);
            lemma_round_scale(m, pow2(29), pow2((exp - 1) as nat));
            assert(m * pow2((exp - 1) as nat) == f64_scaled(bits));
            assert(pow2(29) * pow2((exp - 1) as nat) == pow2((exp + 28) as nat)) by (nonlinear_arith)
                requires
                    pow2(((exp - 1) + 29) as nat) == pow2((exp - 1) as nat) * pow2(29),
                    (exp - 1) + 29 == exp + 28,
            ;
            assert(round_half_even(m, pow2(29)) == q + (if round_bit != 0 && (sticky != 0 || f32f & 1 != 0) {
                1nat
            } else {
                0nat
            }));
        }
        let mut result: u32 = sign * 0x8000_0000 + e32 * 0x80_0000 + f32f;
        if round_bit != 0 && (sticky != 0 || (f32f & 1) != 0) {
            result = result + 1;
        }
        return result;
    }
    // A subnormal binary32 number, or zero.
    let shift: u64 = 897 - exp;
    if shift > 24 {
        proof {
            // The magnitude is below 2^-150, half the smallest subnormal.
            let x = f64_scaled(bits);
            if exp == 0 {
                assert(x < pow2(52));
                lemma_pow2_strictly_increases(52, 924);
            } else {
                lemma_pow2_adds(53, (exp - 1) as nat);
                assert(m < pow2(53));
                assert(x <= m * pow2((exp - 1) as nat));
                lemma_pow2_pos((exp - 1) as nat);
                assert(m * pow2((exp - 1) as nat) < pow2(53) * pow2((exp - 1) as nat)) by (nonlinear_arith)
                    requires
                        m < pow2(53),
                        pow2((exp - 1) as nat) > 0,
                ;
                assert(53 + (exp - 1) <= 924);
                if 53 + (exp - 1) < 924 {
                    lemma_pow2_strictly_increases((53 + (exp - 1)) as nat, 924);
                }
            }
            lemma_pow2_unfold(925);
            lemma_fundamental_div_mod_converse(x as int, pow2(925) as int, 0, x as int);
        }
        return sign * 0x8000_0000;
    }
    let full_sig: u64 = 0x10_0000_0000_0000 + frac;
    let total_shift: u64 = 29 + shift;
    proof {
        let x = f64_scaled(bits);
        lemma_pow2_adds((exp - 1) as nat, total_shift as nat);
        lemma_pow2_pos((exp - 1) as nat);
        lemma_pow2_pos(total_shift as nat);
        lemma_round_scale(m, pow2(total_shift as nat), pow2((exp - 1) as nat));
        assert(pow2(total_shift as nat) * pow2((exp - 1) as nat) == pow2(925)) by (nonlinear_arith)
            requires
                pow2(((exp - 1) + total_shift) as nat) == pow2((exp - 1) as nat) * pow2(total_shift as nat),
                (exp - 1) + total_shift == 925,
        ;
        assert(x == m * pow2((exp - 1) as nat));
    }
    let f32f: u32 = if total_shift >= 53 {
        0
    } else {
        proof {
            lemma_u64_shr_is_div(full_sig, total_shift);
        }
        ((full_sig >> total_shift) as u32) & 0x7F_FFFF
    };
    let round_bit: u64 = if total_shift >= 54 {
        0
    } else {
        proof {
            lemma_u64_shr_is_div(full_sig, (total_shift - 1) as u64);
        }
        (full_sig >> (total_shift - 1)) & 1
    };
    let sticky: u64 = if total_shift >= 54 {
        0
    } else {
        proof {
            lemma_u64_pow2_no_overflow((total_shift - 1) as nat);
            lemma_u64_shl_is_mul(1, (total_shift - 1) as u64);
            lemma_u64_low_bits_mask_is_mod(full_sig, (total_shift - 1) as nat);
        }
        full_sig & ((1u64 << (total_shift - 1)) - 1)
    };
    proof {
        let t = total_shift as nat;
        let d = pow2(t);
        let q = m / d;
        lemma_pow2_pos(t);
        if total_shift >= 53 {
            if t > 53 {
                lemma_pow2_strictly_increases(53, t);
            }
            lemma_fundamental_div_mod_converse(m as int, d as int, 0, m as int);
            lemma_round_bits(m, t);
            lemma_pow2_strictly_increases(52, 53);
            if total_shift >= 54 {
                assert(m < pow2((t - 1) as nat)) by {
                    if t - 1 > 53 {
                        lemma_pow2_strictly_increases(53, (t - 1) as nat);
                    }
                }
                lemma_fundamental_div_mod_converse(m as int, pow2((t - 1) as nat) as int, 0, m as int);
            } else {
                lemma_fundamental_div_mod_converse(m as int, pow2(52) as int, 1, frac as int);
                assert((full_sig >> 52) & 1 == 1) by (bit_vector)
                    requires
                        0x10_0000_0000_0000 <= full_sig < 0x20_0000_0000_0000,
                ;
            }
        } else {
            lemma_round_bits(m, t);
            assert(q < 0x80_0000) by {
                lemma_pow2_adds(23, t);
                if 23 + t > 53 {
                    lemma_pow2_strictly_increases(53, 23 + t);
                }
                lemma_fundamental_div_mod(m as int, d as int);
                lemma_mod_pos_bound(m as int, d as int);
                assert(m < pow2(23) * d);
                assert(q * d <= m) by (nonlinear_arith)
                    requires
                        m == d * q + m % d,
                        m % d >= 0,
                ;
                assert(q < pow2(23)) by (nonlinear_arith)
                    requires
                        q * d <= m,
                        m < pow2(23) * d,
                        d > 0,
                ;
            }
            let v: u64 = full_sig >> total_shift;
            assert(((v as u32) & 0x7F_FFFF) == v && v % 2 == ((v as u32) & 1) as nat) by (bit_vector)
                requires
                    v < 0x80_0000,
            ;
            let w: u64 = full_sig >> (total_shift - 1);
            assert((w & 1) == w % 2) by (bit_vector);
        }
        assert((f32f & 1 != 0) == (f32f % 2 == 1)) by (bit_vector);
    }
    let mut result: u32 = sign * 0x8000_0000 + f32f;
    if round_bit != 0 && (sticky != 0 || (f32f & 1) != 0) {
        result = result + 1;
    }
    result
}

} // verus!

//! IEEE 754 binary16 ("half", the element type of Float16Array and of
//! DataView's getFloat16/setFloat16) converted to and from binary64, on the
//! bit patterns: widening is exact, narrowing rounds to nearest, ties to
//! even. The floating-point values themselves stay with the caller.
use vstd::arithmetic::div_mod::{
    lemma_fundamental_div_mod, lemma_fundamental_div_mod_converse, lemma_mod_breakdown, lemma_mod_pos_bound,
};
use vstd::arithmetic::power2::{
    lemma2_to64, lemma2_to64_rest, lemma_pow2_adds, lemma_pow2_pos, lemma_pow2_strictly_increases,
    lemma_pow2_unfold, pow2,
};
use vstd::bits::{lemma_u64_low_bits_mask_is_mod, lemma_u64_pow2_no_overflow, lemma_u64_shl_is_mul, lemma_u64_shr_is_div, low_bits_mask};
use vstd::prelude::*;

verus! {

/// The sign bit of a binary64 pattern.
pub open spec fn f64_sign(b: u64) -> nat {
    b as nat / 0x8000_0000_0000_0000
}

/// The biased exponent field of a binary64 pattern.
pub open spec fn f64_exp(b: u64) -> nat {
    (b as nat / 0x10_0000_0000_0000) % 2048
}

/// The fraction field of a binary64 pattern.
pub open spec fn f64_frac(b: u64) -> nat {
    b as nat % 0x10_0000_0000_0000
}

/// The magnitude of a finite binary64 pattern, times 2^1074 (a whole
/// number: the smallest subnormal is 2^-1074).
pub open spec fn f64_scaled(b: u64) -> nat {
    if f64_exp(b) == 0 {
        f64_frac(b)
    } else {
        (0x10_0000_0000_0000 + f64_frac(b)) * pow2((f64_exp(b) - 1) as nat)
    }
}

/// The sign bit of a binary16 pattern.
pub open spec fn f16_sign(h: u16) -> nat {
    h as nat / 0x8000
}

/// The biased exponent field of a binary16 pattern.
pub open spec fn f16_exp(h: u16) -> nat {
    (h as nat / 1024) % 32
}

/// The fraction field of a binary16 pattern.
pub open spec fn f16_frac(h: u16) -> nat {
    h as nat % 1024
}

/// The magnitude of a finite binary16 pattern, times 2^1074.
pub open spec fn f16_scaled(h: u16) -> nat {
    if f16_exp(h) == 0 {
        f16_frac(h) * pow2(1050)
    } else {
        (1024 + f16_frac(h)) * pow2((f16_exp(h) + 1049) as nat)
    }
}

pub(crate) proof fn lemma_f64_fields(s: nat, e: nat, f: nat)
    requires
        s <= 1,
        e < 2048,
        f < 0x10_0000_0000_0000,
    ensures
        ({
            let b = s * 0x8000_0000_0000_0000 + e * 0x10_0000_0000_0000 + f;
            &&& b <= u64::MAX
            &&& f64_sign(b as u64) == s
            &&& f64_exp(b as u64) == e
            &&& f64_frac(b as u64) == f
        }),
{
    let b = s * 0x8000_0000_0000_0000 + e * 0x10_0000_0000_0000 + f;
    let q = s * 2048 + e;
    assert(b == q * 0x10_0000_0000_0000 + f);
    lemma_fundamental_div_mod_converse(b as int, 0x10_0000_0000_0000, q as int, f as int);
    lemma_fundamental_div_mod_converse(q as int, 2048, s as int, e as int);
    lemma_fundamental_div_mod_converse(
        b as int,
        0x8000_0000_0000_0000,
        s as int,
        (e * 0x10_0000_0000_0000 + f) as int,
    );
}

/// `f16_to_f64` on bit patterns: the binary64 pattern of the same number.
/// Infinities stay infinities, and a NaN keeps its sign and payload.
pub fn f16_to_f64_bits(h: u16) -> (b: u64)
    ensures
        f64_sign(b) == f16_sign(h),
        f16_exp(h) == 31 ==> f64_exp(b) == 2047 && f64_frac(b) == f16_frac(h) * 0x400_0000_0000,
        f16_exp(h) < 31 ==> f64_exp(b) < 2047 && f64_scaled(b) == f16_scaled(h),
{
    let sign: u64 = (h / 0x8000) as u64;
    let exp: u64 = ((h / 1024) % 32) as u64;
    let frac: u64 = (h % 1024) as u64;
    assert(sign <= 1);
    if exp == 31 {
        proof {
            lemma_f64_fields(sign as nat, 2047, (frac * 0x400_0000_0000) as nat);
        }
        return sign * 0x8000_0000_0000_0000 + 0x7FF * 0x10_0000_0000_0000 + frac * 0x400_0000_0000;
    }
    if exp == 0 {
        if frac == 0 {
            proof {
                lemma_f64_fields(sign as nat, 0, 0);
            }
            return sign * 0x8000_0000_0000_0000;
        }
        let mut f: u64 = frac;
        let mut e: u64 = 1009;
        let ghost mut t: nat = 0;
        proof {
            lemma2_to64();
        }
        while f < 1024
            invariant
                1 <= frac < 1024,
                e + t == 1009,
                f == frac * pow2(t),
                pow2(t) <= f < 2048,
            decreases e,
        {
            proof {
                lemma_pow2_unfold(t + 1);
                assert(frac * pow2(t + 1) == frac * pow2(t) * 2) by (nonlinear_arith)
                    requires
                        pow2(t + 1) == 2 * pow2(t),
                ;
                if t >= 10 {
                    lemma2_to64();
                    if t > 10 {
                        lemma_pow2_strictly_increases(10, t);
                    }
                }
            }
            f = f * 2;
            e = e - 1;
            proof {
                t = t + 1;
            }
        }
        proof {
            assert(t < 11) by {
                if t >= 11 {
                    lemma2_to64();
                    if t > 11 {
                        lemma_pow2_strictly_increases(11, t);
                    }
                }
            }
            lemma_f64_fields(sign as nat, e as nat, ((f - 1024) * 0x400_0000_0000) as nat);
            // (2^52 + (f - 1024) 2^42) 2^(e - 1) = f 2^(e + 41) = frac 2^(t + e + 41) = frac 2^1050
            lemma2_to64_rest();
            lemma_pow2_adds(42, (e - 1) as nat);
            lemma_pow2_adds(t, (e + 41) as nat);
            assert(0x10_0000_0000_0000 + (f - 1024) * 0x400_0000_0000 == f * pow2(42)) by (nonlinear_arith)
                requires
                    pow2(42) == 0x400_0000_0000,
            ;
            assert((f * pow2(42)) * pow2((e - 1) as nat) == f * pow2((e + 41) as nat)) by (nonlinear_arith)
                requires
                    pow2((42 + (e - 1)) as nat) == pow2(42) * pow2((e - 1) as nat),
                    42 + (e - 1) == e + 41,
            ;
            assert(f * pow2((e + 41) as nat) == frac * pow2(1050)) by (nonlinear_arith)
                requires
                    f == frac * pow2(t),
                    pow2((t + (e + 41)) as nat) == pow2(t) * pow2((e + 41) as nat),
                    t + (e + 41) == 1050,
            ;
        }
        return sign * 0x8000_0000_0000_0000 + e * 0x10_0000_0000_0000 + (f - 1024) * 0x400_0000_0000;
    }
    let f64_exp: u64 = exp + 1008;
    proof {
        lemma_f64_fields(sign as nat, f64_exp as nat, (frac * 0x400_0000_0000) as nat);
        lemma2_to64_rest();
        lemma_pow2_adds(42, (f64_exp - 1) as nat);
        assert(0x10_0000_0000_0000 + frac * 0x400_0000_0000 == (1024 + frac) * pow2(42)) by (nonlinear_arith)
            requires
                pow2(42) == 0x400_0000_0000,
        ;
        assert(((1024 + frac) * pow2(42)) * pow2((f64_exp - 1) as nat) == (1024 + frac) * pow2(
            (exp + 1049) as nat,
        )) by (nonlinear_arith)
            requires
                pow2((42 + (f64_exp - 1)) as nat) == pow2(42) * pow2((f64_exp - 1) as nat),
                42 + (f64_exp - 1) == exp + 1049,
        ;
    }
    sign * 0x8000_0000_0000_0000 + f64_exp * 0x10_0000_0000_0000 + frac * 0x400_0000_0000
}


/// `x / d` rounded to the nearest whole number, ties to the even one.
pub open spec fn round_half_even(x: nat, d: nat) -> nat {
    let q = x / d;
    let r = x % d;
    if 2 * r > d || (2 * r == d && q % 2 == 1) {
        q + 1
    } else {
        q
    }
}

/// The binary16 magnitude bits (sign left out) that a finite binary64
/// pattern rounds to. Binary16 magnitudes are whole multiples of 2^-24 (of
/// 2^1050 once scaled by 2^1074); in the binade of 2^(e-1023) the grid is
/// 2^(e-1033) apart. The value is rounded to that grid, ties to even; a
/// result of 2^11 grid steps is the first pattern of the next binade, so
/// rounding carries into the exponent and, past 65504, into infinity.
pub open spec fn f16_rounded_magnitude(b: u64) -> nat {
    let e = f64_exp(b);
    let x = f64_scaled(b);
    if e >= 1039 {
        0x7C00
    } else if e >= 1009 {
        ((e - 1009) * 1024 + round_half_even(x, pow2((e + 41) as nat))) as nat
    } else {
        round_half_even(x, pow2(1050))
    }
}

pub(crate) proof fn lemma_round_scale(m: nat, d: nat, s: nat)
    requires
        d > 0,
        s > 0,
    ensures
        round_half_even(m * s, d * s) == round_half_even(m, d),
{
    let q = m / d;
    let r = m % d;
    assert(m == q * d + r && 0 <= r < d) by {
        lemma_fundamental_div_mod(m as int, d as int);
        lemma_mod_pos_bound(m as int, d as int);
    }
    assert(m * s == q * (d * s) + r * s && r * s < d * s && d * s > 0) by (nonlinear_arith)
        requires
            m == q * d + r,
            0 <= r < d,
            s > 0,
    ;
    lemma_fundamental_div_mod_converse((m * s) as int, (d * s) as int, q as int, (r * s) as int);
    assert((2 * (r * s) > d * s) == (2 * r > d)) by (nonlinear_arith)
        requires
            s > 0,
    ;
    assert((2 * (r * s) == d * s) == (2 * r == d)) by (nonlinear_arith)
        requires
            s > 0,
    ;
}

pub(crate) proof fn lemma_round_bits(m: nat, k: nat)
    requires
        k >= 1,
    ensures
        ({
            let half = pow2((k - 1) as nat);
            let b = (m / half) % 2;
            let st = m % half;
            let r = m % pow2(k);
            &&& (2 * r > pow2(k)) == (b == 1 && st > 0)
            &&& (2 * r == pow2(k)) == (b == 1 && st == 0)
        }),
{
    let half = pow2((k - 1) as nat);
    lemma_pow2_pos((k - 1) as nat);
    lemma_pow2_unfold(k);
    lemma_mod_breakdown(m as int, half as int, 2);
    let b = (m / half) % 2;
    let st = m % half;
    assert(half * 2 == pow2(k));
    assert(m % pow2(k) == half * b + st);
    assert(b == 0 || b == 1);
    if b == 0 {
        assert(half * b == 0) by (nonlinear_arith)
            requires
                b == 0,
        ;
    } else {
        assert(half * b == half) by (nonlinear_arith)
            requires
                b == 1,
        ;
    }
}

/// `f64_to_f16` on bit patterns: a NaN becomes the quiet NaN, an infinity
/// the infinity of the same sign, and a finite number the binary16 pattern
/// it rounds to (nearest, ties to even).
pub fn f64_to_f16_bits(bits: u64) -> (h: u16)
    ensures
        f64_exp(bits) == 2047 && f64_frac(bits) != 0 ==> h == f64_sign(bits) * 0x8000 + 0x7E00,
        f64_exp(bits) == 2047 && f64_frac(bits) == 0 ==> h == f64_sign(bits) * 0x8000 + 0x7C00,
        f64_exp(bits) < 2047 ==> h == f64_sign(bits) * 0x8000 + f16_rounded_magnitude(bits),
{
    proof {
        lemma2_to64();
        lemma2_to64_rest();
    }
    let sign: u16 = (bits / 0x8000_0000_0000_0000) as u16;
    let exp: u64 = (bits / 0x10_0000_0000_0000) % 2048;
    let frac: u64 = bits % 0x10_0000_0000_0000;
    assert(sign <= 1);
    if exp == 0x7FF && frac != 0 {
        return sign * 0x8000 + 0x7E00;
    }
    if exp == 0x7FF {
        return sign * 0x8000 + 0x7C00;
    }
    // Past the largest binade of binary16.
    if exp > 1038 {
        return sign * 0x8000 + 0x7C00;
    }
    let ghost m: nat = (0x10_0000_0000_0000 + frac) as nat;
    if exp >= 1009 {
        // A normal binary16 number: 10 of the 52 fraction bits stay.
        let f16_exp: u16 = (exp - 1008) as u16;
        let f16_frac: u16 = (frac >> 42) as u16;
        let round_bit: u64 = (frac >> 41) & 1;
        let sticky: u64 = frac & 0x1FF_FFFF_FFFF;
        proof {
            assert(f16_frac == frac / 0x400_0000_0000 && f16_frac < 1024) by (bit_vector)
                requires
                    f16_frac == (frac >> 42) as u16,
                    frac < 0x10_0000_0000_0000,
            ;
            assert((round_bit != 0 && sticky != 0) == (2 * (frac % 0x400_0000_0000) > 0x400_0000_0000))
                by (bit_vector)
                requires
                    round_bit == (frac >> 41) & 1,
                    sticky == frac & 0x1FF_FFFF_FFFF,
            ;
            assert((round_bit != 0 && sticky == 0) == (2 * (frac % 0x400_0000_0000) == 0x400_0000_0000))
                by (bit_vector)
                requires
                    round_bit == (frac >> 41) & 1,
                    sticky == frac & 0x1FF_FFFF_FFFF,
            ;
            assert((f16_frac & 1 != 0) == (f16_frac % 2 == 1)) by (bit_vector);
            let q = 1024 + frac / 0x400_0000_0000;
            let r = frac % 0x400_0000_0000;
            lemma_fundamental_div_mod_converse(m as int, 0x400_0000_0000, q as int, r as int);
            lemma_pow2_adds((exp - 1) as nat, 42);
            lemma_pow2_pos((exp - 1) as nat);
            lemma_round_scale(m, pow2(42), pow2((exp - 1) as nat));
            assert(m * pow2((exp - 1) as nat) == f64_scaled(bits));
            assert(pow2(42) * pow2((exp - 1) as nat) == pow2((exp + 41) as nat)) by (nonlinear_arith)
                requires
                    pow2(((exp - 1) + 42) as nat) == pow2((exp - 1) as nat) * pow2(42),
                    (exp - 1) + 42 == exp + 41,
            ;
            assert(round_half_even(m, pow2(42)) == q + (if round_bit != 0 && (sticky != 0 || f16_frac
                & 1 != 0) {
                1nat
            } else {
                0nat
            }));
        }
        let mut result: u16 = sign * 0x8000 + f16_exp * 1024 + f16_frac;
        if round_bit != 0 && (sticky != 0 || (f16_frac & 1) != 0) {
            result = result + 1;
        }
        return result;
    }
    // A subnormal binary16 number, or zero.
    let shift: u64 = 1009 - exp;
    if shift > 24 {
        proof {
            // The magnitude is below 2^-39, far under half the smallest
            // subnormal.
            let x = f64_scaled(bits);
            if exp == 0 {
                assert(x < pow2(52));
            } else {
                lemma_pow2_adds(53, (exp - 1) as nat);
                assert(m < pow2(53));
                assert(x <= m * pow2((exp - 1) as nat));
                assert(m * pow2((exp - 1) as nat) <= pow2(53) * pow2((exp - 1) as nat)) by (nonlinear_arith)
                    requires
                        m < pow2(53),
                ;
                assert(53 + (exp - 1) < 1049);
                lemma_pow2_strictly_increases((53 + (exp - 1)) as nat, 1049);
            }
            lemma_pow2_strictly_increases(52, 1049);
            lemma_pow2_unfold(1050);
            lemma_fundamental_div_mod_converse(x as int, pow2(1050) as int, 0, x as int);
        }
        return sign * 0x8000;
    }
    let full_sig: u64 = 0x10_0000_0000_0000 + frac;
    let total_shift: u64 = 42 + shift;
    proof {
        let x = f64_scaled(bits);
        lemma_pow2_adds((exp - 1) as nat, total_shift as nat);
        lemma_pow2_pos((exp - 1) as nat);
        lemma_pow2_pos(total_shift as nat);
        lemma_round_scale(m, pow2(total_shift as nat), pow2((exp - 1) as nat));
        assert(pow2(total_shift as nat) * pow2((exp - 1) as nat) == pow2(1050)) by (nonlinear_arith)
            requires
                pow2(((exp - 1) + total_shift) as nat) == pow2((exp - 1) as nat) * pow2(total_shift as nat),
                (exp - 1) + total_shift == 1050,
        ;
        assert(x == m * pow2((exp - 1) as nat));
    }
    let f16_frac: u16 = if total_shift >= 53 {
        0
    } else {
        proof {
            lemma_u64_shr_is_div(full_sig, total_shift);
        }
        ((full_sig >> total_shift) as u16) & 0x3FF
    };
    let round_bit: u64 = if total_shift >= 54 {
        0
    } else {
        proof {
            lemma_u64_shr_is_div(full_sig, (total_shift - 1) as u64);
        }
        (full_sig >> (total_shift - 1)) & 1
    };
    let sticky: u64 = if total_shift >= 54 {
        0
    } else {
        proof {
            lemma_u64_pow2_no_overflow((total_shift - 1) as nat);
            lemma_u64_shl_is_mul(1, (total_shift - 1) as u64);
            lemma_u64_low_bits_mask_is_mod(full_sig, (total_shift - 1) as nat);
        }
        full_sig & ((1u64 << (total_shift - 1)) - 1)
    };
    proof {
        let t = total_shift as nat;
        let d = pow2(t);
        let q = m / d;
        lemma_pow2_pos(t);
        if total_shift >= 53 {
            if t > 53 {
                lemma_pow2_strictly_increases(53, t);
            }
            lemma_fundamental_div_mod_converse(m as int, d as int, 0, m as int);
            lemma_round_bits(m, t);
            lemma_pow2_strictly_increases(52, 53);
            if total_shift >= 54 {
                assert(m < pow2((t - 1) as nat)) by {
                    if t - 1 > 53 {
                        lemma_pow2_strictly_increases(53, (t - 1) as nat);
                    }
                }
                lemma_fundamental_div_mod_converse(m as int, pow2((t - 1) as nat) as int, 0, m as int);
            } else {
                lemma_fundamental_div_mod_converse(m as int, pow2(52) as int, 1, frac as int);
                assert((full_sig >> 52) & 1 == 1) by (bit_vector)
                    requires
                        0x10_0000_0000_0000 <= full_sig < 0x20_0000_0000_0000,
                ;
            }
        } else {
            lemma_round_bits(m, t);
            assert(q < 1024) by {
                lemma_pow2_adds(10, t);
                if 10 + t > 53 {
                    lemma_pow2_strictly_increases(53, 10 + t);
                }
                lemma_fundamental_div_mod(m as int, d as int);
                lemma_mod_pos_bound(m as int, d as int);
                assert(m < pow2(10) * d);
                assert(q * d <= m) by (nonlinear_arith)
                    requires
                        m == d * q + m % d,
                        m % d >= 0,
                ;
                assert(q < pow2(10)) by (nonlinear_arith)
                    requires
                        q * d <= m,
                        m < pow2(10) * d,
                        d > 0,
                ;
            }
            let v: u64 = full_sig >> total_shift;
            assert(((v as u16) & 0x3FF) == v && v % 2 == ((v as u16) & 1) as nat) by (bit_vector)
                requires
                    v < 1024,
            ;
            let w: u64 = full_sig >> (total_shift - 1);
            assert((w & 1) == w % 2) by (bit_vector);
        }
        assert((f16_frac & 1 != 0) == (f16_frac % 2 == 1)) by (bit_vector);
    }
    let mut result: u16 = sign * 0x8000 + f16_frac;
    if round_bit != 0 && (sticky != 0 || (f16_frac & 1) != 0) {
        result = result + 1;
    }
    result
}


/// A finite binary64 pattern lies in the binade its exponent names.
pub(crate) proof fn lemma_f64_binade(b: u64)
    requires
        1 <= f64_exp(b) < 2047,
    ensures
        pow2((f64_exp(b) + 51) as nat) <= f64_scaled(b) < pow2((f64_exp(b) + 52) as nat),
{
    let e = f64_exp(b);
    let p = pow2((e - 1) as nat);
    lemma2_to64();
    lemma2_to64_rest();
    lemma_pow2_adds(52, (e - 1) as nat);
    lemma_pow2_adds(53, (e - 1) as nat);
    let m = 0x10_0000_0000_0000 + f64_frac(b);
    lemma_pow2_pos((e - 1) as nat);
    assert(pow2(52) * p <= m * p < pow2(53) * p) by (nonlinear_arith)
        requires
            pow2(52) <= m < pow2(53),
            p > 0,
    ;
}

/// Widening a finite binary16 number and narrowing it back gives the same
/// pattern: any binary64 pattern of the same sign and value (which is what
/// `f16_to_f64_bits` returns) rounds, in `f64_to_f16_bits`, to `h` itself.
pub proof fn law_half_round_trip(h: u16, b: u64)
    requires
        f16_exp(h) < 31,
        f64_exp(b) < 2047,
        f64_sign(b) == f16_sign(h),
        f64_scaled(b) == f16_scaled(h),
    ensures
        f64_sign(b) * 0x8000 + f16_rounded_magnitude(b) == h,
{
    lemma2_to64();
    lemma2_to64_rest();
    let exp16 = f16_exp(h);
    let frac16 = f16_frac(h);
    let e = f64_exp(b);
    let x = f64_scaled(b);
    assert(h == f16_sign(h) * 0x8000 + exp16 * 1024 + frac16);
    if exp16 == 0 {
        // A subnormal binary16 number: far below the binades of the
        // binary64 exponents that narrow to normal numbers.
        assert(e < 1009) by {
            if e >= 1009 {
                lemma_f64_binade(b);
                lemma_pow2_adds(10, 1050);
                lemma_pow2_pos(1050);
                assert(frac16 * pow2(1050) < pow2(10) * pow2(1050)) by (nonlinear_arith)
                    requires
                        frac16 < pow2(10),
                        pow2(1050) > 0,
                ;
                if e + 51 > 1060 {
                    lemma_pow2_strictly_increases(1060, (e + 51) as nat);
                }
            }
        }
        lemma_pow2_pos(1050);
        lemma_fundamental_div_mod_converse(x as int, pow2(1050) as int, frac16 as int, 0);
    } else {
        let d = pow2((exp16 + 1049) as nat);
        lemma_pow2_pos((exp16 + 1049) as nat);
        lemma_pow2_adds(10, (exp16 + 1049) as nat);
        lemma_pow2_adds(11, (exp16 + 1049) as nat);
        assert(pow2(10) * d <= x < pow2(11) * d) by (nonlinear_arith)
            requires
                x == (1024 + frac16) * d,
                frac16 < 1024,
                d > 0,
                pow2(10) == 1024,
                pow2(11) == 2048,
        ;
        // The value fixes the binary64 exponent.
        assert(e == exp16 + 1008) by {
            if e == 0 {
                assert(x < pow2(52));
                lemma_pow2_strictly_increases(52, (exp16 + 1059) as nat);
            } else {
                lemma_f64_binade(b);
                if e + 51 > exp16 + 1059 {
                    if e + 51 > exp16 + 1060 {
                        lemma_pow2_strictly_increases((exp16 + 1060) as nat, (e + 51) as nat);
                    }
                } else if e + 51 < exp16 + 1059 {
                    if e + 52 < exp16 + 1059 {
                        lemma_pow2_strictly_increases((e + 52) as nat, (exp16 + 1059) as nat);
                    }
                }
            }
        }
        lemma_fundamental_div_mod_converse(x as int, d as int, (1024 + frac16) as int, 0);
    }
}

} // verus!

//! The conversions of a Number (given as its IEEE 754 binary64 bit pattern)
//! that TypedArray element stores make: ToInt32 for the integer kinds,
//! the clamping rounding of Uint8ClampedArray, and the saturating
//! truncation that stores a Number into a BigInt64 or BigUint64 element.
use crate::half::{
    f64_exp, f64_frac, f64_scaled, f64_sign, lemma_round_bits, lemma_round_scale, round_half_even,
};
use vstd::arithmetic::div_mod::{
    lemma_div_by_multiple, lemma_div_denominator, lemma_fundamental_div_mod_converse,
    lemma_mod_multiples_basic, lemma_mul_mod_noop_left, lemma_small_mod,
};
use vstd::arithmetic::power2::{
    lemma2_to64, lemma2_to64_rest, lemma_pow2_adds, lemma_pow2_pos, lemma_pow2_strictly_increases, pow2,
};
use vstd::bits::{
    lemma_u64_low_bits_mask_is_mod, lemma_u64_pow2_no_overflow, lemma_u64_shl_is_mul, lemma_u64_shr_is_div,
};
use vstd::prelude::*;

verus! {

/// The magnitude of a finite pattern truncated to a whole number.
pub open spec fn f64_trunc_magnitude(b: u64) -> nat {
    f64_scaled(b) / pow2(1074)
}

/// A finite Number truncated toward zero.
pub open spec fn f64_trunc(b: u64) -> int {
    if f64_sign(b) == 1 {
        -(f64_trunc_magnitude(b) as int)
    } else {
        f64_trunc_magnitude(b) as int
    }
}

/// ToInt32: NaN and the infinities give 0; otherwise the truncated value
/// modulo 2^32, read in two's complement.
pub open spec fn spec_to_int32(b: u64) -> int {
    if f64_exp(b) == 2047 {
        0
    } else {
        let u = f64_trunc(b) % 0x1_0000_0000;
        if u >= 0x8000_0000 {
            u - 0x1_0000_0000
        } else {
            u
        }
    }
}

/// The truncated magnitude in terms of the fields: the significand shifted
/// by the exponent.
proof fn lemma_trunc_magnitude(b: u64)
    requires
        1023 <= f64_exp(b) < 2047,
    ensures
        ({
            let e = f64_exp(b);
            let m = 0x10_0000_0000_0000 + f64_frac(b);
            &&& e < 1075 ==> f64_trunc_magnitude(b) == m / pow2((1075 - e) as nat)
            &&& e >= 1075 ==> f64_trunc_magnitude(b) == m * pow2((e - 1075) as nat)
        }),
{
    let e = f64_exp(b);
    let m = 0x10_0000_0000_0000 + f64_frac(b);
    let x = f64_scaled(b);
    assert(x == m * pow2((e - 1) as nat));
    lemma_pow2_pos((e - 1) as nat);
    if e < 1075 {
        let a = pow2((e - 1) as nat);
        let c = pow2((1075 - e) as nat);
        lemma_pow2_pos((1075 - e) as nat);
        lemma_pow2_adds((e - 1) as nat, (1075 - e) as nat);
        assert(pow2(1074) == a * c);
        lemma_div_denominator(x as int, a as int, c as int);
        lemma_div_by_multiple(m as int, a as int);
    } else {
        let k = pow2((e - 1075) as nat);
        lemma_pow2_adds(1074, (e - 1075) as nat);
        lemma_pow2_pos(1074);
        assert(x == (m * k) * pow2(1074)) by (nonlinear_arith)
            requires
                x == m * pow2((e - 1) as nat),
                pow2((1074 + (e - 1075)) as nat) == pow2(1074) * k,
                1074 + (e - 1075) == e - 1,
        ;
        lemma_div_by_multiple((m * k) as int, pow2(1074) as int);
    }
}

/// A pattern below 1 in magnitude truncates to zero.
proof fn lemma_trunc_small(b: u64)
    requires
        f64_exp(b) < 1023,
    ensures
        f64_trunc_magnitude(b) == 0,
{
    let e = f64_exp(b);
    let x = f64_scaled(b);
    lemma2_to64();
    lemma2_to64_rest();
    lemma_pow2_pos(1074);
    if e == 0 {
        lemma_pow2_strictly_increases(52, 1074);
    } else {
        let m = 0x10_0000_0000_0000 + f64_frac(b);
        lemma_pow2_adds(53, (e - 1) as nat);
        lemma_pow2_pos((e - 1) as nat);
        assert(m * pow2((e - 1) as nat) < pow2(53) * pow2((e - 1) as nat)) by (nonlinear_arith)
            requires
                m < pow2(53),
                pow2((e - 1) as nat) > 0,
        ;
        if e + 52 < 1074 {
            lemma_pow2_strictly_increases((e + 52) as nat, 1074);
        }
    }
    lemma_fundamental_div_mod_converse(x as int, pow2(1074) as int, 0, x as int);
}

/// The fields of a pattern.
proof fn lemma_fields(b: u64)
    ensures
        f64_sign(b) <= 1,
        f64_exp(b) < 2048,
        f64_frac(b) < 0x10_0000_0000_0000,
        b as nat == f64_sign(b) * 0x8000_0000_0000_0000 + f64_exp(b) * 0x10_0000_0000_0000 + f64_frac(b),
{
    let q = b as nat / 0x10_0000_0000_0000;
    vstd::arithmetic::div_mod::lemma_fundamental_div_mod(b as int, 0x10_0000_0000_0000);
    vstd::arithmetic::div_mod::lemma_fundamental_div_mod(q as int, 2048);
    vstd::arithmetic::div_mod::lemma_div_denominator(b as int, 0x10_0000_0000_0000, 2048);
}

/// ToInt32 of a Number given as its bit pattern.
pub fn js_to_int32_bits(b: u64) -> (r: i32)
    ensures
        r as int == spec_to_int32(b),
{
    proof {
        lemma2_to64();
        lemma2_to64_rest();
        lemma_fields(b);
    }
    let neg = b >= 0x8000_0000_0000_0000;
    let exp: u64 = (b / 0x10_0000_0000_0000) % 2048;
    let frac: u64 = b % 0x10_0000_0000_0000;
    assert(neg == (f64_sign(b) == 1));
    if exp == 2047 {
        return 0;
    }
    if exp < 1023 {
        proof {
            lemma_trunc_small(b);
        }
        return 0;
    }
    let m: u64 = 0x10_0000_0000_0000 + frac;
    proof {
        lemma_trunc_magnitude(b);
    }
    let ghost n = f64_trunc_magnitude(b);
    let low: u64 = if exp < 1075 {
        proof {
            lemma_u64_shr_is_div(m, (1075 - exp) as u64);
        }
        (m >> (1075 - exp)) % 0x1_0000_0000
    } else if exp - 1075 >= 32 {
        proof {
            let k = (exp - 1075) as nat;
            lemma_pow2_adds(32, (k - 32) as nat);
            assert(n == (m * pow2((k - 32) as nat)) * pow2(32)) by (nonlinear_arith)
                requires
                    n == m * pow2(k),
                    pow2((32 + (k - 32)) as nat) == pow2(32) * pow2((k - 32) as nat),
                    32 + (k - 32) == k,
            ;
            lemma_mod_multiples_basic((m * pow2((k - 32) as nat)) as int, pow2(32) as int);
        }
        0
    } else {
        let k: u64 = exp - 1075;
        proof {
            lemma_pow2_pos(k as nat);
            if k < 31 {
                lemma_pow2_strictly_increases(k as nat, 31);
            }
            assert((m % 0x1_0000_0000) * pow2(k as nat) <= u64::MAX) by (nonlinear_arith)
                requires
                    m % 0x1_0000_0000 < 0x1_0000_0000,
                    pow2(k as nat) <= 0x8000_0000,
            ;
            lemma_u64_shl_is_mul(m % 0x1_0000_0000, k);
            lemma_mul_mod_noop_left(m as int, pow2(k as nat) as int, 0x1_0000_0000);
        }
        ((m % 0x1_0000_0000) << k) % 0x1_0000_0000
    };
    assert(low == n % 0x1_0000_0000);
    let signed_low: u64 = if neg && low != 0 {
        0x1_0000_0000 - low
    } else {
        low
    };
    proof {
        let t = f64_trunc(b);
        if neg {
            // (-n) mod 2^32 from n mod 2^32
            let q = n / 0x1_0000_0000;
            vstd::arithmetic::div_mod::lemma_fundamental_div_mod(n as int, 0x1_0000_0000);
            if low == 0 {
                lemma_fundamental_div_mod_converse(t, 0x1_0000_0000, -(q as int), 0);
            } else {
                lemma_fundamental_div_mod_converse(
                    t,
                    0x1_0000_0000,
                    -(q as int) - 1,
                    (0x1_0000_0000 - low) as int,
                );
            }
        }
        assert(signed_low as int == t % 0x1_0000_0000);
    }
    if signed_low >= 0x8000_0000 {
        (signed_low as i64 - 0x1_0000_0000) as i32
    } else {
        signed_low as i32
    }
}


/// `m / 2^t` rounded to the nearest whole number, ties to even.
fn round_shift(m: u64, t: u64) -> (r: u64)
    requires
        1 <= t <= 63,
    ensures
        r == round_half_even(m as nat, pow2(t as nat)),
{
    proof {
        lemma_u64_shr_is_div(m, t);
        lemma_u64_shr_is_div(m, (t - 1) as u64);
        lemma_u64_pow2_no_overflow((t - 1) as nat);
        lemma_u64_shl_is_mul(1, (t - 1) as u64);
        lemma_u64_low_bits_mask_is_mod(m, (t - 1) as nat);
        lemma_round_bits(m as nat, t as nat);
        lemma_pow2_pos(t as nat);
    }
    let q = m >> t;
    let rb = (m >> (t - 1)) & 1;
    let sticky = m & ((1u64 << (t - 1)) - 1);
    proof {
        let w = m >> (t - 1);
        assert((w & 1) == w % 2) by (bit_vector);
        assert((q & 1 != 0) == (q % 2 == 1)) by (bit_vector);
        assert(q < u64::MAX) by {
            assert(q <= m / 2) by {
                lemma2_to64();
                if t > 1 {
                    lemma_pow2_strictly_increases(1, t as nat);
                }
                vstd::arithmetic::div_mod::lemma_div_is_ordered_by_denominator(m as int, 2, pow2(t as nat) as int);
            }
        }
    }
    if rb != 0 && (sticky != 0 || (q & 1) != 0) {
        q + 1
    } else {
        q
    }
}

/// Storing a Number into a Uint8ClampedArray: NaN and anything not above 0
/// give 0, anything from 255 on gives 255, the rest rounds to the nearest
/// whole number, ties to even.
pub open spec fn spec_clamp_u8(b: u64) -> nat {
    let e = f64_exp(b);
    if e == 2047 && f64_frac(b) != 0 {
        0
    } else if f64_sign(b) == 1 || (e == 0 && f64_frac(b) == 0) {
        0
    } else if e == 2047 || f64_scaled(b) >= 255 * pow2(1074) {
        255
    } else {
        round_half_even(f64_scaled(b), pow2(1074))
    }
}

pub fn clamp_u8_bits(b: u64) -> (r: u8)
    ensures
        r == spec_clamp_u8(b),
{
    proof {
        lemma2_to64();
        lemma2_to64_rest();
        lemma_fields(b);
        lemma_pow2_pos(1074);
    }
    let neg = b >= 0x8000_0000_0000_0000;
    let exp: u64 = (b / 0x10_0000_0000_0000) % 2048;
    let frac: u64 = b % 0x10_0000_0000_0000;
    if exp == 2047 && frac != 0 {
        return 0;
    }
    if neg || (exp == 0 && frac == 0) {
        return 0;
    }
    if exp == 2047 {
        return 255;
    }
    let ghost x = f64_scaled(b);
    if exp == 0 {
        proof {
            lemma_pow2_strictly_increases(52, 1073);
            lemma_pow2_adds(1, 1073);
            lemma_fundamental_div_mod_converse(x as int, pow2(1074) as int, 0, x as int);
            assert(x < 255 * pow2(1074));
        }
        return 0;
    }
    let m: u64 = 0x10_0000_0000_0000 + frac;
    proof {
        lemma_pow2_pos((exp - 1) as nat);
        lemma_pow2_adds(8, 1074);
        lemma_pow2_adds(7, 1074);
        lemma_pow2_adds(52, (exp - 1) as nat);
        lemma_pow2_adds(53, (exp - 1) as nat);
        assert(pow2(52) * pow2((exp - 1) as nat) <= x < pow2(53) * pow2((exp - 1) as nat)) by (nonlinear_arith)
            requires
                x == m * pow2((exp - 1) as nat),
                pow2(52) <= m < pow2(53),
                pow2((exp - 1) as nat) > 0,
        ;
    }
    if exp > 1030 {
        proof {
            if exp + 51 > 1082 {
                lemma_pow2_strictly_increases(1082, (exp + 51) as nat);
            }
            assert(255 * pow2(1074) < pow2(1082));
        }
        return 255;
    }
    if exp == 1030 && m >= 255 * 0x2000_0000_0000 {
        proof {
            lemma_pow2_adds(45, 1029);
            assert(x >= 255 * pow2(1074)) by (nonlinear_arith)
                requires
                    x == m * pow2(1029),
                    m >= 255 * pow2(45),
                    pow2(1074) == pow2(45) * pow2(1029),
            ;
        }
        return 255;
    }
    let t: u64 = 1075 - exp;
    proof {
        // Below 255: take the rounding branch, and scale it down to m.
        if exp == 1030 {
            lemma_pow2_adds(45, 1029);
            assert(x < 255 * pow2(1074)) by (nonlinear_arith)
                requires
                    x == m * pow2(1029),
                    m < 255 * pow2(45),
                    pow2(1074) == pow2(45) * pow2(1029),
                    pow2(1029) > 0,
            ;
        } else {
            if exp + 52 < 1081 {
                lemma_pow2_strictly_increases((exp + 52) as nat, 1081);
            }
            assert(pow2(1081) < 255 * pow2(1074));
        }
        lemma_pow2_pos(t as nat);
        lemma_pow2_adds(t as nat, (exp - 1) as nat);
        lemma_round_scale(m as nat, pow2(t as nat), pow2((exp - 1) as nat));
        assert(pow2(t as nat) * pow2((exp - 1) as nat) == pow2(1074));
    }
    if t >= 64 {
        proof {
            lemma_pow2_strictly_increases(53, (t - 1) as nat);
            lemma_pow2_strictly_increases((t - 1) as nat, t as nat);
            lemma_fundamental_div_mod_converse(m as int, pow2(t as nat) as int, 0, m as int);
            assert(pow2(t as nat) == 2 * pow2((t - 1) as nat)) by {
                vstd::arithmetic::power2::lemma_pow2_unfold(t as nat);
            }
        }
        return 0;
    }
    let r = round_shift(m, t);
    proof {
        // The rounded value stays at most 255.
        let d = pow2(t as nat);
        let mm = m as nat;
        let q = mm / d;
        vstd::arithmetic::div_mod::lemma_fundamental_div_mod(mm as int, d as int);
        vstd::arithmetic::div_mod::lemma_mod_pos_bound(mm as int, d as int);
        if exp == 1030 {
            assert(q < 255) by (nonlinear_arith)
                requires
                    mm < 255 * d,
                    mm == d * q + mm % d,
                    mm % d >= 0,
                    d > 0,
            ;
        } else {
            lemma_pow2_adds(7, t as nat);
            if 7 + t > 53 {
                lemma_pow2_strictly_increases(53, (7 + t) as nat);
            }
            assert(q < 128) by (nonlinear_arith)
                requires
                    mm < pow2(7) * d,
                    pow2(7) == 128,
                    mm == d * q + mm % d,
                    mm % d >= 0,
                    d > 0,
            ;
        }
    }
    r as u8
}


/// `value as i64` for a Number: NaN gives 0; the value is truncated and
/// saturates at the ends of the range (the infinities included).
pub open spec fn spec_to_i64_saturating(b: u64) -> int {
    if f64_exp(b) == 2047 && f64_frac(b) != 0 {
        0
    } else if f64_exp(b) == 2047 {
        if f64_sign(b) == 1 {
            i64::MIN as int
        } else {
            i64::MAX as int
        }
    } else if f64_trunc(b) < i64::MIN {
        i64::MIN as int
    } else if f64_trunc(b) > i64::MAX {
        i64::MAX as int
    } else {
        f64_trunc(b)
    }
}

/// `value as u64` for a Number: NaN and negative values give 0; the value
/// is truncated and saturates at `u64::MAX`.
pub open spec fn spec_to_u64_saturating(b: u64) -> int {
    if f64_exp(b) == 2047 && f64_frac(b) != 0 {
        0
    } else if f64_exp(b) == 2047 {
        if f64_sign(b) == 1 {
            0
        } else {
            u64::MAX as int
        }
    } else if f64_trunc(b) < 0 {
        0
    } else if f64_trunc(b) > u64::MAX {
        u64::MAX as int
    } else {
        f64_trunc(b)
    }
}

/// The truncated magnitude of a finite pattern with an exponent of at
/// least 2^0, when it is below 2^(shift limit): `m` shifted by the exponent.
fn trunc_magnitude(exp: u64, m: u64) -> (n: u64)
    requires
        1023 <= exp <= 1086,
        0x10_0000_0000_0000 <= m < 0x20_0000_0000_0000,
    ensures
        exp < 1075 ==> n as nat == m as nat / pow2((1075 - exp) as nat),
        exp >= 1075 ==> n as nat == m as nat * pow2((exp - 1075) as nat),
{
    if exp < 1075 {
        proof {
            lemma_u64_shr_is_div(m, (1075 - exp) as u64);
        }
        m >> (1075 - exp)
    } else {
        let k: u64 = exp - 1075;
        proof {
            lemma2_to64();
            lemma_pow2_pos(k as nat);
            if k < 11 {
                lemma_pow2_strictly_increases(k as nat, 11);
            }
            assert(m * pow2(k as nat) <= u64::MAX) by (nonlinear_arith)
                requires
                    m < 0x20_0000_0000_0000,
                    pow2(k as nat) <= 2048,
            ;
            lemma_u64_shl_is_mul(m, k);
        }
        m << k
    }
}

/// Bounds of the truncated magnitude by the exponent.
proof fn lemma_trunc_bounds(b: u64)
    requires
        1075 <= f64_exp(b) < 2047,
    ensures
        pow2((f64_exp(b) - 1023) as nat) <= f64_trunc_magnitude(b) < pow2((f64_exp(b) - 1022) as nat),
{
    let e = f64_exp(b);
    let k = (e - 1075) as nat;
    let m = 0x10_0000_0000_0000 + f64_frac(b);
    lemma_trunc_magnitude(b);
    lemma2_to64();
    lemma2_to64_rest();
    lemma_pow2_pos(k);
    lemma_pow2_adds(52, k);
    lemma_pow2_adds(53, k);
    assert(pow2(52) * pow2(k) <= m * pow2(k) < pow2(53) * pow2(k)) by (nonlinear_arith)
        requires
            pow2(52) <= m < pow2(53),
            pow2(k) > 0,
    ;
}

/// `value as i64` of a Number given as its bit pattern.
pub fn to_i64_saturating_bits(b: u64) -> (r: i64)
    ensures
        r as int == spec_to_i64_saturating(b),
{
    proof {
        lemma2_to64();
        lemma2_to64_rest();
        lemma_fields(b);
    }
    let neg = b >= 0x8000_0000_0000_0000;
    let exp: u64 = (b / 0x10_0000_0000_0000) % 2048;
    let frac: u64 = b % 0x10_0000_0000_0000;
    if exp == 2047 {
        if frac != 0 {
            return 0;
        }
        return if neg {
            i64::MIN
        } else {
            i64::MAX
        };
    }
    if exp < 1023 {
        proof {
            lemma_trunc_small(b);
        }
        return 0;
    }
    if exp >= 1086 {
        proof {
            lemma_trunc_bounds(b);
            if exp - 1023 > 63 {
                lemma_pow2_strictly_increases(63, (exp - 1023) as nat);
            }
        }
        return if neg {
            i64::MIN
        } else {
            i64::MAX
        };
    }
    let m: u64 = 0x10_0000_0000_0000 + frac;
    let n = trunc_magnitude(exp, m);
    proof {
        lemma_trunc_magnitude(b);
        if exp >= 1075 {
            lemma_trunc_bounds(b);
            if exp - 1022 < 63 {
                lemma_pow2_strictly_increases((exp - 1022) as nat, 63);
            }
        } else {
            lemma_pow2_pos((1075 - exp) as nat);
            vstd::arithmetic::div_mod::lemma_div_is_ordered_by_denominator(m as int, 1, pow2((1075 - exp) as nat) as int);
        }
        assert(n < 0x8000_0000_0000_0000);
    }
    if neg {
        -(n as i64)
    } else {
        n as i64
    }
}

/// `value as u64` of a Number given as its bit pattern.
pub fn to_u64_saturating_bits(b: u64) -> (r: u64)
    ensures
        r as int == spec_to_u64_saturating(b),
{
    proof {
        lemma2_to64();
        lemma2_to64_rest();
        lemma_fields(b);
    }
    let neg = b >= 0x8000_0000_0000_0000;
    let exp: u64 = (b / 0x10_0000_0000_0000) % 2048;
    let frac: u64 = b % 0x10_0000_0000_0000;
    if exp == 2047 {
        if frac != 0 {
            return 0;
        }
        return if neg {
            0
        } else {
            u64::MAX
        };
    }
    if neg {
        proof {
            assert(f64_trunc(b) <= 0);
        }
        return 0;
    }
    if exp < 1023 {
        proof {
            lemma_trunc_small(b);
        }
        return 0;
    }
    if exp >= 1087 {
        proof {
            lemma_trunc_bounds(b);
            if exp - 1023 > 64 {
                lemma_pow2_strictly_increases(64, (exp - 1023) as nat);
            }
        }
        return u64::MAX;
    }
    let m: u64 = 0x10_0000_0000_0000 + frac;
    if exp == 1086 {
        proof {
            lemma_trunc_magnitude(b);
            lemma_pow2_pos(11);
            assert(m * pow2(11) <= u64::MAX) by (nonlinear_arith)
                requires
                    m < 0x20_0000_0000_0000,
                    pow2(11) == 2048,
            ;
            lemma_u64_shl_is_mul(m, 11);
        }
        return m << 11;
    }
    let n = trunc_magnitude(exp, m);
    proof {
        lemma_trunc_magnitude(b);
    }
    n
}

} // verus!

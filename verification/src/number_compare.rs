//! Comparing the numbers that binary16, binary32 and binary64 patterns
//! stand for, as `===` (IsStrictlyEqual on Numbers) and SameValueZero do:
//! NaN equals nothing under `===` and every NaN under SameValueZero, and
//! `+0` equals `-0` under both.
use crate::half::{
    f16_exp, f16_frac, f16_scaled, f16_sign, f16_to_f64_bits, f64_exp, f64_frac, f64_scaled, f64_sign,
    lemma_f64_binade, lemma_f64_fields,
};
use crate::typed_array::TypedArrayKind;
use vstd::arithmetic::div_mod::lemma_fundamental_div_mod_converse;
use vstd::arithmetic::power2::{
    lemma2_to64, lemma2_to64_rest, lemma_pow2_adds, lemma_pow2_pos, lemma_pow2_strictly_increases,
    lemma_pow2_unfold, pow2,
};
use vstd::prelude::*;

verus! {

/// The sign bit of a binary32 pattern.
pub open spec fn f32_sign(u: nat) -> nat {
    u / 0x8000_0000
}

/// The biased exponent field of a binary32 pattern.
pub open spec fn f32_exp(u: nat) -> nat {
    (u / 0x80_0000) % 256
}

/// The fraction field of a binary32 pattern.
pub open spec fn f32_frac(u: nat) -> nat {
    u % 0x80_0000
}

/// The magnitude of a finite binary32 pattern, times 2^1074.
pub open spec fn f32_scaled(u: nat) -> nat {
    if f32_exp(u) == 0 {
        f32_frac(u) * pow2(925)
    } else {
        (0x80_0000 + f32_frac(u)) * pow2((f32_exp(u) + 924) as nat)
    }
}

/// The pattern `u` of a `kind` element (or of a Number, for `Float64`) is
/// a NaN.
pub open spec fn fp_nan(kind: TypedArrayKind, u: nat) -> bool {
    match kind {
        TypedArrayKind::Float16 => f16_exp(u as u16) == 31 && f16_frac(u as u16) != 0,
        TypedArrayKind::Float32 => f32_exp(u) == 255 && f32_frac(u) != 0,
        _ => f64_exp(u as u64) == 2047 && f64_frac(u as u64) != 0,
    }
}

/// The pattern is an infinity.
pub open spec fn fp_infinite(kind: TypedArrayKind, u: nat) -> bool {
    match kind {
        TypedArrayKind::Float16 => f16_exp(u as u16) == 31 && f16_frac(u as u16) == 0,
        TypedArrayKind::Float32 => f32_exp(u) == 255 && f32_frac(u) == 0,
        _ => f64_exp(u as u64) == 2047 && f64_frac(u as u64) == 0,
    }
}

/// The sign bit of the pattern.
pub open spec fn fp_sign(kind: TypedArrayKind, u: nat) -> nat {
    match kind {
        TypedArrayKind::Float16 => f16_sign(u as u16),
        TypedArrayKind::Float32 => f32_sign(u),
        _ => f64_sign(u as u64),
    }
}

/// The magnitude of a finite pattern, times 2^1074.
pub open spec fn fp_scaled(kind: TypedArrayKind, u: nat) -> nat {
    match kind {
        TypedArrayKind::Float16 => f16_scaled(u as u16),
        TypedArrayKind::Float32 => f32_scaled(u),
        _ => f64_scaled(u as u64),
    }
}

/// `===` on the numbers two patterns stand for.
pub open spec fn number_equal(ka: TypedArrayKind, a: nat, kb: TypedArrayKind, b: nat) -> bool {
    &&& !fp_nan(ka, a)
    &&& !fp_nan(kb, b)
    &&& if fp_infinite(ka, a) || fp_infinite(kb, b) {
        fp_infinite(ka, a) && fp_infinite(kb, b) && fp_sign(ka, a) == fp_sign(kb, b)
    } else {
        fp_scaled(ka, a) == fp_scaled(kb, b) && (fp_scaled(ka, a) == 0 || fp_sign(ka, a) == fp_sign(kb, b))
    }
}

/// SameValueZero on the numbers two patterns stand for.
pub open spec fn same_value_zero(ka: TypedArrayKind, a: nat, kb: TypedArrayKind, b: nat) -> bool {
    (fp_nan(ka, a) && fp_nan(kb, b)) || number_equal(ka, a, kb, b)
}

/// A binary64 pattern is its sign, exponent and fraction fields.
proof fn lemma_f64_parts(b: u64)
    ensures
        b == f64_sign(b) * 0x8000_0000_0000_0000 + f64_exp(b) * 0x10_0000_0000_0000 + f64_frac(b),
        f64_sign(b) <= 1,
{
    let q = b as nat / 0x10_0000_0000_0000;
    vstd::arithmetic::div_mod::lemma_fundamental_div_mod(b as int, 0x10_0000_0000_0000);
    vstd::arithmetic::div_mod::lemma_fundamental_div_mod(q as int, 2048);
    vstd::arithmetic::div_mod::lemma_div_denominator(b as int, 0x10_0000_0000_0000, 2048);
}

/// Two finite binary64 patterns of the same magnitude have the same
/// exponent and fraction.
proof fn lemma_f64_scaled_unique(a: u64, b: u64)
    requires
        f64_exp(a) < 2047,
        f64_exp(b) < 2047,
        f64_scaled(a) == f64_scaled(b),
    ensures
        f64_exp(a) == f64_exp(b),
        f64_frac(a) == f64_frac(b),
{
    lemma2_to64();
    lemma2_to64_rest();
    let ea = f64_exp(a);
    let eb = f64_exp(b);
    if ea == 0 && eb != 0 {
        lemma_f64_binade(b);
        if eb + 51 > 52 {
            lemma_pow2_strictly_increases(52, (eb + 51) as nat);
        }
    } else if ea != 0 && eb == 0 {
        lemma_f64_binade(a);
        if ea + 51 > 52 {
            lemma_pow2_strictly_increases(52, (ea + 51) as nat);
        }
    } else if ea != 0 && eb != 0 {
        lemma_f64_binade(a);
        lemma_f64_binade(b);
        if ea < eb {
            if ea + 52 < eb + 51 {
                lemma_pow2_strictly_increases((ea + 52) as nat, (eb + 51) as nat);
            }
        } else if eb < ea {
            if eb + 52 < ea + 51 {
                lemma_pow2_strictly_increases((eb + 52) as nat, (ea + 51) as nat);
            }
        }
        assert(ea == eb);
        let p = pow2((ea - 1) as nat);
        lemma_pow2_pos((ea - 1) as nat);
        assert((0x10_0000_0000_0000 + f64_frac(a)) * p == (0x10_0000_0000_0000 + f64_frac(b)) * p);
        assert(0x10_0000_0000_0000 + f64_frac(a) == 0x10_0000_0000_0000 + f64_frac(b)) by (nonlinear_arith)
            requires
                (0x10_0000_0000_0000 + f64_frac(a)) * p == (0x10_0000_0000_0000 + f64_frac(b)) * p,
                p > 0,
        ;
    }
}

/// `===` on two Numbers decided on their binary64 patterns: neither is a
/// NaN, and the patterns are the same or both are zeros.
pub fn f64_strict_equal(a: u64, b: u64) -> (r: bool)
    ensures
        r == number_equal(TypedArrayKind::Float64, a as nat, TypedArrayKind::Float64, b as nat),
{
    let a_nan = (a / 0x10_0000_0000_0000) % 2048 == 2047 && a % 0x10_0000_0000_0000 != 0;
    let b_nan = (b / 0x10_0000_0000_0000) % 2048 == 2047 && b % 0x10_0000_0000_0000 != 0;
    if a_nan || b_nan {
        return false;
    }
    let r = a == b || (a % 0x8000_0000_0000_0000 == 0 && b % 0x8000_0000_0000_0000 == 0);
    proof {
        lemma_f64_parts(a);
        lemma_f64_parts(b);
        lemma2_to64();
        if f64_exp(a) < 2047 && f64_exp(b) < 2047 && f64_scaled(a) == f64_scaled(b) {
            lemma_f64_scaled_unique(a, b);
        }
        if f64_exp(a) != 0 && f64_exp(a) < 2047 {
            lemma_f64_binade(a);
            lemma_pow2_pos((f64_exp(a) + 51) as nat);
        }
        if f64_exp(b) != 0 && f64_exp(b) < 2047 {
            lemma_f64_binade(b);
            lemma_pow2_pos((f64_exp(b) + 51) as nat);
        }
    }
    r
}


/// A binary32 pattern widened to the binary64 pattern of the same number;
/// infinities stay infinities, a NaN stays a NaN of the same sign.
pub fn f32_to_f64_bits(u: u32) -> (b: u64)
    ensures
        f64_sign(b) == f32_sign(u as nat),
        f32_exp(u as nat) == 255 ==> f64_exp(b) == 2047 && f64_frac(b) == f32_frac(u as nat) * 0x2000_0000,
        f32_exp(u as nat) < 255 ==> f64_exp(b) < 2047 && f64_scaled(b) == f32_scaled(u as nat),
{
    let sign: u64 = (u / 0x8000_0000) as u64;
    let exp: u64 = ((u / 0x80_0000) % 256) as u64;
    let frac: u64 = (u % 0x80_0000) as u64;
    assert(sign <= 1);
    if exp == 255 {
        proof {
            lemma_f64_fields(sign as nat, 2047, (frac * 0x2000_0000) as nat);
        }
        return sign * 0x8000_0000_0000_0000 + 0x7FF * 0x10_0000_0000_0000 + frac * 0x2000_0000;
    }
    if exp == 0 {
        if frac == 0 {
            proof {
                lemma_f64_fields(sign as nat, 0, 0);
            }
            return sign * 0x8000_0000_0000_0000;
        }
        let mut f: u64 = frac;
        let mut e: u64 = 897;
        let ghost mut t: nat = 0;
        proof {
            lemma2_to64();
        }
        while f < 0x80_0000
            invariant
                1 <= frac < 0x80_0000,
                e + t == 897,
                f == frac * pow2(t),
                pow2(t) <= f < 0x100_0000,
            decreases e,
        {
            proof {
                lemma2_to64();
                lemma_pow2_unfold(t + 1);
                assert(frac * pow2(t + 1) == frac * pow2(t) * 2) by (nonlinear_arith)
                    requires
                        pow2(t + 1) == 2 * pow2(t),
                ;
                if t >= 23 {
                    if t > 23 {
                        lemma_pow2_strictly_increases(23, t);
                    }
                }
            }
            f = f * 2;
            e = e - 1;
            proof {
                t = t + 1;
            }
        }
        proof {
            lemma2_to64();
            assert(t < 24) by {
                if t >= 24 {
                    if t > 24 {
                        lemma_pow2_strictly_increases(24, t);
                    }
                }
            }
            lemma_f64_fields(sign as nat, e as nat, ((f - 0x80_0000) * 0x2000_0000) as nat);
            lemma2_to64_rest();
            lemma_pow2_adds(29, (e - 1) as nat);
            lemma_pow2_adds(t, (e + 28) as nat);
            assert(0x10_0000_0000_0000 + (f - 0x80_0000) * 0x2000_0000 == f * pow2(29)) by (nonlinear_arith)
                requires
                    pow2(29) == 0x2000_0000,
            ;
            assert((f * pow2(29)) * pow2((e - 1) as nat) == f * pow2((e + 28) as nat)) by (nonlinear_arith)
                requires
                    pow2((29 + (e - 1)) as nat) == pow2(29) * pow2((e - 1) as nat),
                    29 + (e - 1) == e + 28,
            ;
            assert(f * pow2((e + 28) as nat) == frac * pow2(925)) by (nonlinear_arith)
                requires
                    f == frac * pow2(t),
                    pow2((t + (e + 28)) as nat) == pow2(t) * pow2((e + 28) as nat),
                    t + (e + 28) == 925,
            ;
        }
        return sign * 0x8000_0000_0000_0000 + e * 0x10_0000_0000_0000 + (f - 0x80_0000) * 0x2000_0000;
    }
    let e64: u64 = exp + 896;
    proof {
        lemma2_to64();
        lemma_f64_fields(sign as nat, e64 as nat, (frac * 0x2000_0000) as nat);
        lemma2_to64_rest();
        lemma_pow2_adds(29, (e64 - 1) as nat);
        assert(0x10_0000_0000_0000 + frac * 0x2000_0000 == (0x80_0000 + frac) * pow2(29)) by (nonlinear_arith)
            requires
                pow2(29) == 0x2000_0000,
        ;
        assert(((0x80_0000 + frac) * pow2(29)) * pow2((e64 - 1) as nat) == (0x80_0000 + frac) * pow2(
            (exp + 924) as nat,
        )) by (nonlinear_arith)
            requires
                pow2((29 + (e64 - 1)) as nat) == pow2(29) * pow2((e64 - 1) as nat),
                29 + (e64 - 1) == exp + 924,
        ;
    }
    sign * 0x8000_0000_0000_0000 + e64 * 0x10_0000_0000_0000 + frac * 0x2000_0000
}

/// The binary64 pattern of the number an element of a floating-point kind
/// holds (`u` being the element's pattern): `fp_nan`, `fp_infinite`,
/// `fp_sign` and `fp_scaled` read the same from both.
pub fn element_number_bits(kind: TypedArrayKind, u: u64) -> (b: u64)
    requires
        kind is Float16 ==> u < 0x1_0000,
        kind is Float32 ==> u < 0x1_0000_0000,
    ensures
        fp_nan(kind, u as nat) == fp_nan(TypedArrayKind::Float64, b as nat),
        fp_infinite(kind, u as nat) == fp_infinite(TypedArrayKind::Float64, b as nat),
        fp_sign(kind, u as nat) == fp_sign(TypedArrayKind::Float64, b as nat),
        !fp_nan(kind, u as nat) && !fp_infinite(kind, u as nat) ==> fp_scaled(kind, u as nat) == fp_scaled(
            TypedArrayKind::Float64,
            b as nat,
        ),
{
    match kind {
        TypedArrayKind::Float16 => f16_to_f64_bits(u as u16),
        TypedArrayKind::Float32 => f32_to_f64_bits(u as u32),
        _ => u,
    }
}

/// The fraction bits of a kind's format (binary64 for a Number).
pub open spec fn frac_bits(kind: TypedArrayKind) -> nat {
    match kind {
        TypedArrayKind::Float16 => 10,
        TypedArrayKind::Float32 => 23,
        _ => 52,
    }
}

/// The value of the sign bit of a kind's format.
pub open spec fn sign_unit(kind: TypedArrayKind) -> nat {
    match kind {
        TypedArrayKind::Float16 => 0x8000,
        TypedArrayKind::Float32 => 0x8000_0000,
        _ => 0x8000_0000_0000_0000,
    }
}

/// The pattern without its sign bit.
pub open spec fn fp_mag(kind: TypedArrayKind, u: nat) -> nat {
    u % sign_unit(kind)
}

/// Where a pattern that is not a NaN comes in ascending numeric order,
/// `-0` just before `+0` (an infinity beyond every finite value).
pub open spec fn fp_rank(kind: TypedArrayKind, u: nat) -> int {
    let m: int = if fp_infinite(kind, u) {
        pow2(2100) as int
    } else {
        fp_scaled(kind, u) as int
    };
    if fp_sign(kind, u) == 1 {
        -2 * m - 1
    } else {
        2 * m
    }
}

/// The order of patterns by their bits: the sign, then the magnitude,
/// larger magnitudes first among negative ones.
pub open spec fn fp_bit_rank(kind: TypedArrayKind, u: nat) -> int {
    if u >= sign_unit(kind) {
        -(fp_mag(kind, u) as int) - 1
    } else {
        fp_mag(kind, u) as int
    }
}

/// A magnitude with exponent field `e` and fraction `f`, in units of the
/// smallest subnormal of a format with `fb` fraction bits.
pub open spec fn fp_base(fb: nat, e: nat, f: nat) -> nat {
    if e == 0 {
        f
    } else {
        (pow2(fb) + f) * pow2((e - 1) as nat)
    }
}

proof fn lemma_base_monotone(fb: nat, e1: nat, f1: nat, e2: nat, f2: nat)
    requires
        f1 < pow2(fb),
        f2 < pow2(fb),
        e1 < e2 || (e1 == e2 && f1 < f2),
    ensures
        fp_base(fb, e1, f1) < fp_base(fb, e2, f2),
{
    if e1 == e2 {
        if e1 > 0 {
            lemma_pow2_pos((e1 - 1) as nat);
            assert((pow2(fb) + f1) * pow2((e1 - 1) as nat) < (pow2(fb) + f2) * pow2((e1 - 1) as nat)) by (nonlinear_arith)
                requires
                    f1 < f2,
                    pow2((e1 - 1) as nat) > 0,
            ;
        }
    } else {
        // fp_base(fb, e1, f1) < 2^(fb + e1) <= fp_base(fb, e2, f2)
        lemma_pow2_adds(fb, e1);
        lemma_pow2_adds(fb, (e2 - 1) as nat);
        if e1 > 0 {
            lemma_pow2_unfold(fb + e1);
            lemma_pow2_adds(fb, (e1 - 1) as nat);
            lemma_pow2_unfold(fb + 1);
            lemma_pow2_adds(fb + 1, (e1 - 1) as nat);
            lemma_pow2_pos((e1 - 1) as nat);
            assert((pow2(fb) + f1) * pow2((e1 - 1) as nat) < pow2(fb + 1) * pow2((e1 - 1) as nat)) by (nonlinear_arith)
                requires
                    f1 < pow2(fb),
                    pow2(fb + 1) == 2 * pow2(fb),
                    pow2((e1 - 1) as nat) > 0,
            ;
            assert(fb + 1 + (e1 - 1) == fb + e1);
        } else {
            assert(pow2(fb + 0) == pow2(fb));
        }
        if fb + e1 < fb + (e2 - 1) {
            lemma_pow2_strictly_increases(fb + e1, (fb + (e2 - 1)) as nat);
        }
        lemma_pow2_pos((e2 - 1) as nat);
        assert(pow2(fb) * pow2((e2 - 1) as nat) <= (pow2(fb) + f2) * pow2((e2 - 1) as nat)) by (nonlinear_arith)
            requires
                pow2((e2 - 1) as nat) > 0,
        ;
    }
}

/// The exponent field of a pattern.
pub open spec fn fp_exp(kind: TypedArrayKind, u: nat) -> nat {
    match kind {
        TypedArrayKind::Float16 => f16_exp(u as u16),
        TypedArrayKind::Float32 => f32_exp(u),
        _ => f64_exp(u as u64),
    }
}

/// The fraction field of a pattern.
pub open spec fn fp_frac(kind: TypedArrayKind, u: nat) -> nat {
    match kind {
        TypedArrayKind::Float16 => f16_frac(u as u16),
        TypedArrayKind::Float32 => f32_frac(u),
        _ => f64_frac(u as u64),
    }
}

/// The all-ones exponent field of a kind's format.
pub open spec fn max_exp(kind: TypedArrayKind) -> nat {
    match kind {
        TypedArrayKind::Float16 => 31,
        TypedArrayKind::Float32 => 255,
        _ => 2047,
    }
}

/// How far the smallest subnormal of a kind's format lies above 2^-1074.
pub open spec fn scale_shift(kind: TypedArrayKind) -> nat {
    match kind {
        TypedArrayKind::Float16 => 1050,
        TypedArrayKind::Float32 => 925,
        _ => 0,
    }
}

/// The floating-point kinds, whose patterns these functions read.
pub open spec fn fp_kind(kind: TypedArrayKind) -> bool {
    kind is Float16 || kind is Float32 || kind is Float64
}

/// A pattern of a kind's width splits into sign, exponent and fraction,
/// and a finite one has the magnitude `fp_base` gives, scaled.
proof fn lemma_fp_fields(kind: TypedArrayKind, u: nat)
    requires
        fp_kind(kind),
        u < 2 * sign_unit(kind),
    ensures
        fp_sign(kind, u) <= 1,
        u == fp_sign(kind, u) * sign_unit(kind) + fp_mag(kind, u),
        fp_sign(kind, u) == 1 <==> u >= sign_unit(kind),
        fp_mag(kind, u) == fp_exp(kind, u) * pow2(frac_bits(kind)) + fp_frac(kind, u),
        fp_frac(kind, u) < pow2(frac_bits(kind)),
        fp_exp(kind, u) <= max_exp(kind),
        fp_nan(kind, u) <==> fp_exp(kind, u) == max_exp(kind) && fp_frac(kind, u) != 0,
        fp_infinite(kind, u) <==> fp_exp(kind, u) == max_exp(kind) && fp_frac(kind, u) == 0,
        fp_exp(kind, u) < max_exp(kind) ==> fp_scaled(kind, u) == fp_base(
            frac_bits(kind),
            fp_exp(kind, u),
            fp_frac(kind, u),
        ) * pow2(scale_shift(kind)),
{
    lemma2_to64();
    lemma2_to64_rest();
    let fb = frac_bits(kind);
    let su = sign_unit(kind);
    let e = fp_exp(kind, u);
    let f = fp_frac(kind, u);
    let sh = scale_shift(kind);
    let eb: nat = if kind is Float16 { 32 } else if kind is Float32 { 256 } else { 2048 };
    assert(su == pow2(fb) * eb);
    assert(e == (u / pow2(fb)) % eb);
    assert(f == u % pow2(fb));
    vstd::arithmetic::div_mod::lemma_fundamental_div_mod(u as int, su as int);
    vstd::arithmetic::div_mod::lemma_mod_breakdown(u as int, pow2(fb) as int, eb as int);
    vstd::arithmetic::div_mod::lemma_div_denominator(u as int, pow2(fb) as int, eb as int);
    vstd::arithmetic::div_mod::lemma_mod_bound(u as int, pow2(fb) as int);
    vstd::arithmetic::div_mod::lemma_mod_bound((u / pow2(fb)) as int, eb as int);
    assert(fp_sign(kind, u) == u / su);
    assert(u % su == u % (pow2(fb) * eb));
    assert(pow2(fb) * e == e * pow2(fb)) by (nonlinear_arith);
    assert(fp_mag(kind, u) == e * pow2(fb) + f);
    if e < max_exp(kind) && e > 0 {
        lemma_pow2_adds((e - 1) as nat, sh);
        assert((pow2(fb) + f) * pow2((e - 1) as nat) * pow2(sh) == (pow2(fb) + f) * pow2(((e - 1) + sh) as nat)) by (nonlinear_arith)
            requires
                pow2(((e - 1) + sh) as nat) == pow2((e - 1) as nat) * pow2(sh),
        ;
        if kind is Float16 {
            assert(((e - 1) + sh) as nat == (e + 1049) as nat);
            assert(pow2(fb) == 1024);
            assert(fp_scaled(kind, u) == (1024 + f) * pow2((e + 1049) as nat));
        } else if kind is Float32 {
            assert(((e - 1) + sh) as nat == (e + 924) as nat);
            assert(pow2(fb) == 0x80_0000);
            assert(fp_scaled(kind, u) == (0x80_0000 + f) * pow2((e + 924) as nat));
        } else {
            assert(pow2(0) == 1);
            assert(pow2(fb) == 0x10_0000_0000_0000);
            assert(((e - 1) + sh) as nat == (e - 1) as nat);
            assert(fp_scaled(kind, u) == (0x10_0000_0000_0000 + f) * pow2((e - 1) as nat));
        }
    }
    if e == 0 {
        assert(pow2(0) == 1);
        if kind is Float16 {
            assert(fp_scaled(kind, u) == f * pow2(1050));
        } else if kind is Float32 {
            assert(fp_scaled(kind, u) == f * pow2(925));
        } else {
            assert(fp_scaled(kind, u) == f);
            assert(f * pow2(0) == f);
        }
    }
}

/// The magnitude a non-NaN pattern stands for, an infinity above every
/// finite one.
pub open spec fn fp_magnitude(kind: TypedArrayKind, u: nat) -> nat {
    if fp_infinite(kind, u) {
        pow2(2100)
    } else {
        fp_scaled(kind, u)
    }
}

/// A finite pattern stands for less than 2^2100 (times 2^-1074).
proof fn lemma_finite_below(kind: TypedArrayKind, u: nat)
    requires
        fp_kind(kind),
        u < 2 * sign_unit(kind),
        fp_exp(kind, u) < max_exp(kind),
    ensures
        fp_scaled(kind, u) < pow2(2100),
{
    lemma_fp_fields(kind, u);
    lemma2_to64();
    let fb = frac_bits(kind);
    let mx = max_exp(kind);
    let sh = scale_shift(kind);
    lemma_base_monotone(fb, fp_exp(kind, u), fp_frac(kind, u), mx, 0);
    // fp_base(fb, mx, 0) * 2^sh == 2^(fb + mx - 1 + sh) <= 2^2100
    lemma_pow2_adds(fb, (mx - 1) as nat);
    lemma_pow2_adds((fb + (mx - 1)) as nat, sh);
    let top = (fb + (mx - 1) + sh) as nat;
    assert(top <= 2100);
    if top < 2100 {
        lemma_pow2_strictly_increases(top, 2100);
    }
    lemma_pow2_pos(sh);
    let b = fp_base(fb, fp_exp(kind, u), fp_frac(kind, u));
    assert(fp_base(fb, mx, 0) == pow2(fb) * pow2((mx - 1) as nat));
    assert(b * pow2(sh) < fp_base(fb, mx, 0) * pow2(sh)) by (nonlinear_arith)
        requires
            b < fp_base(fb, mx, 0),
            pow2(sh) > 0,
    ;
}

/// Among patterns that are not NaNs, a larger magnitude field stands for a
/// larger magnitude.
proof fn lemma_mag_monotone(kind: TypedArrayKind, a: nat, b: nat)
    requires
        fp_kind(kind),
        a < 2 * sign_unit(kind),
        b < 2 * sign_unit(kind),
        !fp_nan(kind, a),
        !fp_nan(kind, b),
        fp_mag(kind, a) < fp_mag(kind, b),
    ensures
        fp_magnitude(kind, a) < fp_magnitude(kind, b),
{
    lemma_fp_fields(kind, a);
    lemma_fp_fields(kind, b);
    let fb = frac_bits(kind);
    let ea = fp_exp(kind, a);
    let eb = fp_exp(kind, b);
    let fa = fp_frac(kind, a);
    let f_b = fp_frac(kind, b);
    lemma_pow2_pos(fb);
    // the magnitude fields order the (exponent, fraction) pairs
    assert(ea < eb || (ea == eb && fa < f_b)) by {
        if ea > eb {
            assert(ea * pow2(fb) >= (eb + 1) * pow2(fb)) by (nonlinear_arith)
                requires
                    ea >= eb + 1,
                    pow2(fb) > 0,
            ;
            assert((eb + 1) * pow2(fb) == eb * pow2(fb) + pow2(fb)) by (nonlinear_arith);
        } else if ea == eb {
        }
    }
    if fp_infinite(kind, b) {
        assert(!fp_infinite(kind, a));
        lemma_finite_below(kind, a);
    } else {
        assert(!fp_infinite(kind, a));
        lemma_base_monotone(fb, ea, fa, eb, f_b);
        lemma_pow2_pos(scale_shift(kind));
        let x = fp_base(fb, ea, fa);
        let y = fp_base(fb, eb, f_b);
        assert(x * pow2(scale_shift(kind)) < y * pow2(scale_shift(kind))) by (nonlinear_arith)
            requires
                x < y,
                pow2(scale_shift(kind)) > 0,
        ;
    }
}

/// On patterns that are not NaNs the order of the bits is the numeric
/// order with `-0` before `+0`, and two patterns share a place only when
/// they are the same pattern.
pub proof fn lemma_rank_order(kind: TypedArrayKind, a: nat, b: nat)
    requires
        fp_kind(kind),
        a < 2 * sign_unit(kind),
        b < 2 * sign_unit(kind),
        !fp_nan(kind, a),
        !fp_nan(kind, b),
    ensures
        fp_bit_rank(kind, a) < fp_bit_rank(kind, b) <==> fp_rank(kind, a) < fp_rank(kind, b),
        fp_bit_rank(kind, a) == fp_bit_rank(kind, b) <==> a == b,
        fp_rank(kind, a) == fp_rank(kind, b) <==> a == b,
{
    lemma_fp_fields(kind, a);
    lemma_fp_fields(kind, b);
    let ma = fp_mag(kind, a);
    let mb = fp_mag(kind, b);
    if ma < mb {
        lemma_mag_monotone(kind, a, b);
    } else if mb < ma {
        lemma_mag_monotone(kind, b, a);
    }
}

} // verus!

//! ToBigInt64: the conversion of a value to a 64-bit two's-complement
//! integer that BigInt64 / BigUint64 arrays and Atomics store, including
//! StringToBigInt for string arguments.
use crate::byte_codec::{le_value, lemma_le_value_bound, lemma_pow256_values, pow256, read_uint};
use crate::error::ErrorKind;
use crate::string_trim::{es_trim, spec_trim};
use crate::typed_array::to_signed;
use vstd::arithmetic::div_mod::{lemma_add_mod_noop, lemma_mul_mod_noop_left, lemma_mod_bound};
use vstd::prelude::*;

verus! {

#[verifier::external_type_specification]
#[verifier::external_body]
pub struct ExBigInt(num_bigint::BigInt);

/// 2^64.
pub open spec fn two_pow_64() -> int {
    18446744073709551616
}

/// `x` modulo 2^64, read as a signed 64-bit value.
pub open spec fn wrap_i64(x: int) -> int {
    to_signed((x % two_pow_64()) as nat, 8)
}

/// `BigInt::to_bytes_le`: whether the value is negative, and its magnitude
/// as little-endian bytes (`[0]` for zero, so never empty). That the pair is
/// the sign and magnitude of `b` is left unsaid: a `BigInt` is opaque here
/// and has no view to state it over, so only the length is claimed.
#[verifier::external_body]
fn bigint_to_bytes_le(b: &num_bigint::BigInt) -> (r: (bool, Vec<u8>))
    ensures
        r.1@.len() >= 1,
{
    let (sign, bytes) = b.to_bytes_le();
    match sign {
        num_bigint::Sign::Minus => (true, bytes),
        num_bigint::Sign::NoSign => (false, bytes),
        num_bigint::Sign::Plus => (false, bytes),
    }
}

/// The low 64 bits of an unsigned value, read as signed.
fn signed_from_bits(u: u64) -> (r: i64)
    ensures
        r == to_signed(u as nat, 8),
{
    proof {
        lemma_pow256_values();
    }
    if u >= 0x8000_0000_0000_0000 {
        (u - 0x8000_0000_0000_0000) as i64 - 0x7FFF_FFFF_FFFF_FFFF - 1
    } else {
        u as i64
    }
}

proof fn lemma_le_split(b: Seq<u8>, n: nat)
    requires
        n <= b.len(),
    ensures
        le_value(b) == le_value(b.take(n as int)) + pow256(n) * le_value(b.skip(n as int)),
    decreases n,
{
    if n == 0 {
        assert(b.take(0) =~= Seq::<u8>::empty());
        assert(b.skip(0) =~= b);
        assert(le_value(b.take(0)) == 0);
        assert(pow256(0) == 1);
        assert(1 * le_value(b) == le_value(b));
    } else {
        let d = b.drop_first();
        lemma_le_split(d, (n - 1) as nat);
        assert(b.take(n as int).drop_first() =~= d.take(n - 1));
        assert(d.skip(n - 1) =~= b.skip(n as int));
        let x = le_value(d.skip(n - 1));
        let p = pow256((n - 1) as nat);
        let t = b.take(n as int);
        assert(le_value(b) == b[0] + 256 * le_value(d));
        assert(t[0] == b[0]);
        assert(le_value(t) == t[0] + 256 * le_value(t.drop_first()));
        assert(pow256(n) == 256 * p);
        assert(256 * (p * x) == (256 * p) * x) by (nonlinear_arith);
        assert(le_value(d) == le_value(d.take(n - 1)) + p * x);
        assert(le_value(t.drop_first()) == le_value(d.take(n - 1)));
        assert(le_value(b) == le_value(t) + 256 * (p * x));
    }
}

/// A BigInt modulo 2^64 as a signed value, from its sign and the
/// little-endian bytes of its magnitude.
pub fn i64_from_sign_magnitude(negative: bool, magnitude: &Vec<u8>) -> (r: i64)
    ensures
        r == wrap_i64(
            if negative {
                -(le_value(magnitude@) as int)
            } else {
                le_value(magnitude@) as int
            },
        ),
{
    proof {
        lemma_pow256_values();
    }
    let n = if magnitude.len() < 8 {
        magnitude.len()
    } else {
        8
    };
    let low: u64 = if n == 0 {
        0
    } else {
        read_uint(magnitude, 0, n, true)
    };
    proof {
        let b = magnitude@;
        let v = le_value(b) as int;
        if n == 0 {
            assert(b =~= Seq::<u8>::empty());
        } else {
            assert(b.subrange(0, n as int) =~= b.take(n as int));
        }
        lemma_le_split(b, n as nat);
        lemma_le_value_bound(b.take(n as int));
        if n < 8 {
            assert(b.skip(n as int) =~= Seq::<u8>::empty());
            assert(le_value(b.skip(n as int)) == 0);
            assert(pow256(n as nat) * 0 == 0) by (nonlinear_arith);
            assert(low as int == v);
        } else {
            let hi = le_value(b.skip(8));
            assert(v == low + two_pow_64() * hi);
            vstd::arithmetic::div_mod::lemma_mod_multiples_vanish(hi as int, low as int, two_pow_64());
        }
        assert(low as int == v % two_pow_64());
    }
    let bits: u64 = if negative {
        if low == 0 {
            0
        } else {
            (0xFFFF_FFFF_FFFF_FFFFu64 - low) + 1
        }
    } else {
        low
    };
    proof {
        let v = le_value(magnitude@) as int;
        if negative {
            if low == 0 {
                lemma_neg_mod_zero(v);
            } else {
                lemma_neg_mod(v, low as int);
            }
        }
        lemma_mod_bound(v, two_pow_64());
    }
    signed_from_bits(bits)
}

proof fn lemma_neg_mod_zero(v: int)
    requires
        v % two_pow_64() == 0,
    ensures
        (-v) % two_pow_64() == 0,
{
    vstd::arithmetic::div_mod::lemma_fundamental_div_mod(v, two_pow_64());
    let q = v / two_pow_64();
    assert(-v == (-q) * two_pow_64()) by (nonlinear_arith)
        requires
            v == two_pow_64() * q,
    ;
    vstd::arithmetic::div_mod::lemma_mod_multiples_basic(-q, two_pow_64());
}

proof fn lemma_neg_mod(v: int, low: int)
    requires
        low == v % two_pow_64(),
        low != 0,
    ensures
        (-v) % two_pow_64() == two_pow_64() - low,
{
    vstd::arithmetic::div_mod::lemma_fundamental_div_mod(v, two_pow_64());
    let q = v / two_pow_64();
    lemma_mod_bound(v, two_pow_64());
    assert(-v == (-q - 1) * two_pow_64() + (two_pow_64() - low)) by (nonlinear_arith)
        requires
            v == two_pow_64() * q + low,
    ;
    vstd::arithmetic::div_mod::lemma_mod_multiples_vanish(-q - 1, two_pow_64() - low, two_pow_64());
    vstd::arithmetic::div_mod::lemma_small_mod((two_pow_64() - low) as nat, two_pow_64() as nat);
}

/// The value of a digit in `radix` (at most 16).
pub open spec fn digit_value(c: u16, radix: nat) -> Option<nat> {
    let d: int = if 48 <= c <= 57 {
        c - 48
    } else if 97 <= c <= 102 {
        c - 87
    } else if 65 <= c <= 70 {
        c - 55
    } else {
        radix as int
    };
    if d < radix {
        Some(d as nat)
    } else {
        None
    }
}

/// Every unit of `ds` is a digit in `radix`.
pub open spec fn all_digits(ds: Seq<u16>, radix: nat) -> bool {
    forall|i: int| 0 <= i < ds.len() ==> (#[trigger] digit_value(ds[i], radix)) is Some
}

/// The number the digits `ds` write in `radix`.
pub open spec fn digits_value(ds: Seq<u16>, radix: nat) -> int
    decreases ds.len(),
{
    if ds.len() == 0 {
        0
    } else {
        digits_value(ds.drop_last(), radix) * radix + match digit_value(ds.last(), radix) {
            Some(d) => d as int,
            None => 0,
        }
    }
}

/// A digit string in `radix`: its value, or `None` when it is empty or
/// holds a non-digit.
pub open spec fn parse_digits(ds: Seq<u16>, radix: nat) -> Option<int> {
    if ds.len() > 0 && all_digits(ds, radix) {
        Some(digits_value(ds, radix))
    } else {
        None
    }
}

/// StringToBigInt: white space around the literal is ignored; an empty
/// string is 0; `0x`, `0o` and `0b` (either case) take hexadecimal, octal
/// and binary digits; otherwise an optional sign and decimal digits.
/// `None` is a SyntaxError.
pub open spec fn spec_string_to_bigint(s: Seq<u16>) -> Option<int> {
    let t = spec_trim(s);
    if t.len() == 0 {
        Some(0)
    } else if t.len() >= 2 && t[0] == 48 && (t[1] == 120 || t[1] == 88) {
        parse_digits(t.skip(2), 16)
    } else if t.len() >= 2 && t[0] == 48 && (t[1] == 111 || t[1] == 79) {
        parse_digits(t.skip(2), 8)
    } else if t.len() >= 2 && t[0] == 48 && (t[1] == 98 || t[1] == 66) {
        parse_digits(t.skip(2), 2)
    } else if t[0] == 45 {
        match parse_digits(t.skip(1), 10) {
            Some(v) => Some(-v),
            None => None,
        }
    } else if t[0] == 43 {
        parse_digits(t.skip(1), 10)
    } else {
        parse_digits(t, 10)
    }
}

fn digit_of(c: u16, radix: u64) -> (r: Option<u64>)
    requires
        2 <= radix <= 16,
    ensures
        match digit_value(c, radix as nat) {
            Some(d) => r == Some(d as u64),
            None => r is None,
        },
{
    let d: u64 = if 48 <= c && c <= 57 {
        (c - 48) as u64
    } else if 97 <= c && c <= 102 {
        (c - 87) as u64
    } else if 65 <= c && c <= 70 {
        (c - 55) as u64
    } else {
        radix
    };
    if d < radix {
        Some(d)
    } else {
        None
    }
}

/// The digits of `s` from `start` in `radix`, modulo 2^64; `None` when
/// there are none or one is not a digit.
fn digits_mod(s: &Vec<u16>, start: usize, radix: u64) -> (r: Option<u64>)
    requires
        2 <= radix <= 16,
        start <= s@.len(),
    ensures
        match parse_digits(s@.skip(start as int), radix as nat) {
            Some(v) => r == Some((v % two_pow_64()) as u64),
            None => r is None,
        },
{
    let ghost ds = s@.skip(start as int);
    if start >= s.len() {
        return None;
    }
    let mut acc: u64 = 0;
    let mut i: usize = start;
    while i < s.len()
        invariant
            start <= i <= s@.len(),
            2 <= radix <= 16,
            ds == s@.skip(start as int),
            all_digits(ds.take(i - start), radix as nat),
            acc as int == digits_value(ds.take(i - start), radix as nat) % two_pow_64(),
        decreases s@.len() - i,
    {
        let d = match digit_of(s[i], radix) {
            Some(d) => d,
            None => {
                proof {
                    assert(ds[i - start] == s@[i as int]);
                    assert(digit_value(ds[i - start], radix as nat) is None);
                }
                return None;
            },
        };
        proof {
            let p = ds.take(i - start);
            let q = ds.take(i + 1 - start);
            assert(q.drop_last() =~= p);
            assert(q.last() == s@[i as int]);
            let a = digits_value(p, radix as nat);
            lemma_mul_mod_noop_left(a, radix as int, two_pow_64());
            lemma_add_mod_noop(a * radix, d as int, two_pow_64());
            lemma_add_mod_noop((a % two_pow_64()) * radix, d as int, two_pow_64());
            lemma_mod_bound(a, two_pow_64());
            assert forall|k: int| 0 <= k < q.len() implies (#[trigger] digit_value(
                q[k],
                radix as nat,
            )) is Some by {
                if k < p.len() {
                    assert(q[k] == p[k]);
                }
            }
        }
        assert((acc as u128) * (radix as u128) <= 0xFFFF_FFFF_FFFF_FFFFu128 * 16) by (nonlinear_arith)
            requires
                acc <= 0xFFFF_FFFF_FFFF_FFFFu64,
                radix <= 16,
        ;
        let t: u128 = acc as u128 * radix as u128 + d as u128;
        acc = (t % 18446744073709551616u128) as u64;
        i = i + 1;
    }
    proof {
        assert(ds.take(i - start) =~= ds);
    }
    Some(acc)
}

/// StringToBigInt of `s`, modulo 2^64 as a signed value; `None` for a
/// SyntaxError.
pub fn string_to_bigint_i64(s: &[u16]) -> (r: Option<i64>)
    ensures
        match spec_string_to_bigint(s@) {
            Some(v) => r == Some(wrap_i64(v) as i64),
            None => r is None,
        },
{
    let t = es_trim(s);
    proof {
        lemma_pow256_values();
    }
    if t.len() == 0 {
        return Some(0);
    }
    let two = t.len() >= 2 && t[0] == 48;
    let (start, radix, negative): (usize, u64, bool) = if two && (t[1] == 120 || t[1] == 88) {
        (2, 16, false)
    } else if two && (t[1] == 111 || t[1] == 79) {
        (2, 8, false)
    } else if two && (t[1] == 98 || t[1] == 66) {
        (2, 2, false)
    } else if t[0] == 45 {
        (1, 10, true)
    } else if t[0] == 43 {
        (1, 10, false)
    } else {
        (0, 10, false)
    };
    proof {
        assert(t@.skip(0) =~= t@);
    }
    let low = match digits_mod(&t, start, radix) {
        Some(v) => v,
        None => return None,
    };
    let bits: u64 = if negative && low != 0 {
        (0xFFFF_FFFF_FFFF_FFFFu64 - low) + 1
    } else {
        low
    };
    proof {
        let v = digits_value(t@.skip(start as int), radix as nat);
        if negative {
            if low == 0 {
                lemma_neg_mod_zero(v);
            } else {
                lemma_neg_mod(v, low as int);
            }
        }
        lemma_mod_bound(v, two_pow_64());
    }
    Some(signed_from_bits(bits))
}

/// The value ToBigInt64 converts, after ToPrimitive. A BigInt is held as
/// its sign and the little-endian bytes of its magnitude (see
/// `bigint_arg`).
pub enum BigIntArg {
    BigInt { negative: bool, magnitude: Vec<u8> },
    Boolean(bool),
    String(Vec<u16>),
    Number,
    Symbol,
    Undefined,
    Null,
    /// Any other value.
    Other,
}

/// A BigInt as ToBigInt64's argument: its sign and the little-endian bytes
/// of its magnitude, as `BigInt::to_bytes_le` gives them.
pub fn bigint_arg(b: &num_bigint::BigInt) -> (r: BigIntArg)
    ensures
        r matches BigIntArg::BigInt { magnitude, .. } && magnitude@.len() >= 1,
{
    let (negative, magnitude) = bigint_to_bytes_le(b);
    BigIntArg::BigInt { negative, magnitude }
}

/// ToBigInt64: a BigInt modulo 2^64, a boolean as 0 or 1, a string through
/// StringToBigInt (SyntaxError when it is not a BigInt literal); any other
/// value is a TypeError.
pub fn to_bigint_i64(arg: &BigIntArg) -> (r: Result<i64, ErrorKind>)
    ensures
        match arg {
            BigIntArg::BigInt { negative, magnitude } => r == Ok::<i64, ErrorKind>(
                wrap_i64(
                    if *negative {
                        -(le_value(magnitude@) as int)
                    } else {
                        le_value(magnitude@) as int
                    },
                ) as i64,
            ),
            BigIntArg::Boolean(b) => r == Ok::<i64, ErrorKind>(
                if *b {
                    1
                } else {
                    0
                },
            ),
            BigIntArg::String(s) => match spec_string_to_bigint(s@) {
                Some(v) => r == Ok::<i64, ErrorKind>(wrap_i64(v) as i64),
                None => r == Err::<i64, ErrorKind>(ErrorKind::SyntaxError),
            },
            _ => r == Err::<i64, ErrorKind>(ErrorKind::TypeError),
        },
{
    match arg {
        BigIntArg::BigInt { negative, magnitude } => Ok(i64_from_sign_magnitude(*negative, magnitude)),
        BigIntArg::Boolean(b) => Ok(
            if *b {
                1
            } else {
                0
            },
        ),
        BigIntArg::String(s) => match string_to_bigint_i64(s.as_slice()) {
            Some(v) => Ok(v),
            None => Err(ErrorKind::SyntaxError),
        },
        _ => Err(ErrorKind::TypeError),
    }
}

} // verus!

//! What becomes of an element that the engine reads as a Number and stores
//! back into an element of the same kind, as `reverse`, `copyWithin` and
//! `toReversed` do; `slice` and `with` read the BigInt kinds as BigInts,
//! which keeps them as they are.
//!
//! An integer element of at most 32 bits and a Float64 element come back
//! unchanged. A binary16 NaN comes back as the quiet NaN of its sign. A
//! binary32 NaN comes back as some NaN: a float conversion does not fix
//! the payload and sign of a NaN. A 64-bit element is rounded to the
//! nearest double (ties to even) and converted back, saturating.
use crate::atomics_int::{round_to_double, round_to_double_exact, signed_round_to_double};
use crate::byte_codec::{bytes_value, encode, lemma_pow256_values, pow256, read_uint};
use crate::typed_array::{TypedArrayKind, spec_element_size, spec_is_bigint_kind, to_signed, to_unsigned};
use crate::typed_array_copy::element_of;
use vstd::prelude::*;

verus! {

/// The binary32 pattern `u` is a NaN.
pub open spec fn f32_is_nan(u: nat) -> bool {
    (u / 0x80_0000) % 0x100 == 0xFF && u % 0x80_0000 != 0
}

/// The binary16 pattern `u` is a NaN.
pub open spec fn f16_is_nan(u: nat) -> bool {
    (u / 0x400) % 0x20 == 0x1F && u % 0x400 != 0
}

/// A whole number converted to `i64`, saturating.
pub open spec fn saturate_i64(x: int) -> int {
    if x > i64::MAX {
        i64::MAX as int
    } else if x < i64::MIN {
        i64::MIN as int
    } else {
        x
    }
}

/// A whole number converted to `u64`, saturating.
pub open spec fn saturate_u64(x: nat) -> nat {
    if x > u64::MAX {
        u64::MAX as nat
    } else {
        x
    }
}

/// `dst` is what an element of `kind` holding `src` may hold after the
/// element is read as a Number and the Number stored back.
pub open spec fn through_number(kind: TypedArrayKind, src: Seq<u8>, dst: Seq<u8>) -> bool {
    let u = bytes_value(src, true);
    match kind {
        TypedArrayKind::Float16 => if f16_is_nan(u) {
            dst == encode((u / 0x8000) * 0x8000 + 0x7E00, 2, true)
        } else {
            dst == src
        },
        TypedArrayKind::Float32 => if f32_is_nan(u) {
            dst.len() == 4 && f32_is_nan(bytes_value(dst, true))
        } else {
            dst == src
        },
        TypedArrayKind::BigInt64 => dst == encode(
            to_unsigned(saturate_i64(signed_round_to_double(to_signed(u, 8))), 8),
            8,
            true,
        ),
        TypedArrayKind::BigUint64 => dst == encode(saturate_u64(round_to_double(u)), 8, true),
        _ => dst == src,
    }
}

/// `dst` is what an element of `kind` holding `src` may hold after the
/// element is read as a value (a BigInt for the BigInt kinds, else a
/// Number) and the value stored back.
pub open spec fn through_value(kind: TypedArrayKind, src: Seq<u8>, dst: Seq<u8>) -> bool {
    if spec_is_bigint_kind(kind) {
        dst == src
    } else {
        through_number(kind, src, dst)
    }
}

/// Each element of `dst` is what the element of `src` at its place becomes
/// through a Number.
pub open spec fn each_through_number(kind: TypedArrayKind, src: Seq<Seq<u8>>, dst: Seq<Seq<u8>>) -> bool {
    &&& src.len() == dst.len()
    &&& forall|i: int| #![trigger dst[i]] 0 <= i < src.len() ==> through_number(kind, src[i], dst[i])
}

/// Each element of `dst` is what the element of `src` at its place becomes
/// through a value.
pub open spec fn each_through_value(kind: TypedArrayKind, src: Seq<Seq<u8>>, dst: Seq<Seq<u8>>) -> bool {
    &&& src.len() == dst.len()
    &&& forall|i: int| #![trigger dst[i]] 0 <= i < src.len() ==> through_value(kind, src[i], dst[i])
}

/// `new` holds the elements of `old` in reverse order, each element that
/// changes place going through a Number; the middle element of an odd
/// count stays where it is, untouched.
pub open spec fn reversed_through_number(kind: TypedArrayKind, old: Seq<Seq<u8>>, new: Seq<Seq<u8>>) -> bool {
    &&& new.len() == old.len()
    &&& forall|k: int|
        #![trigger new[k]]
        0 <= k < old.len() ==> if 2 * k + 1 == old.len() {
            new[k] == old[k]
        } else {
            through_number(kind, old[old.len() - 1 - k], new[k])
        }
}

/// `new` is `old` with the `count` elements from `start` on copied, each
/// through a Number, to the places from `target` on.
pub open spec fn copied_through_number(
    kind: TypedArrayKind,
    old: Seq<Seq<u8>>,
    target: int,
    start: int,
    count: int,
    new: Seq<Seq<u8>>,
) -> bool {
    &&& new.len() == old.len()
    &&& forall|k: int|
        #![trigger new[k]]
        0 <= k < old.len() ==> if target <= k < target + count {
            through_number(kind, old[start + k - target], new[k])
        } else {
            new[k] == old[k]
        }
}

/// For the integer kinds of at most 32 bits an element comes back as it
/// was, through a Number or a value.
pub proof fn lemma_exact_kind_unchanged(kind: TypedArrayKind, src: Seq<u8>, dst: Seq<u8>)
    requires
        crate::typed_array_methods::spec_exact_kind(kind),
    ensures
        through_number(kind, src, dst) <==> dst == src,
        through_value(kind, src, dst) <==> dst == src,
{
}

/// For the integer kinds of at most 32 bits `reverse` reverses exactly.
pub proof fn lemma_exact_kind_reversed(kind: TypedArrayKind, old: Seq<Seq<u8>>, new: Seq<Seq<u8>>)
    requires
        crate::typed_array_methods::spec_exact_kind(kind),
    ensures
        reversed_through_number(kind, old, new) <==> new == old.reverse(),
{
    if reversed_through_number(kind, old, new) {
        assert forall|k: int| 0 <= k < old.len() implies new[k] == old.reverse()[k] by {
            assert(new[k] == new[k]);
        }
        assert(new =~= old.reverse());
    }
    if new == old.reverse() {
        assert forall|k: int| 0 <= k < old.len() implies (if 2 * k + 1 == old.len() {
            new[k] == old[k]
        } else {
            through_number(kind, old[old.len() - 1 - k], new[k])
        }) by {
            assert(new[k] == old[old.len() - 1 - k]);
        }
    }
}

/// The element an element of `kind` holding `src` becomes after a round
/// trip through a Number (a binary32 NaN is kept as it is, one of the NaNs
/// the engine may produce).
pub fn round_trip_number(kind: TypedArrayKind, src: &Vec<u8>) -> (r: Vec<u8>)
    requires
        src@.len() == spec_element_size(kind),
    ensures
        through_number(kind, src@, r@),
{
    proof {
        lemma_pow256_values();
    }
    match kind {
        TypedArrayKind::Float16 => {
            let u = read_uint(src, 0, 2, true);
            assert(src@.subrange(0, 2) =~= src@);
            if (u / 0x400) % 0x20 == 0x1F && u % 0x400 != 0 {
                element_of((u / 0x8000) * 0x8000 + 0x7E00, 2)
            } else {
                src.clone()
            }
        },
        TypedArrayKind::BigInt64 => {
            let u = read_uint(src, 0, 8, true);
            assert(src@.subrange(0, 8) =~= src@);
            let sat: i128 = if u >= 0x8000_0000_0000_0000 {
                let mag: u64 = ((0x1_0000_0000_0000_0000u128 - u as u128) as u64);
                let r = round_to_double_exact(mag);
                let neg: i128 = -(r as i128);
                if neg < -0x8000_0000_0000_0000 {
                    -0x8000_0000_0000_0000
                } else {
                    neg
                }
            } else {
                let r = round_to_double_exact(u);
                if r > 0x7FFF_FFFF_FFFF_FFFF {
                    0x7FFF_FFFF_FFFF_FFFF
                } else {
                    r as i128
                }
            };
            let bits: u64 = if sat < 0 {
                (sat + 0x1_0000_0000_0000_0000) as u64
            } else {
                sat as u64
            };
            element_of(bits, 8)
        },
        TypedArrayKind::BigUint64 => {
            let u = read_uint(src, 0, 8, true);
            assert(src@.subrange(0, 8) =~= src@);
            let r = round_to_double_exact(u);
            let bits: u64 = if r > 0xFFFF_FFFF_FFFF_FFFF {
                0xFFFF_FFFF_FFFF_FFFF
            } else {
                r as u64
            };
            element_of(bits, 8)
        },
        _ => src.clone(),
    }
}

/// The element an element of `kind` holding `src` becomes after a round
/// trip through a value (see `through_value`).
pub fn round_trip_value(kind: TypedArrayKind, src: &Vec<u8>) -> (r: Vec<u8>)
    requires
        src@.len() == spec_element_size(kind),
    ensures
        through_value(kind, src@, r@),
{
    match kind {
        TypedArrayKind::BigInt64 | TypedArrayKind::BigUint64 => src.clone(),
        _ => round_trip_number(kind, src),
    }
}

} // verus!

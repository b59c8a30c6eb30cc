//! `Atomics.load` and `Atomics.store`, and Atomics read-modify-write and
//! compareExchange on the integer kinds of at most 32 bits. The engine computes these through Numbers: the element
//! and the operand become 64-bit integers, the result becomes a Number
//! again (rounded to a double when it is not exactly one) and is stored
//! through ToInt32. Here the same results are computed on integers.
use crate::byte_codec::{bytes_value, encode, lemma_decode_encode, lemma_le_value_bound, lemma_pow256_values, pow256, read_uint, write_uint};
use crate::half::round_half_even;
use crate::number_bits::{js_to_int32_bits, spec_to_i64_saturating, spec_to_int32, to_i64_saturating_bits};
use crate::error::ErrorKind;
use crate::typed_array::{
    JSArrayBuffer, JSTypedArray, TypedArrayKind, is_bigint_typed_array, spec_element_size, spec_is_bigint_kind,
    spec_is_valid_atomic_kind, to_signed,
};
use crate::typed_array_copy::{spec_value_pattern, ElementValue};
use crate::typed_array_methods::overwrite;
use crate::typed_array_ops::{
    spec_atomic_length, spec_current_length, spec_out_of_bounds, spec_to_index, validate_atomic_access,
    validate_integer_typed_array, IndexArg,
};
use crate::typed_array_search::lemma_element_inside;
use crate::typed_array_elements::{number_to_element_bits, spec_element_bits};
use crate::typed_array_methods::spec_exact_kind;
use crate::typed_array_ops::{
    AtomicOp, atomic_bigint_update, element_position, spec_atomic_update, spec_is_valid_integer_index,
};
use crate::typed_array_search::{element_int, spec_signed_kind};
use vstd::arithmetic::div_mod::{lemma_fundamental_div_mod, lemma_fundamental_div_mod_converse, lemma_mod_pos_bound};
use vstd::arithmetic::power2::{
    lemma2_to64, lemma2_to64_rest, lemma_pow2_adds, lemma_pow2_pos, lemma_pow2_strictly_increases,
    lemma_pow2_unfold, pow2,
};
use vstd::prelude::*;

verus! {

/// How many low bits a whole number has beyond the 53 a double holds.
pub open spec fn excess_bits(x: nat) -> nat
    decreases x,
{
    if x < 0x20_0000_0000_0000 {
        0
    } else {
        1 + excess_bits(x / 2)
    }
}

/// The double nearest to the whole number `x` (ties to even), itself a
/// whole number.
pub open spec fn round_to_double(x: nat) -> nat {
    let k = excess_bits(x);
    round_half_even(x, pow2(k)) * pow2(k)
}

/// `n` converted to a double, with its sign.
pub open spec fn signed_round_to_double(n: int) -> int {
    if n < 0 {
        -(round_to_double((-n) as nat) as int)
    } else {
        round_to_double(n as nat) as int
    }
}

/// The bits an element of a kind of `es` bytes holds after the engine
/// stores the whole number `n` through a double and ToInt32.
pub open spec fn stored_through_double(n: int, es: nat) -> nat {
    (signed_round_to_double(n) % (pow256(es) as int)) as nat
}

proof fn lemma_excess_bits(x: nat, k: nat)
    requires
        x < pow2(53 + k),
    ensures
        excess_bits(x) <= k,
        x >= 0x20_0000_0000_0000 ==> x >= pow2(52 + excess_bits(x)) && x < pow2(53 + excess_bits(x)),
        x < 0x20_0000_0000_0000 ==> excess_bits(x) == 0,
    decreases k,
{
    lemma2_to64();
    lemma2_to64_rest();
    if x >= 0x20_0000_0000_0000 {
        assert(k > 0) by {
            if k == 0 {
                assert(pow2(53) == 0x20_0000_0000_0000);
            }
        }
        lemma_pow2_unfold(53 + k);
        lemma_excess_bits(x / 2, (k - 1) as nat);
        let e = excess_bits(x / 2);
        lemma_pow2_unfold(53 + e + 1);
        lemma_pow2_unfold(52 + e + 1);
        if x / 2 >= 0x20_0000_0000_0000 {
        } else {
            assert(e == 0);
            assert(pow2(52) == 0x10_0000_0000_0000);
        }
    }
}

/// `round_to_double(x)` for a magnitude below 2^64 (at most 2^64).
pub(crate) fn round_to_double_exact(x: u64) -> (r: u128)
    ensures
        r == round_to_double(x as nat),
        r <= 0x1_0000_0000_0000_0000,
{
    proof {
        lemma2_to64();
        lemma2_to64_rest();
        lemma_excess_bits(x as nat, 11);
    }
    let mut k: u64 = 0;
    let mut y: u64 = x;
    while y >= 0x20_0000_0000_0000
        invariant
            k <= 11,
            y == x as nat / pow2(k as nat),
            excess_bits(x as nat) == k + excess_bits(y as nat),
            excess_bits(x as nat) <= 11,
        decreases y,
    {
        proof {
            lemma_pow2_pos(k as nat);
            lemma_pow2_unfold((k + 1) as nat);
            vstd::arithmetic::div_mod::lemma_div_denominator(x as int, pow2(k as nat) as int, 2);
        }
        y = y / 2;
        k = k + 1;
    }
    assert(excess_bits(y as nat) == 0);
    if k == 0 {
        proof {
            assert(pow2(0) == 1);
            lemma_fundamental_div_mod_converse(x as int, 1int, x as int, 0int);
        }
        return x as u128;
    }
    let ghost d = pow2(k as nat);
    let q: u64 = round_shift_small(x, k);
    proof {
        lemma_pow2_pos(k as nat);
        assert(q <= 0x20_0000_0000_0000) by {
            assert(x < pow2(64));
            lemma_pow2_adds(53, k as nat);
            assert(x < pow2(53) * d) by {
                if 53 + k < 64 {
                    lemma_pow2_strictly_increases((53 + k) as nat, 64);
                }
            }
            vstd::arithmetic::div_mod::lemma_fundamental_div_mod(x as int, d as int);
            lemma_mod_pos_bound(x as int, d as int);
            let qq = x as nat / d;
            assert(qq < pow2(53)) by (nonlinear_arith)
                requires
                    x as nat == d * qq + (x as nat) % d,
                    (x as nat) % d >= 0,
                    x < pow2(53) * d,
                    d > 0,
            ;
        }
    }
    let dk: u64 = 1u64 << k;
    proof {
        vstd::bits::lemma_u64_pow2_no_overflow(k as nat);
        vstd::bits::lemma_u64_shl_is_mul(1, k);
        assert(excess_bits(x as nat) == k);
        if k < 11 {
            lemma_pow2_strictly_increases(k as nat, 11);
        }
        assert(q as u128 * dk as u128 <= 0x20_0000_0000_0000 * 2048) by (nonlinear_arith)
            requires
                q <= 0x20_0000_0000_0000,
                dk <= 2048,
        ;
    }
    q as u128 * dk as u128
}

/// `round_to_double(x) mod 2^32` for a magnitude below 2^64.
fn round_to_double_low32(x: u64) -> (r: u64)
    ensures
        r == round_to_double(x as nat) % 0x1_0000_0000,
{
    (round_to_double_exact(x) % 0x1_0000_0000) as u64
}

/// `m / 2^t` rounded to nearest, ties to even, for `t` up to 11.
fn round_shift_small(m: u64, t: u64) -> (r: u64)
    requires
        1 <= t <= 11,
    ensures
        r == round_half_even(m as nat, pow2(t as nat)),
{
    let d: u64 = 1u64 << t;
    proof {
        vstd::bits::lemma_u64_pow2_no_overflow(t as nat);
        vstd::bits::lemma_u64_shl_is_mul(1, t);
    }
    let q = m / d;
    let rem = m % d;
    proof {
        lemma_pow2_pos(t as nat);
        lemma2_to64();
        if t > 1 {
            lemma_pow2_strictly_increases(1, t as nat);
        }
        vstd::arithmetic::div_mod::lemma_div_is_ordered_by_denominator(m as int, 2, d as int);
    }
    if 2 * (rem as u128) > d as u128 || (2 * (rem as u128) == d as u128 && q % 2 == 1) {
        q + 1
    } else {
        q
    }
}


/// The integer kinds Atomics accept besides the BigInt ones.
pub open spec fn spec_small_atomic_kind(kind: TypedArrayKind) -> bool {
    spec_exact_kind(kind) && kind != TypedArrayKind::Uint8Clamped
}

/// What an Atomics operation may touch: an element inside the buffer.
pub open spec fn spec_atomic_slot(ta: JSTypedArray, buf: JSArrayBuffer, idx: nat) -> bool {
    &&& ta.wf()
    &&& element_position(ta, idx) + 8 <= usize::MAX
    &&& element_position(ta, idx) + spec_element_size(ta.kind) <= buf.data@.len()
}

/// The bytes of element `idx`.
pub open spec fn slot_bytes(ta: JSTypedArray, data: Seq<u8>, idx: nat) -> Seq<u8> {
    let p = element_position(ta, idx);
    data.subrange(p, p + spec_element_size(ta.kind))
}

/// `data` with element `idx` holding the bits `v`.
pub open spec fn slot_written(ta: JSTypedArray, data: Seq<u8>, idx: nat, v: nat) -> Seq<u8> {
    let p = element_position(ta, idx);
    let es = spec_element_size(ta.kind);
    data.subrange(0, p) + encode(v, es, true) + data.subrange(p + es, data.len() as int)
}

/// Element `idx` as a whole number, and its bits.
fn read_slot(ta: &JSTypedArray, buffer: &JSArrayBuffer, idx: usize) -> (r: (i64, u64))
    requires
        spec_small_atomic_kind(ta.kind),
        spec_atomic_slot(*ta, *buffer, idx as nat),
    ensures
        r.0 as int == element_int(ta.kind, slot_bytes(*ta, buffer.data@, idx as nat)),
        r.1 as nat == bytes_value(slot_bytes(*ta, buffer.data@, idx as nat), true),
        r.1 < 0x1_0000_0000,
{
    proof {
        lemma_pow256_values();
    }
    let es = ta.element_size();
    assert(idx * es <= usize::MAX) by (nonlinear_arith)
        requires
            ta.byte_offset + idx * es + 8 <= usize::MAX,
            ta.byte_offset >= 0,
    ;
    let p = ta.byte_offset + idx * es;
    let u = read_uint(&buffer.data, p, es, true);
    proof {
        crate::byte_codec::lemma_le_value_bound(buffer.data@.subrange(p as int, p + es));
    }
    let signed = match ta.kind {
        TypedArrayKind::Int8 | TypedArrayKind::Int16 | TypedArrayKind::Int32 => true,
        _ => false,
    };
    let full: i64 = if es == 1 {
        0x100
    } else if es == 2 {
        0x1_0000
    } else {
        0x1_0000_0000
    };
    let v: i64 = if signed && (u as i64) * 2 >= full {
        u as i64 - full
    } else {
        u as i64
    };
    (v, u)
}

/// The bits the engine stores for the whole number `n` in an element of
/// `es` bytes: `n` through a double and ToInt32.
fn store_bits(n: i64, es: usize) -> (r: u64)
    requires
        es == 1 || es == 2 || es == 4,
    ensures
        r as nat == stored_through_double(n as int, es as nat),
{
    proof {
        lemma_pow256_values();
        lemma2_to64();
    }
    let mag: u64 = if n < 0 {
        if n == i64::MIN {
            0x8000_0000_0000_0000
        } else {
            (-n) as u64
        }
    } else {
        n as u64
    };
    let low = round_to_double_low32(mag);
    let v: u64 = if n < 0 && low != 0 {
        0x1_0000_0000 - low
    } else {
        low
    };
    proof {
        let rd = round_to_double(mag as nat);
        let t = signed_round_to_double(n as int);
        lemma_fundamental_div_mod(rd as int, 0x1_0000_0000);
        lemma_mod_pos_bound(rd as int, 0x1_0000_0000);
        if n < 0 {
            let q = rd / 0x1_0000_0000;
            if low == 0 {
                lemma_fundamental_div_mod_converse(t, 0x1_0000_0000, -(q as int), 0);
            } else {
                lemma_fundamental_div_mod_converse(t, 0x1_0000_0000, -(q as int) - 1, (0x1_0000_0000 - low) as int);
            }
        }
        assert(v as int == t % 0x1_0000_0000);
        vstd::arithmetic::div_mod::lemma_mod_mod(t, pow256(es as nat) as int, (0x1_0000_0000nat / pow256(es as nat)) as int);
    }
    let m: u64 = if es == 1 {
        0x100
    } else if es == 2 {
        0x1_0000
    } else {
        0x1_0000_0000
    };
    v % m
}

/// `Atomics.add/sub/and/or/xor/exchange` on an Int8 ... Uint32 array at a
/// validated index: `operand_bits` is the Number the value argument
/// converted to. The element and the operand (truncated, saturating) meet
/// in 64-bit arithmetic that wraps; the result is stored through a double
/// and ToInt32. Returns the previous element.
pub fn atomics_int_read_modify_write(
    ta: &JSTypedArray,
    buffer: &mut JSArrayBuffer,
    idx: usize,
    op: AtomicOp,
    operand_bits: u64,
) -> (r: i64)
    requires
        spec_small_atomic_kind(ta.kind),
        spec_atomic_slot(*ta, *old(buffer), idx as nat),
    ensures
        ({
            let old_bytes = slot_bytes(*ta, old(buffer).data@, idx as nat);
            let es = spec_element_size(ta.kind);
            let operand = spec_to_i64_saturating(operand_bits) as i64;
            &&& r as int == element_int(ta.kind, old_bytes)
            &&& final(buffer).data@ == slot_written(
                *ta,
                old(buffer).data@,
                idx as nat,
                stored_through_double(spec_atomic_update(op, r, operand) as int, es),
            )
        }),
        final(buffer).max_byte_length == old(buffer).max_byte_length,
        final(buffer).shared == old(buffer).shared,
        final(buffer).detached == old(buffer).detached,
{
    let (old_v, _) = read_slot(ta, buffer, idx);
    let operand = to_i64_saturating_bits(operand_bits);
    let new_v = atomic_bigint_update(op, old_v, operand);
    let es = ta.element_size();
    let bits = store_bits(new_v, es);
    let p = ta.byte_offset + idx * es;
    write_uint(&mut buffer.data, p, es, bits, true);
    old_v
}

/// `Atomics.compareExchange` on an Int8 ... Uint32 array at a validated
/// index: the element is replaced by the pattern of `replacement_bits`
/// when its bits equal those ToInt32 gives `expected_bits` at its width.
/// Returns the previous element.
pub fn atomics_int_compare_exchange(
    ta: &JSTypedArray,
    buffer: &mut JSArrayBuffer,
    idx: usize,
    expected_bits: u64,
    replacement_bits: u64,
) -> (r: i64)
    requires
        spec_small_atomic_kind(ta.kind),
        spec_atomic_slot(*ta, *old(buffer), idx as nat),
    ensures
        ({
            let old_bytes = slot_bytes(*ta, old(buffer).data@, idx as nat);
            &&& r as int == element_int(ta.kind, old_bytes)
            &&& if bytes_value(old_bytes, true) == spec_element_bits(ta.kind, expected_bits, 0) {
                final(buffer).data@ == slot_written(
                    *ta,
                    old(buffer).data@,
                    idx as nat,
                    spec_element_bits(ta.kind, replacement_bits, 0),
                )
            } else {
                final(buffer).data@ == old(buffer).data@
            }
        }),
        final(buffer).max_byte_length == old(buffer).max_byte_length,
        final(buffer).shared == old(buffer).shared,
        final(buffer).detached == old(buffer).detached,
{
    let (old_v, old_bits) = read_slot(ta, buffer, idx);
    let expected = number_to_element_bits(ta.kind, expected_bits, 0);
    if old_bits == expected {
        let es = ta.element_size();
        let bits = number_to_element_bits(ta.kind, replacement_bits, 0);
        let p = ta.byte_offset + idx * es;
        write_uint(&mut buffer.data, p, es, bits, true);
    }
    old_v
}


/// Neither the array's extent nor its buffer reaches within 8 bytes of the
/// end of the address space.
pub open spec fn room_for_access(ta: JSTypedArray, buf_len: nat) -> bool {
    &&& ta.byte_offset + ta.length * spec_element_size(ta.kind) + 8 <= usize::MAX
    &&& buf_len + 8 <= usize::MAX
}

/// The index an Atomics operation may use on this array, or its error:
/// ValidateIntegerTypedArray (TypeError), then ValidateAtomicAccess.
pub open spec fn spec_atomic_index(ta: JSTypedArray, buffer: JSArrayBuffer, index: IndexArg) -> Result<nat, ErrorKind> {
    if !spec_is_valid_atomic_kind(ta.kind) || buffer.detached {
        Err(ErrorKind::TypeError)
    } else {
        match spec_to_index(index) {
            Err(e) => Err(e),
            Ok(i) => if i >= spec_atomic_length(ta, buffer.data@.len()) {
                Err(ErrorKind::RangeError)
            } else {
                Ok(i as nat)
            },
        }
    }
}

/// An element position inside the array's extent, or inside the buffer
/// for a length-tracking array, leaves room for an 8-byte access.
proof fn lemma_atomic_position(ta: JSTypedArray, buf_len: nat, i: nat)
    requires
        room_for_access(ta, buf_len),
        i < spec_atomic_length(ta, buf_len),
    ensures
        element_position(ta, i) + 8 <= usize::MAX,
        ta.length_tracking ==> element_position(ta, i) + spec_element_size(ta.kind) <= buf_len,
{
    let es = spec_element_size(ta.kind);
    assert(es > 0);
    if ta.length_tracking {
        assert(!spec_out_of_bounds(ta, buf_len));
        assert(spec_current_length(ta, buf_len) == spec_atomic_length(ta, buf_len));
        lemma_element_inside(ta, buf_len, i);
    } else {
        assert(i * es + es <= ta.length * es) by (nonlinear_arith)
            requires
                i + 1 <= ta.length,
                es > 0,
        ;
    }
}

/// `Atomics.load(ta, index)`: the bit pattern of the element (its raw 64
/// bits for the BigInt kinds). A fixed-length array whose element lies
/// past its (shrunk) buffer reads a BigInt element as 0 and throws a
/// TypeError for the other kinds.
pub fn atomics_load(ta: &JSTypedArray, buffer: &JSArrayBuffer, index: IndexArg) -> (r: Result<u64, ErrorKind>)
    requires
        ta.wf(),
        room_for_access(*ta, buffer.data@.len()),
    ensures
        match spec_atomic_index(*ta, *buffer, index) {
            Err(e) => r == Err::<u64, ErrorKind>(e),
            Ok(i) => {
                let p = element_position(*ta, i);
                let es = spec_element_size(ta.kind);
                if p + es > buffer.data@.len() {
                    r == if spec_is_bigint_kind(ta.kind) {
                        Ok::<u64, ErrorKind>(0)
                    } else {
                        Err::<u64, ErrorKind>(ErrorKind::TypeError)
                    }
                } else {
                    r matches Ok(v) && v as nat == bytes_value(buffer.data@.subrange(p, p + es), true)
                }
            },
        },
{
    if let Err(e) = validate_integer_typed_array(ta, buffer) {
        return Err(e);
    }
    let idx = match validate_atomic_access(ta, buffer, index) {
        Ok(i) => i,
        Err(e) => return Err(e),
    };
    proof {
        lemma_atomic_position(*ta, buffer.data@.len(), idx as nat);
        lemma_pow256_values();
    }
    if is_bigint_typed_array(&ta.kind) {
        let raw = ta.get_bigint_raw(buffer, idx);
        let u: u64 = if raw < 0 {
            (raw as i128 + 0x1_0000_0000_0000_0000) as u64
        } else {
            raw as u64
        };
        proof {
            let p = element_position(*ta, idx as nat);
            if p + 8 <= buffer.data@.len() {
                lemma_le_value_bound(buffer.data@.subrange(p, p + 8));
            }
        }
        Ok(u)
    } else {
        match ta.get(buffer, idx) {
            Ok(Some(v)) => Ok(v),
            Ok(None) => Ok(0),
            Err(e) => Err(e),
        }
    }
}

/// `Atomics.store(ta, index, value)`, `value` already converted (a BigInt
/// for the BigInt kinds, a Number for the others): stores the value's
/// element pattern at a valid index whose element lies inside the buffer,
/// and leaves the bytes as they were otherwise.
pub fn atomics_store(ta: &JSTypedArray, buffer: &mut JSArrayBuffer, index: IndexArg, value: ElementValue) -> (r: Result<
    (),
    ErrorKind,
>)
    requires
        ta.wf(),
        room_for_access(*ta, old(buffer).data@.len()),
        spec_is_bigint_kind(ta.kind) <==> value is BigInt,
    ensures
        match spec_atomic_index(*ta, *old(buffer), index) {
            Err(e) => r == Err::<(), ErrorKind>(e) && final(buffer).data@ == old(buffer).data@,
            Ok(i) => {
                let p = element_position(*ta, i);
                let es = spec_element_size(ta.kind);
                &&& r is Ok
                &&& final(buffer).data@ == if spec_is_valid_integer_index(*ta, old(buffer).data@.len(), i) && p + es
                    <= old(buffer).data@.len() {
                    overwrite(old(buffer).data@, p, encode(spec_value_pattern(ta.kind, value), es, true))
                } else {
                    old(buffer).data@
                }
            },
        },
        final(buffer).max_byte_length == old(buffer).max_byte_length,
        final(buffer).shared == old(buffer).shared,
        final(buffer).detached == old(buffer).detached,
{
    if let Err(e) = validate_integer_typed_array(ta, buffer) {
        return Err(e);
    }
    let idx = match validate_atomic_access(ta, buffer, index) {
        Ok(i) => i,
        Err(e) => return Err(e),
    };
    proof {
        lemma_atomic_position(*ta, buffer.data@.len(), idx as nat);
        lemma_pow256_values();
    }
    match value {
        ElementValue::Number { bits, f32_bits } => ta.set(buffer, idx, bits, f32_bits),
        ElementValue::BigInt(x) => ta.set_bigint(buffer, idx, x),
    }
    Ok(())
}


/// Read-after-write for Atomics: when `Atomics.store` has written a value
/// into element `i` inside the buffer, `Atomics.load` of that element
/// reads the value's element pattern (modulo the element's width).
pub proof fn law_atomics_store_load(ta: JSTypedArray, data: Seq<u8>, i: nat, value: ElementValue)
    requires
        element_position(ta, i) + spec_element_size(ta.kind) <= data.len(),
    ensures
        ({
            let p = element_position(ta, i);
            let es = spec_element_size(ta.kind);
            let w = overwrite(data, p, encode(spec_value_pattern(ta.kind, value), es, true));
            &&& w.len() == data.len()
            &&& bytes_value(w.subrange(p, p + es), true) == spec_value_pattern(ta.kind, value) % pow256(es)
        }),
{
    let p = element_position(ta, i);
    let es = spec_element_size(ta.kind);
    let e = encode(spec_value_pattern(ta.kind, value), es, true);
    let w = overwrite(data, p, e);
    assert(ta.byte_offset + i * es >= 0) by (nonlinear_arith)
        requires
            ta.byte_offset >= 0,
            es > 0,
    ;
    assert(w.subrange(p, p + es) =~= e);
    lemma_decode_encode(spec_value_pattern(ta.kind, value), es, true);
}

} // verus!

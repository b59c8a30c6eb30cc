//! Reading and storing one TypedArray element as a Number: the element's
//! bit pattern for a Number (given as its binary64 bits) of each kind, and
//! IntegerIndexedElementGet / IntegerIndexedElementSet on the buffer.
use crate::byte_codec::{bytes_value, encode, lemma_decode_encode, lemma_pow256_values, pow256, read_uint, write_uint};
use crate::error::ErrorKind;
use crate::half::{f16_rounded_magnitude, f64_exp, f64_frac, f64_sign, f64_to_f16_bits};
use crate::number_bits::{
    clamp_u8_bits, js_to_int32_bits, spec_clamp_u8, spec_to_i64_saturating, spec_to_int32,
    spec_to_u64_saturating, to_i64_saturating_bits, to_u64_saturating_bits,
};
use crate::typed_array::{JSArrayBuffer, JSTypedArray, TypedArrayKind, spec_element_size, to_unsigned};
use crate::typed_array_ops::{element_position, spec_is_valid_integer_index};
use vstd::arithmetic::div_mod::{lemma_fundamental_div_mod_converse, lemma_mod_mod};
use vstd::prelude::*;

verus! {

/// The binary16 pattern a Number narrows to.
pub open spec fn spec_half_bits(b: u64) -> nat {
    if f64_exp(b) == 2047 && f64_frac(b) != 0 {
        f64_sign(b) * 0x8000 + 0x7E00
    } else if f64_exp(b) == 2047 {
        f64_sign(b) * 0x8000 + 0x7C00
    } else {
        f64_sign(b) * 0x8000 + f16_rounded_magnitude(b)
    }
}

/// The bit pattern an element of `kind` takes when the Number with bits
/// `b` is stored in it; `f32_bits` is that Number rounded to binary32
/// (floating point, which the caller computes).
pub open spec fn spec_element_bits(kind: TypedArrayKind, b: u64, f32_bits: u32) -> nat {
    match kind {
        TypedArrayKind::Int8 | TypedArrayKind::Uint8 => (spec_to_int32(b) % 0x100) as nat,
        TypedArrayKind::Int16 | TypedArrayKind::Uint16 => (spec_to_int32(b) % 0x1_0000) as nat,
        TypedArrayKind::Int32 | TypedArrayKind::Uint32 => (spec_to_int32(b) % 0x1_0000_0000) as nat,
        TypedArrayKind::Uint8Clamped => spec_clamp_u8(b),
        TypedArrayKind::Float16 => spec_half_bits(b),
        TypedArrayKind::Float32 => f32_bits as nat,
        TypedArrayKind::Float64 => b as nat,
        TypedArrayKind::BigInt64 => to_unsigned(spec_to_i64_saturating(b), 8),
        TypedArrayKind::BigUint64 => spec_to_u64_saturating(b) as nat,
    }
}

/// The bit pattern an element of `kind` takes for the Number with bits `b`.
pub fn number_to_element_bits(kind: TypedArrayKind, b: u64, f32_bits: u32) -> (r: u64)
    ensures
        r as nat == spec_element_bits(kind, b, f32_bits),
{
    proof {
        lemma_pow256_values();
    }
    match kind {
        TypedArrayKind::Int8 | TypedArrayKind::Uint8 | TypedArrayKind::Int16 | TypedArrayKind::Uint16
        | TypedArrayKind::Int32 | TypedArrayKind::Uint32 => {
            let v = js_to_int32_bits(b);
            let u: u64 = if v < 0 {
                (v as i64 + 0x1_0000_0000) as u64
            } else {
                v as u64
            };
            proof {
                let w = spec_to_int32(b);
                lemma_fundamental_div_mod_converse(w, 0x1_0000_0000, if v < 0 { -1 } else { 0 }, u as int);
                lemma_mod_mod(w, 0x100, 0x100_0000);
                lemma_mod_mod(w, 0x1_0000, 0x1_0000);
            }
            let r = match kind {
                TypedArrayKind::Int8 | TypedArrayKind::Uint8 => u % 0x100,
                TypedArrayKind::Int16 | TypedArrayKind::Uint16 => u % 0x1_0000,
                _ => u,
            };
            r
        },
        TypedArrayKind::Uint8Clamped => clamp_u8_bits(b) as u64,
        TypedArrayKind::Float16 => f64_to_f16_bits(b) as u64,
        TypedArrayKind::Float32 => f32_bits as u64,
        TypedArrayKind::Float64 => b,
        TypedArrayKind::BigInt64 => {
            let v = to_i64_saturating_bits(b);
            if v < 0 {
                (v + 0x7FFF_FFFF_FFFF_FFFF + 1) as u64 + 0x8000_0000_0000_0000
            } else {
                v as u64
            }
        },
        TypedArrayKind::BigUint64 => to_u64_saturating_bits(b),
    }
}

/// The buffer's bytes after IntegerIndexedElementSet stores the Number
/// with bits `number_bits` in element `idx`: the element's pattern there
/// when the index is valid and the element inside the buffer, else the
/// bytes as they were.
pub open spec fn spec_element_stored(ta: JSTypedArray, data: Seq<u8>, idx: nat, number_bits: u64, f32_bits: u32) -> Seq<u8> {
    let p = element_position(ta, idx);
    let es = spec_element_size(ta.kind);
    if spec_is_valid_integer_index(ta, data.len(), idx) && p + es <= data.len() {
        data.subrange(0, p) + encode(spec_element_bits(ta.kind, number_bits, f32_bits), es, true) + data.subrange(
            p + es,
            data.len() as int,
        )
    } else {
        data
    }
}

/// Read-after-write for elements: after a Number is stored in a valid
/// element, reading that element gives the Number's element pattern
/// (modulo the element's width), and every other element reads as before.
pub proof fn law_element_read_after_write(ta: JSTypedArray, data: Seq<u8>, idx: nat, number_bits: u64, f32_bits: u32, other: nat)
    requires
        spec_is_valid_integer_index(ta, data.len(), idx),
        element_position(ta, idx) + spec_element_size(ta.kind) <= data.len(),
        other != idx,
    ensures
        ({
            let w = spec_element_stored(ta, data, idx, number_bits, f32_bits);
            let es = spec_element_size(ta.kind);
            let p = element_position(ta, idx);
            let q = element_position(ta, other);
            &&& w.len() == data.len()
            &&& bytes_value(w.subrange(p, p + es), true) == spec_element_bits(ta.kind, number_bits, f32_bits)
                % pow256(es)
            &&& q + es <= data.len() ==> w.subrange(q, q + es) == data.subrange(q, q + es)
        }),
{
    let w = spec_element_stored(ta, data, idx, number_bits, f32_bits);
    let es = spec_element_size(ta.kind);
    let p = element_position(ta, idx);
    let q = element_position(ta, other);
    let e = encode(spec_element_bits(ta.kind, number_bits, f32_bits), es, true);
    assert(es > 0);
    assert(w.subrange(p, p + es) =~= e);
    lemma_decode_encode(spec_element_bits(ta.kind, number_bits, f32_bits), es, true);
    if q + es <= data.len() {
        if other < idx {
            assert(other * es + es <= idx * es) by (nonlinear_arith)
                requires
                    other + 1 <= idx,
                    es > 0,
            ;
        } else {
            assert(idx * es + es <= other * es) by (nonlinear_arith)
                requires
                    idx + 1 <= other,
                    es > 0,
            ;
        }
        assert(w.subrange(q, q + es) =~= data.subrange(q, q + es));
    }
}

impl JSTypedArray {
    /// IntegerIndexedElementSet with a Number: stores the element pattern
    /// of `number_bits` (see `number_to_element_bits`) at a valid index;
    /// an invalid index is ignored.
    pub fn set(&self, buffer: &mut JSArrayBuffer, idx: usize, number_bits: u64, f32_bits: u32)
        requires
            self.wf(),
            element_position(*self, idx as nat) + 8 <= usize::MAX,
        ensures
            final(buffer).data@ == spec_element_stored(*self, old(buffer).data@, idx as nat, number_bits, f32_bits),
            final(buffer).max_byte_length == old(buffer).max_byte_length,
            final(buffer).shared == old(buffer).shared,
            final(buffer).detached == old(buffer).detached,
    {
        if !self.is_valid_integer_index(buffer, idx) {
            return;
        }
        let es = self.element_size();
        assert(idx * es <= usize::MAX) by (nonlinear_arith)
            requires
                self.byte_offset + idx * es + 8 <= usize::MAX,
                self.byte_offset >= 0,
        ;
        let byte_offset = self.byte_offset + idx * es;
        if byte_offset + es > buffer.data.len() {
            return;
        }
        let bits = number_to_element_bits(self.kind, number_bits, f32_bits);
        proof {
            lemma_pow256_values();
        }
        write_uint(&mut buffer.data, byte_offset, es, bits, true);
    }

    /// IntegerIndexedElementGet: the bit pattern of element `idx`; `None`
    /// when a length-tracking array reads past its buffer (undefined, read
    /// as NaN), and a TypeError when a fixed-length one does.
    pub fn get(&self, buffer: &JSArrayBuffer, idx: usize) -> (r: Result<Option<u64>, ErrorKind>)
        requires
            element_position(*self, idx as nat) + 8 <= usize::MAX,
        ensures
            ({
                let p = element_position(*self, idx as nat);
                let es = spec_element_size(self.kind);
                if p + es > buffer.data@.len() {
                    if self.length_tracking {
                        r == Ok::<Option<u64>, ErrorKind>(None)
                    } else {
                        r == Err::<Option<u64>, ErrorKind>(ErrorKind::TypeError)
                    }
                } else {
                    r matches Ok(Some(v)) && v as nat == bytes_value(buffer.data@.subrange(p, p + es), true)
                }
            }),
    {
        let es = self.element_size();
        assert(idx * es <= usize::MAX) by (nonlinear_arith)
            requires
                self.byte_offset + idx * es + 8 <= usize::MAX,
                self.byte_offset >= 0,
        ;
        let byte_offset = self.byte_offset + idx * es;
        if byte_offset + es > buffer.data.len() {
            if self.length_tracking {
                return Ok(None);
            } else {
                return Err(ErrorKind::TypeError);
            }
        }
        Ok(Some(read_uint(&buffer.data, byte_offset, es, true)))
    }
}

} // verus!

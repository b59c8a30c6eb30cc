//! TypedArray bounds, BigInt element access, the TypedArray accessors and
//! the decisions of the Atomics operations on BigInt arrays.
use crate::byte_codec::{bytes_value, encode, lemma_pow256_values, read_uint, write_uint};
use crate::error::ErrorKind;
use crate::typed_array::{
    JSArrayBuffer, JSTypedArray, TypedArrayKind, element_size_for_kind, spec_element_size,
    spec_is_bigint_kind, spec_is_valid_atomic_kind, to_signed, to_unsigned,
};
use vstd::prelude::*;

verus! {

/// The number of elements a TypedArray currently has over a buffer of
/// `buf_len` bytes (0 when it is out of bounds).
pub open spec fn spec_current_length(ta: JSTypedArray, buf_len: nat) -> nat {
    let es = spec_element_size(ta.kind);
    if ta.length_tracking {
        if buf_len <= ta.byte_offset {
            0
        } else {
            ((buf_len - ta.byte_offset) as nat / es) as nat
        }
    } else if ta.byte_offset + ta.length * es > buf_len {
        0
    } else {
        ta.length as nat
    }
}

/// IsTypedArrayOutOfBounds.
pub open spec fn spec_out_of_bounds(ta: JSTypedArray, buf_len: nat) -> bool {
    if ta.length_tracking {
        ta.byte_offset > buf_len
    } else {
        ta.byte_offset + ta.length * spec_element_size(ta.kind) > buf_len
    }
}

pub open spec fn spec_is_valid_integer_index(ta: JSTypedArray, buf_len: nat, idx: nat) -> bool {
    let es = spec_element_size(ta.kind);
    if ta.length_tracking {
        buf_len > ta.byte_offset && idx < (buf_len - ta.byte_offset) as nat / es
    } else {
        ta.byte_offset + ta.length * es <= buf_len && idx < ta.length
    }
}

/// Byte position of element `idx`.
pub open spec fn element_position(ta: JSTypedArray, idx: nat) -> int {
    ta.byte_offset + idx * spec_element_size(ta.kind)
}

impl JSTypedArray {
    /// The array's extent fits in the address space.
    pub open spec fn wf(self) -> bool {
        self.byte_offset + self.length * spec_element_size(self.kind) <= usize::MAX
    }

    /// Whether the array's extent fits in the address space (`wf`).
    pub fn fits_in_memory(&self) -> (r: bool)
        ensures
            r == self.wf(),
    {
        let es = self.element_size();
        match self.length.checked_mul(es) {
            None => {
                assert(self.length * es > usize::MAX);
                assert(self.byte_offset + self.length * es > usize::MAX);
                false
            },
            Some(bytes) => self.byte_offset.checked_add(bytes).is_some(),
        }
    }

    /// Size in bytes of one element.
    pub fn element_size(&self) -> (r: usize)
        ensures
            r as nat == spec_element_size(self.kind),
    {
        element_size_for_kind(&self.kind)
    }

    /// IsValidIntegerIndex for an index that is already a non-negative integer.
    pub fn is_valid_integer_index(&self, buffer: &JSArrayBuffer, idx: usize) -> (r: bool)
        requires
            self.wf(),
        ensures
            r == spec_is_valid_integer_index(*self, buffer.data@.len(), idx as nat),
    {
        let buf_len = buffer.data.len();
        let es = self.element_size();
        if self.length_tracking {
            if buf_len <= self.byte_offset {
                return false;
            }
            let cur_len = (buf_len - self.byte_offset) / es;
            idx < cur_len
        } else {
            assert(self.length * es <= usize::MAX) by (nonlinear_arith)
                requires
                    self.byte_offset + self.length * es <= usize::MAX,
                    self.byte_offset >= 0,
            ;
            let needed = self.byte_offset + self.length * es;
            if needed > buf_len {
                return false;
            }
            idx < self.length
        }
    }

    /// The raw 64 bits of a BigInt element (0 when it lies past the buffer).
    pub fn get_bigint_raw(&self, buffer: &JSArrayBuffer, idx: usize) -> (r: i64)
        requires
            spec_is_bigint_kind(self.kind),
            element_position(*self, idx as nat) + 8 <= usize::MAX,
        ensures
            ({
                let p = element_position(*self, idx as nat);
                if p + 8 > buffer.data@.len() {
                    r == 0
                } else {
                    r as int == to_signed(bytes_value(buffer.data@.subrange(p as int, p + 8), true), 8)
                }
            }),
    {
        proof {
            lemma_pow256_values();
        }
        let es = self.element_size();
        assert(idx * es <= usize::MAX) by (nonlinear_arith)
            requires
                self.byte_offset + idx * es + 8 <= usize::MAX,
                self.byte_offset >= 0,
        ;
        let byte_offset = self.byte_offset + idx * es;
        if byte_offset + es > buffer.data.len() {
            return 0;
        }
        let u = read_uint(&buffer.data, byte_offset, 8, true);
        if u >= 0x8000_0000_0000_0000 {
            (u - 0x8000_0000_0000_0000) as i64 - 0x7FFF_FFFF_FFFF_FFFF - 1
        } else {
            u as i64
        }
    }

    /// Stores a BigInt element given as its raw 64 bits; an invalid index
    /// is ignored (IntegerIndexedElementSet).
    pub fn set_bigint(&self, buffer: &mut JSArrayBuffer, idx: usize, val: i64)
        requires
            spec_is_bigint_kind(self.kind),
            self.wf(),
            element_position(*self, idx as nat) + 8 <= usize::MAX,
        ensures
            ({
                let p = element_position(*self, idx as nat);
                if spec_is_valid_integer_index(*self, old(buffer).data@.len(), idx as nat) && p + 8
                    <= old(buffer).data@.len() {
                    final(buffer).data@ == old(buffer).data@.subrange(0, p as int) + encode(
                        to_unsigned(val as int, 8),
                        8,
                        true,
                    ) + old(buffer).data@.subrange(p + 8, old(buffer).data@.len() as int)
                } else {
                    final(buffer).data@ == old(buffer).data@
                }
            }),
            final(buffer).max_byte_length == old(buffer).max_byte_length,
            final(buffer).shared == old(buffer).shared,
            final(buffer).detached == old(buffer).detached,
    {
        proof {
            lemma_pow256_values();
        }
        if !self.is_valid_integer_index(buffer, idx) {
            return;
        }
        let es = self.element_size();
        assert(idx * es <= usize::MAX) by (nonlinear_arith)
            requires
                self.byte_offset + idx * es + 8 <= usize::MAX,
                self.byte_offset >= 0,
        ;
        let byte_offset = self.byte_offset + idx * es;
        if byte_offset + es > buffer.data.len() {
            return;
        }
        let u: u64 = if val < 0 {
            (val + 0x7FFF_FFFF_FFFF_FFFF + 1) as u64 + 0x8000_0000_0000_0000
        } else {
            val as u64
        };
        write_uint(&mut buffer.data, byte_offset, 8, u, true);
    }
}

/// What a TypedArray.prototype accessor asks for.
#[derive(Clone, Copy, Debug, PartialEq, Eq, Structural)]
pub enum TypedArrayAccessor {
    ByteLength,
    ByteOffset,
    Length,
    ToStringTag,
}

/// The answer of a TypedArray.prototype accessor.
#[derive(Clone, Copy, Debug, PartialEq, Eq, Structural)]
pub enum AccessorValue {
    Number(usize),
    /// The `[Symbol.toStringTag]` of an array of this kind.
    Tag(TypedArrayKind),
    Undefined,
}

/// `get %TypedArray%.prototype.byteLength / byteOffset / length /
/// [Symbol.toStringTag]`; `receiver` is `None` when `this` is not a TypedArray.
pub fn handle_typedarray_accessor(receiver: Option<(&JSTypedArray, &JSArrayBuffer)>, property: TypedArrayAccessor) -> (r:
    Result<AccessorValue, ErrorKind>)
    requires
        receiver is Some ==> receiver.unwrap().0.wf(),
    ensures
        receiver is None ==> r == if property == TypedArrayAccessor::ToStringTag {
            Ok::<AccessorValue, ErrorKind>(AccessorValue::Undefined)
        } else {
            Err::<AccessorValue, ErrorKind>(ErrorKind::TypeError)
        },
        receiver is Some ==> ({
            let (ta_ref, buf_ref) = receiver.unwrap();
            let ta = *ta_ref;
            let buf = *buf_ref;
            let len = buf.data@.len();
            r is Ok && r->Ok_0 == match property {
                TypedArrayAccessor::ByteLength => if buf.detached {
                    AccessorValue::Number(0)
                } else {
                    AccessorValue::Number(
                        (spec_current_length(ta, len) * spec_element_size(ta.kind)) as usize,
                    )
                },
                TypedArrayAccessor::ByteOffset => if buf.detached || spec_out_of_bounds(ta, len) {
                    AccessorValue::Number(0)
                } else {
                    AccessorValue::Number(ta.byte_offset)
                },
                TypedArrayAccessor::Length => if buf.detached {
                    AccessorValue::Number(0)
                } else {
                    AccessorValue::Number(spec_current_length(ta, len) as usize)
                },
                TypedArrayAccessor::ToStringTag => AccessorValue::Tag(ta.kind),
            }
        }),
{
    let (ta, buffer) = match receiver {
        None => {
            return if property == TypedArrayAccessor::ToStringTag {
                Ok(AccessorValue::Undefined)
            } else {
                Err(ErrorKind::TypeError)
            };
        },
        Some(p) => p,
    };
    let es = ta.element_size();
    let buf_len = buffer.data.len();
    assert(ta.length * es <= usize::MAX) by (nonlinear_arith)
        requires
            ta.byte_offset + ta.length * es <= usize::MAX,
            ta.byte_offset >= 0,
    ;
    let cur_len: usize = if ta.length_tracking {
        if buf_len <= ta.byte_offset {
            0
        } else {
            (buf_len - ta.byte_offset) / es
        }
    } else {
        let needed = ta.byte_offset + ta.length * es;
        if buf_len < needed {
            0
        } else {
            ta.length
        }
    };
    match property {
        TypedArrayAccessor::ByteLength => {
            if buffer.detached {
                return Ok(AccessorValue::Number(0));
            }
            assert(cur_len * es <= buf_len) by (nonlinear_arith)
                requires
                    ta.length_tracking ==> (buf_len <= ta.byte_offset && cur_len == 0) || (
                    buf_len > ta.byte_offset && cur_len == (buf_len - ta.byte_offset) / (es as int)),
                    !ta.length_tracking ==> cur_len == 0 || ta.byte_offset + cur_len * es <= buf_len,
                    es > 0,
            {
                if ta.length_tracking && buf_len > ta.byte_offset {
                    vstd::arithmetic::div_mod::lemma_fundamental_div_mod(
                        (buf_len - ta.byte_offset) as int,
                        es as int,
                    );
                    vstd::arithmetic::div_mod::lemma_mod_pos_bound(
                        (buf_len - ta.byte_offset) as int,
                        es as int,
                    );
                }
            }
            Ok(AccessorValue::Number(cur_len * es))
        },
        TypedArrayAccessor::ByteOffset => {
            if buffer.detached {
                return Ok(AccessorValue::Number(0));
            }
            if ta.length_tracking {
                if ta.byte_offset > buf_len {
                    return Ok(AccessorValue::Number(0));
                }
            } else {
                let needed = ta.byte_offset + ta.length * es;
                if needed > buf_len {
                    return Ok(AccessorValue::Number(0));
                }
            }
            Ok(AccessorValue::Number(ta.byte_offset))
        },
        TypedArrayAccessor::Length => {
            if buffer.detached {
                return Ok(AccessorValue::Number(0));
            }
            Ok(AccessorValue::Number(cur_len))
        },
        TypedArrayAccessor::ToStringTag => Ok(AccessorValue::Tag(ta.kind)),
    }
}

/// The JavaScript name of the constructor of an array of this kind.
pub open spec fn spec_kind_name(kind: TypedArrayKind) -> Seq<char> {
    match kind {
        TypedArrayKind::Int8 => "Int8Array"@,
        TypedArrayKind::Uint8 => "Uint8Array"@,
        TypedArrayKind::Uint8Clamped => "Uint8ClampedArray"@,
        TypedArrayKind::Int16 => "Int16Array"@,
        TypedArrayKind::Uint16 => "Uint16Array"@,
        TypedArrayKind::Int32 => "Int32Array"@,
        TypedArrayKind::Uint32 => "Uint32Array"@,
        TypedArrayKind::Float16 => "Float16Array"@,
        TypedArrayKind::Float32 => "Float32Array"@,
        TypedArrayKind::Float64 => "Float64Array"@,
        TypedArrayKind::BigInt64 => "BigInt64Array"@,
        TypedArrayKind::BigUint64 => "BigUint64Array"@,
    }
}

pub fn kind_to_constructor_name(kind: &TypedArrayKind) -> (r: &'static str)
    ensures
        r@ == spec_kind_name(*kind),
{
    match kind {
        TypedArrayKind::Int8 => "Int8Array",
        TypedArrayKind::Uint8 => "Uint8Array",
        TypedArrayKind::Uint8Clamped => "Uint8ClampedArray",
        TypedArrayKind::Int16 => "Int16Array",
        TypedArrayKind::Uint16 => "Uint16Array",
        TypedArrayKind::Int32 => "Int32Array",
        TypedArrayKind::Uint32 => "Uint32Array",
        TypedArrayKind::Float16 => "Float16Array",
        TypedArrayKind::Float32 => "Float32Array",
        TypedArrayKind::Float64 => "Float64Array",
        TypedArrayKind::BigInt64 => "BigInt64Array",
        TypedArrayKind::BigUint64 => "BigUint64Array",
    }
}

/// An argument that ToIndex-like conversions read: undefined, a BigInt or a
/// Symbol (which do not convert to numbers), or the ToIntegerOrInfinity of a
/// number (`i64::MIN` / `i64::MAX` for −∞ / +∞).
#[derive(Clone, Copy, Debug, PartialEq, Eq, Structural)]
pub enum IndexArg {
    Undefined,
    BigInt,
    Symbol,
    Integral(i64),
}

/// 2^53 − 1.
pub const MAX_SAFE_INTEGER: u64 = 9007199254740991;

/// ToIndex: a non-negative integer no larger than 2^53 − 1.
pub open spec fn spec_to_index(arg: IndexArg) -> Result<u64, ErrorKind> {
    match arg {
        IndexArg::Undefined => Ok(0),
        IndexArg::BigInt | IndexArg::Symbol => Err(ErrorKind::TypeError),
        IndexArg::Integral(n) => if n < 0 || n > MAX_SAFE_INTEGER {
            Err(ErrorKind::RangeError)
        } else {
            Ok(n as u64)
        },
    }
}

pub fn to_index(arg: IndexArg) -> (r: Result<u64, ErrorKind>)
    ensures
        r == spec_to_index(arg),
{
    match arg {
        IndexArg::Undefined => Ok(0),
        IndexArg::BigInt | IndexArg::Symbol => Err(ErrorKind::TypeError),
        IndexArg::Integral(n) => {
            if n < 0 || n as u64 > MAX_SAFE_INTEGER {
                Err(ErrorKind::RangeError)
            } else {
                Ok(n as u64)
            }
        },
    }
}

/// ValidateIntegerTypedArray: Atomics need an integer kind over a live buffer.
pub fn validate_integer_typed_array(ta: &JSTypedArray, buffer: &JSArrayBuffer) -> (r: Result<(), ErrorKind>)
    ensures
        r is Ok <==> spec_is_valid_atomic_kind(ta.kind) && !buffer.detached,
        r is Err ==> r == Err::<(), ErrorKind>(ErrorKind::TypeError),
{
    if !crate::typed_array::is_valid_atomic_type(&ta.kind) {
        return Err(ErrorKind::TypeError);
    }
    if buffer.detached {
        return Err(ErrorKind::TypeError);
    }
    Ok(())
}

/// The length ValidateAtomicAccess checks against, read before the index
/// is converted.
pub open spec fn spec_atomic_length(ta: JSTypedArray, buf_len: nat) -> nat {
    if ta.length_tracking {
        (if buf_len > ta.byte_offset {
            (buf_len - ta.byte_offset) as nat
        } else {
            0nat
        }) / spec_element_size(ta.kind)
    } else {
        ta.length as nat
    }
}

/// ValidateAtomicAccess: the element index of an Atomics operation.
pub fn validate_atomic_access(ta: &JSTypedArray, buffer: &JSArrayBuffer, index: IndexArg) -> (r: Result<
    usize,
    ErrorKind,
>)
    ensures
        match spec_to_index(index) {
            Err(e) => r == Err::<usize, ErrorKind>(e),
            Ok(i) => if i >= spec_atomic_length(*ta, buffer.data@.len()) {
                r == Err::<usize, ErrorKind>(ErrorKind::RangeError)
            } else {
                r is Ok && r->Ok_0 as nat == i
            },
        },
{
    let buf_len = buffer.data.len();
    let es = ta.element_size();
    let length: usize = if ta.length_tracking {
        let avail: usize = if buf_len > ta.byte_offset {
            buf_len - ta.byte_offset
        } else {
            0
        };
        avail / es
    } else {
        ta.length
    };
    let idx = match to_index(index) {
        Ok(i) => i,
        Err(e) => return Err(e),
    };
    if idx >= length as u64 {
        return Err(ErrorKind::RangeError);
    }
    Ok(idx as usize)
}

/// A read-modify-write Atomics operation.
#[derive(Clone, Copy, Debug, PartialEq, Eq, Structural)]
pub enum AtomicOp {
    Add,
    Sub,
    And,
    Or,
    Xor,
    Exchange,
}

/// The new raw value an operation stores, with 64-bit wrap-around.
pub open spec fn spec_atomic_update(op: AtomicOp, old: i64, operand: i64) -> i64 {
    match op {
        AtomicOp::Add => to_signed(((old as int + operand as int) % 0x1_0000_0000_0000_0000) as nat, 8) as i64,
        AtomicOp::Sub => to_signed(((old as int - operand as int) % 0x1_0000_0000_0000_0000) as nat, 8) as i64,
        AtomicOp::And => old & operand,
        AtomicOp::Or => old | operand,
        AtomicOp::Xor => old ^ operand,
        AtomicOp::Exchange => operand,
    }
}

/// The value an Atomics read-modify-write on a BigInt array stores.
pub fn atomic_bigint_update(op: AtomicOp, old: i64, operand: i64) -> (r: i64)
    ensures
        r == spec_atomic_update(op, old, operand),
{
    proof {
        lemma_pow256_values();
    }
    match op {
        AtomicOp::Add => {
            let s: i128 = old as i128 + operand as i128;
            let m: i128 = if s > 0x7FFF_FFFF_FFFF_FFFF {
                s - 0x1_0000_0000_0000_0000
            } else if s < -0x8000_0000_0000_0000 {
                s + 0x1_0000_0000_0000_0000
            } else {
                s
            };
            m as i64
        },
        AtomicOp::Sub => {
            let s: i128 = old as i128 - operand as i128;
            let m: i128 = if s > 0x7FFF_FFFF_FFFF_FFFF {
                s - 0x1_0000_0000_0000_0000
            } else if s < -0x8000_0000_0000_0000 {
                s + 0x1_0000_0000_0000_0000
            } else {
                s
            };
            m as i64
        },
        AtomicOp::And => old & operand,
        AtomicOp::Or => old | operand,
        AtomicOp::Xor => old ^ operand,
        AtomicOp::Exchange => operand,
    }
}

/// `Atomics.add/sub/and/or/xor/exchange` on a BigInt array at a validated
/// index: stores the updated value and returns the previous raw value.
pub fn atomics_bigint_read_modify_write(
    ta: &JSTypedArray,
    buffer: &mut JSArrayBuffer,
    idx: usize,
    op: AtomicOp,
    operand: i64,
) -> (r: i64)
    requires
        spec_is_bigint_kind(ta.kind),
        ta.wf(),
        element_position(*ta, idx as nat) + 8 <= usize::MAX,
        element_position(*ta, idx as nat) + 8 <= old(buffer).data@.len(),
        spec_is_valid_integer_index(*ta, old(buffer).data@.len(), idx as nat),
    ensures
        ({
            let p = element_position(*ta, idx as nat);
            &&& r as int == to_signed(bytes_value(old(buffer).data@.subrange(p as int, p + 8), true), 8)
            &&& final(buffer).data@ == old(buffer).data@.subrange(0, p as int) + encode(
                to_unsigned(spec_atomic_update(op, r, operand) as int, 8),
                8,
                true,
            ) + old(buffer).data@.subrange(p + 8, old(buffer).data@.len() as int)
        }),
{
    let old_raw = ta.get_bigint_raw(buffer, idx);
    let new_raw = atomic_bigint_update(op, old_raw, operand);
    ta.set_bigint(buffer, idx, new_raw);
    old_raw
}

/// `Atomics.compareExchange` on a BigInt array at a validated index:
/// stores `replacement` when the element equals `expected`; returns the
/// previous raw value.
pub fn atomics_bigint_compare_exchange(
    ta: &JSTypedArray,
    buffer: &mut JSArrayBuffer,
    idx: usize,
    expected: i64,
    replacement: i64,
) -> (r: i64)
    requires
        spec_is_bigint_kind(ta.kind),
        ta.wf(),
        element_position(*ta, idx as nat) + 8 <= usize::MAX,
        element_position(*ta, idx as nat) + 8 <= old(buffer).data@.len(),
        spec_is_valid_integer_index(*ta, old(buffer).data@.len(), idx as nat),
    ensures
        ({
            let p = element_position(*ta, idx as nat);
            &&& r as int == to_signed(bytes_value(old(buffer).data@.subrange(p as int, p + 8), true), 8)
            &&& if r == expected {
                final(buffer).data@ == old(buffer).data@.subrange(0, p as int) + encode(
                    to_unsigned(replacement as int, 8),
                    8,
                    true,
                ) + old(buffer).data@.subrange(p + 8, old(buffer).data@.len() as int)
            } else {
                final(buffer).data@ == old(buffer).data@
            }
        }),
{
    let old_raw = ta.get_bigint_raw(buffer, idx);
    if old_raw == expected {
        ta.set_bigint(buffer, idx, replacement);
    }
    old_raw
}

} // verus!

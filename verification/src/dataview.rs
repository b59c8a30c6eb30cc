//! `DataView.prototype` methods over integer element types (and the raw
//! bits of float16): argument order, detachment and bounds checks.
use crate::byte_codec::{byte_at, encode, lemma_pow256_values, pow256};
use crate::number_bits::spec_to_int32;
use crate::error::ErrorKind;
use crate::typed_array::{
    byte_swapped, law_view_read_after_write_any_order, same_buffer_state, spec_view_read, spec_view_start, spec_view_write, to_signed, JSArrayBuffer,
    JSDataView,
};
use crate::typed_array_ops::{spec_to_index, to_index, IndexArg};
use vstd::prelude::*;

verus! {

/// The element types a DataView method reads or writes here; float16 is
/// handled as its 16 raw bits.
#[derive(Clone, Copy, Debug, PartialEq, Eq, Structural)]
pub enum DataViewType {
    Int8,
    Uint8,
    Int16,
    Uint16,
    Int32,
    Uint32,
    Float16,
    BigInt64,
    BigUint64,
}

pub open spec fn spec_type_size(t: DataViewType) -> nat {
    match t {
        DataViewType::Int8 | DataViewType::Uint8 => 1,
        DataViewType::Int16 | DataViewType::Uint16 | DataViewType::Float16 => 2,
        DataViewType::Int32 | DataViewType::Uint32 => 4,
        DataViewType::BigInt64 | DataViewType::BigUint64 => 8,
    }
}

pub open spec fn spec_type_signed(t: DataViewType) -> bool {
    match t {
        DataViewType::Int8 | DataViewType::Int16 | DataViewType::Int32 | DataViewType::BigInt64 => true,
        _ => false,
    }
}

fn type_size(t: DataViewType) -> (r: usize)
    ensures
        r == spec_type_size(t),
{
    match t {
        DataViewType::Int8 | DataViewType::Uint8 => 1,
        DataViewType::Int16 | DataViewType::Uint16 | DataViewType::Float16 => 2,
        DataViewType::Int32 | DataViewType::Uint32 => 4,
        DataViewType::BigInt64 | DataViewType::BigUint64 => 8,
    }
}

/// A call on `DataView.prototype`: the offset as ToIndex reads it, the
/// littleEndian argument after ToBoolean, and for a setter the element's
/// bit pattern (the low bytes of `value`) or the error its conversion threw.
#[derive(Clone, Copy, Debug)]
pub enum DataViewMethod {
    Read { ty: DataViewType, offset: IndexArg, little_endian: bool },
    Write {
        ty: DataViewType,
        offset: IndexArg,
        value: Result<u64, ErrorKind>,
        little_endian: bool,
    },
    Buffer,
    ByteLength,
    ByteOffset,
}

/// What a DataView method answers.
#[derive(Clone, Copy, Debug, PartialEq, Eq, Structural)]
pub enum DataViewAnswer {
    Signed(i64),
    Unsigned(u64),
    Length(usize),
    /// The view's buffer object.
    Buffer,
    Undefined,
}

/// The view can be used: its buffer is not detached and the view lies
/// inside it.
pub open spec fn spec_view_usable(dv: JSDataView, buf: JSArrayBuffer) -> bool {
    &&& !buf.detached
    &&& if dv.length_tracking {
        dv.byte_offset <= buf.data@.len()
    } else {
        dv.byte_offset + dv.byte_length <= buf.data@.len()
    }
}

/// The offset a getter or setter uses: ToIndex, saturated to `usize`.
pub open spec fn spec_offset(o: u64) -> nat {
    if o > usize::MAX {
        usize::MAX as nat
    } else {
        o as nat
    }
}

/// The answer of a getter, or its error.
pub open spec fn spec_get(
    dv: JSDataView,
    buf: JSArrayBuffer,
    ty: DataViewType,
    offset: IndexArg,
    little_endian: bool,
) -> Result<DataViewAnswer, ErrorKind> {
    match spec_to_index(offset) {
        Err(e) => Err(e),
        Ok(o) => if !spec_view_usable(dv, buf) {
            Err(ErrorKind::TypeError)
        } else {
            match spec_view_read(dv, buf.data@, spec_offset(o), spec_type_size(ty), little_endian) {
                None => Err(ErrorKind::RangeError),
                Some(u) => if spec_type_signed(ty) {
                    Ok(DataViewAnswer::Signed(to_signed(u, spec_type_size(ty)) as i64))
                } else {
                    Ok(DataViewAnswer::Unsigned(u as u64))
                },
            }
        },
    }
}

/// The error of a setter, or `None` when it stores.
pub open spec fn spec_set_error(
    dv: JSDataView,
    buf: JSArrayBuffer,
    ty: DataViewType,
    offset: IndexArg,
    value: Result<u64, ErrorKind>,
) -> Option<ErrorKind> {
    match spec_to_index(offset) {
        Err(e) => Some(e),
        Ok(o) => match value {
            Err(e) => Some(e),
            Ok(_) => if !spec_view_usable(dv, buf) {
                Some(ErrorKind::TypeError)
            } else if spec_view_start(dv, buf.data@.len(), spec_offset(o), spec_type_size(ty)) is None {
                Some(ErrorKind::RangeError)
            } else {
                None
            },
        },
    }
}

/// `DataView.prototype` getters, setters and accessors; `receiver` is
/// `None` when `this` is not a DataView, else the view and its buffer.
pub fn handle_dataview_method(receiver: Option<(&JSDataView, &mut JSArrayBuffer)>, method: DataViewMethod) -> (r:
    Result<DataViewAnswer, ErrorKind>)
    ensures
        match receiver {
            None => r == Err::<DataViewAnswer, ErrorKind>(ErrorKind::TypeError),
            Some((dv, buf)) => {
                let old_buf = *buf;
                let new_buf = *final(buf);
                match method {
                    DataViewMethod::Read { ty, offset, little_endian } => r == spec_get(
                        *dv,
                        old_buf,
                        ty,
                        offset,
                        little_endian,
                    ) && new_buf == old_buf,
                    DataViewMethod::Write { ty, offset, value, little_endian } => match spec_set_error(
                        *dv,
                        old_buf,
                        ty,
                        offset,
                        value,
                    ) {
                        Some(e) => r == Err::<DataViewAnswer, ErrorKind>(e) && new_buf.data@
                            == old_buf.data@ && same_buffer_state(old_buf, new_buf),
                        None => r == Ok::<DataViewAnswer, ErrorKind>(DataViewAnswer::Undefined)
                            && new_buf.data@ == spec_view_write(
                            *dv,
                            old_buf.data@,
                            spec_offset(spec_to_index(offset)->Ok_0),
                            spec_type_size(ty),
                            value->Ok_0 as nat,
                            little_endian,
                        ) && same_buffer_state(old_buf, new_buf),
                    },
                    DataViewMethod::Buffer => r == Ok::<DataViewAnswer, ErrorKind>(
                        DataViewAnswer::Buffer,
                    ) && new_buf == old_buf,
                    DataViewMethod::ByteLength => new_buf == old_buf && if !spec_view_usable(
                        *dv,
                        old_buf,
                    ) {
                        r == Err::<DataViewAnswer, ErrorKind>(ErrorKind::TypeError)
                    } else if dv.length_tracking {
                        r == Ok::<DataViewAnswer, ErrorKind>(
                            DataViewAnswer::Length((old_buf.data@.len() - dv.byte_offset) as usize),
                        )
                    } else {
                        r == Ok::<DataViewAnswer, ErrorKind>(DataViewAnswer::Length(dv.byte_length))
                    },
                    DataViewMethod::ByteOffset => new_buf == old_buf && if !spec_view_usable(
                        *dv,
                        old_buf,
                    ) {
                        r == Err::<DataViewAnswer, ErrorKind>(ErrorKind::TypeError)
                    } else {
                        r == Ok::<DataViewAnswer, ErrorKind>(DataViewAnswer::Length(dv.byte_offset))
                    },
                }
            },
        },
{
    let (dv, buf) = match receiver {
        None => return Err(ErrorKind::TypeError),
        Some(p) => p,
    };
    proof {
        lemma_pow256_values();
    }
    match method {
        DataViewMethod::Read { ty, offset, little_endian } => {
            let o = match to_index(offset) {
                Ok(o) => o,
                Err(e) => return Err(e),
            };
            if !view_usable(dv, buf) {
                return Err(ErrorKind::TypeError);
            }
            let off = saturate(o);
            let size = type_size(ty);
            let u = match dv.read(buf, off, size, little_endian) {
                Ok(u) => u,
                Err(e) => return Err(e),
            };
            match ty {
                DataViewType::Int8 => Ok(DataViewAnswer::Signed(signed_of(u, 1))),
                DataViewType::Int16 => Ok(DataViewAnswer::Signed(signed_of(u, 2))),
                DataViewType::Int32 => Ok(DataViewAnswer::Signed(signed_of(u, 4))),
                DataViewType::BigInt64 => Ok(DataViewAnswer::Signed(signed_of(u, 8))),
                _ => Ok(DataViewAnswer::Unsigned(u)),
            }
        },
        DataViewMethod::Write { ty, offset, value, little_endian } => {
            let o = match to_index(offset) {
                Ok(o) => o,
                Err(e) => return Err(e),
            };
            let bits = match value {
                Ok(b) => b,
                Err(e) => return Err(e),
            };
            if !view_usable(dv, buf) {
                return Err(ErrorKind::TypeError);
            }
            let off = saturate(o);
            let size = type_size(ty);
            match dv.write(buf, off, size, bits, little_endian) {
                Ok(()) => Ok(DataViewAnswer::Undefined),
                Err(e) => Err(e),
            }
        },
        DataViewMethod::Buffer => Ok(DataViewAnswer::Buffer),
        DataViewMethod::ByteLength => {
            if !view_usable(dv, buf) {
                return Err(ErrorKind::TypeError);
            }
            if dv.length_tracking {
                Ok(DataViewAnswer::Length(buf.data.len() - dv.byte_offset))
            } else {
                Ok(DataViewAnswer::Length(dv.byte_length))
            }
        },
        DataViewMethod::ByteOffset => {
            if !view_usable(dv, buf) {
                return Err(ErrorKind::TypeError);
            }
            Ok(DataViewAnswer::Length(dv.byte_offset))
        },
    }
}

fn view_usable(dv: &JSDataView, buf: &JSArrayBuffer) -> (r: bool)
    ensures
        r == spec_view_usable(*dv, *buf),
{
    if buf.detached {
        return false;
    }
    let len = buf.data.len();
    if dv.length_tracking {
        dv.byte_offset <= len
    } else {
        dv.byte_offset <= len && dv.byte_length <= len - dv.byte_offset
    }
}

fn saturate(o: u64) -> (r: usize)
    ensures
        r as nat == spec_offset(o),
{
    if o > usize::MAX as u64 {
        usize::MAX
    } else {
        o as usize
    }
}

/// The two's-complement reading of an `n`-byte value.
fn signed_of(u: u64, n: usize) -> (r: i64)
    requires
        n == 1 || n == 2 || n == 4 || n == 8,
        u < pow256(n as nat),
    ensures
        r == to_signed(u as nat, n as nat),
{
    proof {
        lemma_pow256_values();
    }
    if n == 8 {
        if u >= 0x8000_0000_0000_0000 {
            (u - 0x8000_0000_0000_0000) as i64 - 0x7FFF_FFFF_FFFF_FFFF - 1
        } else {
            u as i64
        }
    } else {
        let half: u64 = if n == 1 {
            0x80
        } else if n == 2 {
            0x8000
        } else {
            0x8000_0000
        };
        if u >= half {
            u as i64 - (2 * half) as i64
        } else {
            u as i64
        }
    }
}

/// `setInt8` then `getInt8` at the same offset: the Number with binary64
/// pattern `b` is stored as the low byte of its ToInt32 (whatever byte
/// order either call names), and read back as that byte taken as a signed
/// 8-bit value.
pub proof fn law_dataview_int8_round_trip(dv: JSDataView, data: Seq<u8>, offset: nat, b: u64, le1: bool, le2: bool)
    requires
        spec_view_start(dv, data.len(), offset, 1) is Some,
    ensures
        ({
            let stored = (spec_to_int32(b) % 0x1_0000_0000) as nat;
            let byte = (spec_to_int32(b) % 0x100) as nat;
            &&& spec_view_read(dv, spec_view_write(dv, data, offset, 1, stored, le1), offset, 1, le2) == Some(byte)
            &&& to_signed(byte, 1) == if byte >= 0x80 {
                byte - 0x100
            } else {
                byte as int
            }
        }),
{
    lemma_pow256_values();
    let x = spec_to_int32(b);
    let stored = (x % 0x1_0000_0000) as nat;
    law_view_read_after_write_any_order(dv, data, offset, 1, stored, le1, le2);
    vstd::arithmetic::div_mod::lemma_mod_mod(x, 0x100, 0x100_0000);
    let e = encode(stored, 1, true);
    assert(e =~= seq![byte_at(stored, 0)]);
    assert(e.drop_last() =~= Seq::<u8>::empty());
    assert(crate::byte_codec::be_value(e.drop_last()) == 0);
    assert(byte_swapped(stored, 1) == e.last() as nat);
    assert(pow256(0) == 1);
    assert(stored / 1 == stored);
    assert(byte_at(stored, 0) == stored % 256);
    assert(stored % 256 == (x % 0x100) as nat);
}

} // verus!

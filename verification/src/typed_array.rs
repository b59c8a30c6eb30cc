//! ArrayBuffer storage, DataView element access and the integer parts of
//! TypedArray element access.
use crate::byte_codec::{
    be_value, bytes_value, encode, le_value, lemma_decode_encode, lemma_pow256_values, pow256, read_uint, write_uint,
};
use crate::error::ErrorKind;
use vstd::prelude::*;

verus! {

/// The element types of TypedArrays.
#[derive(Clone, Copy, Debug, PartialEq, Eq, Structural)]
pub enum TypedArrayKind {
    Int8,
    Uint8,
    Uint8Clamped,
    Int16,
    Uint16,
    Int32,
    Uint32,
    Float16,
    Float32,
    Float64,
    BigInt64,
    BigUint64,
}

/// The bytes of an ArrayBuffer or SharedArrayBuffer.
pub struct JSArrayBuffer {
    pub data: Vec<u8>,
    /// `Some` for a resizable (or growable) buffer.
    pub max_byte_length: Option<usize>,
    pub shared: bool,
    pub detached: bool,
}

/// A DataView over some buffer.
#[derive(Clone, Copy, Debug)]
pub struct JSDataView {
    pub byte_offset: usize,
    pub byte_length: usize,
    /// The view follows the length of a resizable buffer.
    pub length_tracking: bool,
}

/// A TypedArray over some buffer.
#[derive(Clone, Copy, Debug)]
pub struct JSTypedArray {
    pub kind: TypedArrayKind,
    pub byte_offset: usize,
    pub length: usize,
    /// The array follows the length of a resizable buffer.
    pub length_tracking: bool,
}

pub open spec fn spec_element_size(kind: TypedArrayKind) -> nat {
    match kind {
        TypedArrayKind::Int8 | TypedArrayKind::Uint8 | TypedArrayKind::Uint8Clamped => 1,
        TypedArrayKind::Int16 | TypedArrayKind::Uint16 | TypedArrayKind::Float16 => 2,
        TypedArrayKind::Int32 | TypedArrayKind::Uint32 | TypedArrayKind::Float32 => 4,
        TypedArrayKind::Float64 | TypedArrayKind::BigInt64 | TypedArrayKind::BigUint64 => 8,
    }
}

/// Size in bytes of one element of the given kind.
pub fn element_size_for_kind(kind: &TypedArrayKind) -> (r: usize)
    ensures
        r as nat == spec_element_size(*kind),
{
    match kind {
        TypedArrayKind::Int8 | TypedArrayKind::Uint8 | TypedArrayKind::Uint8Clamped => 1,
        TypedArrayKind::Int16 | TypedArrayKind::Uint16 | TypedArrayKind::Float16 => 2,
        TypedArrayKind::Int32 | TypedArrayKind::Uint32 | TypedArrayKind::Float32 => 4,
        TypedArrayKind::Float64 | TypedArrayKind::BigInt64 | TypedArrayKind::BigUint64 => 8,
    }
}

/// The kind numbered `n` in the constructors' internal numbering.
pub open spec fn spec_kind_from_number(n: i32) -> Option<TypedArrayKind> {
    if n == 0 {
        Some(TypedArrayKind::Int8)
    } else if n == 1 {
        Some(TypedArrayKind::Uint8)
    } else if n == 2 {
        Some(TypedArrayKind::Uint8Clamped)
    } else if n == 3 {
        Some(TypedArrayKind::Int16)
    } else if n == 4 {
        Some(TypedArrayKind::Uint16)
    } else if n == 5 {
        Some(TypedArrayKind::Int32)
    } else if n == 6 {
        Some(TypedArrayKind::Uint32)
    } else if n == 7 {
        Some(TypedArrayKind::Float16)
    } else if n == 8 {
        Some(TypedArrayKind::Float32)
    } else if n == 9 {
        Some(TypedArrayKind::Float64)
    } else if n == 10 {
        Some(TypedArrayKind::BigInt64)
    } else if n == 11 {
        Some(TypedArrayKind::BigUint64)
    } else {
        None
    }
}

pub fn kind_from_number(n: i32) -> (r: Option<TypedArrayKind>)
    ensures
        r == spec_kind_from_number(n),
{
    match n {
        0 => Some(TypedArrayKind::Int8),
        1 => Some(TypedArrayKind::Uint8),
        2 => Some(TypedArrayKind::Uint8Clamped),
        3 => Some(TypedArrayKind::Int16),
        4 => Some(TypedArrayKind::Uint16),
        5 => Some(TypedArrayKind::Int32),
        6 => Some(TypedArrayKind::Uint32),
        7 => Some(TypedArrayKind::Float16),
        8 => Some(TypedArrayKind::Float32),
        9 => Some(TypedArrayKind::Float64),
        10 => Some(TypedArrayKind::BigInt64),
        11 => Some(TypedArrayKind::BigUint64),
        _ => None,
    }
}

/// The internal number of a kind; inverse of `kind_from_number`.
pub fn typedarray_kind_to_number(kind: &TypedArrayKind) -> (r: i32)
    ensures
        spec_kind_from_number(r) == Some(*kind),
{
    match kind {
        TypedArrayKind::Int8 => 0,
        TypedArrayKind::Uint8 => 1,
        TypedArrayKind::Uint8Clamped => 2,
        TypedArrayKind::Int16 => 3,
        TypedArrayKind::Uint16 => 4,
        TypedArrayKind::Int32 => 5,
        TypedArrayKind::Uint32 => 6,
        TypedArrayKind::Float16 => 7,
        TypedArrayKind::Float32 => 8,
        TypedArrayKind::Float64 => 9,
        TypedArrayKind::BigInt64 => 10,
        TypedArrayKind::BigUint64 => 11,
    }
}

pub open spec fn spec_is_bigint_kind(kind: TypedArrayKind) -> bool {
    kind == TypedArrayKind::BigInt64 || kind == TypedArrayKind::BigUint64
}

/// Whether the kind holds BigInt elements.
pub fn is_bigint_typed_array(kind: &TypedArrayKind) -> (r: bool)
    ensures
        r == spec_is_bigint_kind(*kind),
{
    match kind {
        TypedArrayKind::BigInt64 | TypedArrayKind::BigUint64 => true,
        _ => false,
    }
}

/// Integer kinds that Atomics operations accept (not the float kinds and
/// not Uint8Clamped).
pub open spec fn spec_is_valid_atomic_kind(kind: TypedArrayKind) -> bool {
    match kind {
        TypedArrayKind::Int8 | TypedArrayKind::Uint8 | TypedArrayKind::Int16
        | TypedArrayKind::Uint16 | TypedArrayKind::Int32 | TypedArrayKind::Uint32
        | TypedArrayKind::BigInt64 | TypedArrayKind::BigUint64 => true,
        _ => false,
    }
}

pub fn is_valid_atomic_type(kind: &TypedArrayKind) -> (r: bool)
    ensures
        r == spec_is_valid_atomic_kind(*kind),
{
    match kind {
        TypedArrayKind::Int8 | TypedArrayKind::Uint8 | TypedArrayKind::Int16
        | TypedArrayKind::Uint16 | TypedArrayKind::Int32 | TypedArrayKind::Uint32
        | TypedArrayKind::BigInt64 | TypedArrayKind::BigUint64 => true,
        _ => false,
    }
}

/// Two's-complement reading of an `n`-byte unsigned value.
pub open spec fn to_signed(u: nat, n: nat) -> int {
    if u >= pow256(n) / 2 {
        u - pow256(n)
    } else {
        u as int
    }
}

/// The `n`-byte two's-complement pattern of `v`.
pub open spec fn to_unsigned(v: int, n: nat) -> nat {
    if v < 0 {
        (v + pow256(n)) as nat
    } else {
        v as nat
    }
}

/// Where an access of `size` bytes at `offset` into the view starts in the
/// buffer, or `None` when it falls outside the view or the buffer.
pub open spec fn spec_view_start(dv: JSDataView, buf_len: nat, offset: nat, size: nat) -> Option<nat> {
    let eff: Option<nat> = if dv.length_tracking {
        if dv.byte_offset > buf_len {
            None
        } else {
            Some((buf_len - dv.byte_offset) as nat)
        }
    } else {
        Some(dv.byte_length as nat)
    };
    match eff {
        None => None,
        Some(e) => if offset + size > e || dv.byte_offset + offset + size > buf_len {
            None
        } else {
            Some((dv.byte_offset + offset) as nat)
        },
    }
}

/// The unsigned value a view reads: `size` bytes at `offset` in the given order.
pub open spec fn spec_view_read(dv: JSDataView, data: Seq<u8>, offset: nat, size: nat, little_endian: bool) -> Option<nat> {
    match spec_view_start(dv, data.len(), offset, size) {
        None => None,
        Some(st) => Some(bytes_value(data.subrange(st as int, (st + size) as int), little_endian)),
    }
}

/// The buffer after a view stores the `size` low bytes of `v` at `offset`.
pub open spec fn spec_view_write(dv: JSDataView, data: Seq<u8>, offset: nat, size: nat, v: nat, little_endian: bool) -> Seq<u8> {
    match spec_view_start(dv, data.len(), offset, size) {
        None => data,
        Some(st) => data.subrange(0, st as int) + encode(v, size, little_endian) + data.subrange(
            (st + size) as int,
            data.len() as int,
        ),
    }
}

/// A write through a view leaves everything but the buffer's bytes as it was.
pub open spec fn same_buffer_state(a: JSArrayBuffer, b: JSArrayBuffer) -> bool {
    &&& a.max_byte_length == b.max_byte_length
    &&& a.shared == b.shared
    &&& a.detached == b.detached
}

impl JSDataView {
    fn check_bounds(&self, buffer: &JSArrayBuffer, offset: usize, size: usize) -> (r: Result<usize, ErrorKind>)
        requires
            1 <= size <= 8,
        ensures
            match spec_view_start(*self, buffer.data@.len(), offset as nat, size as nat) {
                None => r == Err::<usize, ErrorKind>(ErrorKind::RangeError),
                Some(st) => r is Ok && r->Ok_0 as nat == st,
            },
    {
        let buffer_len = buffer.data.len();
        let effective_byte_length = if self.length_tracking {
            if self.byte_offset > buffer_len {
                return Err(ErrorKind::RangeError);
            }
            buffer_len - self.byte_offset
        } else {
            self.byte_length
        };
        if offset > effective_byte_length || size > effective_byte_length - offset {
            return Err(ErrorKind::RangeError);
        }
        if self.byte_offset > buffer_len || offset > buffer_len - self.byte_offset || size
            > buffer_len - self.byte_offset - offset {
            return Err(ErrorKind::RangeError);
        }
        Ok(self.byte_offset + offset)
    }

    pub(crate) fn read(&self, buffer: &JSArrayBuffer, offset: usize, size: usize, little_endian: bool) -> (r:
        Result<u64, ErrorKind>)
        requires
            1 <= size <= 8,
        ensures
            match spec_view_read(*self, buffer.data@, offset as nat, size as nat, little_endian) {
                None => r == Err::<u64, ErrorKind>(ErrorKind::RangeError),
                Some(v) => r == Ok::<u64, ErrorKind>(v as u64) && v < pow256(size as nat),
            },
    {
        let idx = match self.check_bounds(buffer, offset, size) {
            Ok(i) => i,
            Err(e) => return Err(e),
        };
        let v = read_uint(&buffer.data, idx, size, little_endian);
        proof {
            crate::byte_codec::lemma_pow256_monotone(size as nat, 8);
            lemma_pow256_values();
            let b = buffer.data@.subrange(idx as int, idx + size);
            crate::byte_codec::lemma_le_value_bound(b);
            crate::byte_codec::lemma_be_value_bound(b);
        }
        Ok(v)
    }

    pub(crate) fn write(&self, buffer: &mut JSArrayBuffer, offset: usize, size: usize, v: u64, little_endian: bool) -> (r:
        Result<(), ErrorKind>)
        requires
            1 <= size <= 8,
        ensures
            r is Err <==> spec_view_start(*self, old(buffer).data@.len(), offset as nat, size as nat) is None,
            r is Err ==> r == Err::<(), ErrorKind>(ErrorKind::RangeError),
            final(buffer).data@ == spec_view_write(
                *self,
                old(buffer).data@,
                offset as nat,
                size as nat,
                v as nat,
                little_endian,
            ),
            same_buffer_state(*old(buffer), *final(buffer)),
    {
        let idx = match self.check_bounds(buffer, offset, size) {
            Ok(i) => i,
            Err(e) => return Err(e),
        };
        let ghost before = buffer.data@;
        write_uint(&mut buffer.data, idx, size, v, little_endian);
        assert(buffer.data@ == before.subrange(0, idx as int) + encode(v as nat, size as nat, little_endian)
            + before.subrange(idx + size, before.len() as int));
        Ok(())
    }

    /// `DataView.prototype.getInt8(offset)`.
    pub fn get_int8(&self, buffer: &JSArrayBuffer, offset: usize) -> (r: Result<i8, ErrorKind>)
        ensures
            match spec_view_read(*self, buffer.data@, offset as nat, 1, true) {
                None => r == Err::<i8, ErrorKind>(ErrorKind::RangeError),
                Some(u) => r is Ok && r->Ok_0 as int == to_signed(u, 1),
            },
    {
        proof {
            lemma_pow256_values();
        }
        let u = match self.read(buffer, offset, 1, true) {
            Ok(u) => u,
            Err(e) => return Err(e),
        };
        Ok(if u >= 128 {
            (u as i64 - 256) as i8
        } else {
            u as i8
        })
    }

    /// `DataView.prototype.getUint8(offset)`.
    pub fn get_uint8(&self, buffer: &JSArrayBuffer, offset: usize) -> (r: Result<u8, ErrorKind>)
        ensures
            match spec_view_read(*self, buffer.data@, offset as nat, 1, true) {
                None => r == Err::<u8, ErrorKind>(ErrorKind::RangeError),
                Some(u) => r is Ok && r->Ok_0 as nat == u,
            },
    {
        proof {
            lemma_pow256_values();
        }
        let u = match self.read(buffer, offset, 1, true) {
            Ok(u) => u,
            Err(e) => return Err(e),
        };
        Ok(u as u8)
    }

    /// `DataView.prototype.getInt16(offset, littleEndian)`.
    pub fn get_int16(&self, buffer: &JSArrayBuffer, offset: usize, little_endian: bool) -> (r: Result<
        i16,
        ErrorKind,
    >)
        ensures
            match spec_view_read(*self, buffer.data@, offset as nat, 2, little_endian) {
                None => r == Err::<i16, ErrorKind>(ErrorKind::RangeError),
                Some(u) => r is Ok && r->Ok_0 as int == to_signed(u, 2),
            },
    {
        proof {
            lemma_pow256_values();
        }
        let u = match self.read(buffer, offset, 2, little_endian) {
            Ok(u) => u,
            Err(e) => return Err(e),
        };
        Ok(if u >= 32768 {
            (u as i64 - 65536) as i16
        } else {
            u as i16
        })
    }

    /// `DataView.prototype.getUint16(offset, littleEndian)`.
    pub fn get_uint16(&self, buffer: &JSArrayBuffer, offset: usize, little_endian: bool) -> (r: Result<
        u16,
        ErrorKind,
    >)
        ensures
            match spec_view_read(*self, buffer.data@, offset as nat, 2, little_endian) {
                None => r == Err::<u16, ErrorKind>(ErrorKind::RangeError),
                Some(u) => r is Ok && r->Ok_0 as nat == u,
            },
    {
        proof {
            lemma_pow256_values();
        }
        let u = match self.read(buffer, offset, 2, little_endian) {
            Ok(u) => u,
            Err(e) => return Err(e),
        };
        Ok(u as u16)
    }

    /// `DataView.prototype.getFloat16(offset, littleEndian)`: the raw
    /// binary16 bit pattern.
    pub fn get_float16(&self, buffer: &JSArrayBuffer, offset: usize, little_endian: bool) -> (r: Result<
        u16,
        ErrorKind,
    >)
        ensures
            match spec_view_read(*self, buffer.data@, offset as nat, 2, little_endian) {
                None => r == Err::<u16, ErrorKind>(ErrorKind::RangeError),
                Some(u) => r is Ok && r->Ok_0 as nat == u,
            },
    {
        proof {
            lemma_pow256_values();
        }
        let u = match self.read(buffer, offset, 2, little_endian) {
            Ok(u) => u,
            Err(e) => return Err(e),
        };
        Ok(u as u16)
    }

    /// `DataView.prototype.getInt32(offset, littleEndian)`.
    pub fn get_int32(&self, buffer: &JSArrayBuffer, offset: usize, little_endian: bool) -> (r: Result<
        i32,
        ErrorKind,
    >)
        ensures
            match spec_view_read(*self, buffer.data@, offset as nat, 4, little_endian) {
                None => r == Err::<i32, ErrorKind>(ErrorKind::RangeError),
                Some(u) => r is Ok && r->Ok_0 as int == to_signed(u, 4),
            },
    {
        proof {
            lemma_pow256_values();
        }
        let u = match self.read(buffer, offset, 4, little_endian) {
            Ok(u) => u,
            Err(e) => return Err(e),
        };
        Ok(if u >= 0x8000_0000 {
            (u as i64 - 0x1_0000_0000) as i32
        } else {
            u as i32
        })
    }

    /// `DataView.prototype.getUint32(offset, littleEndian)`.
    pub fn get_uint32(&self, buffer: &JSArrayBuffer, offset: usize, little_endian: bool) -> (r: Result<
        u32,
        ErrorKind,
    >)
        ensures
            match spec_view_read(*self, buffer.data@, offset as nat, 4, little_endian) {
                None => r == Err::<u32, ErrorKind>(ErrorKind::RangeError),
                Some(u) => r is Ok && r->Ok_0 as nat == u,
            },
    {
        proof {
            lemma_pow256_values();
        }
        let u = match self.read(buffer, offset, 4, little_endian) {
            Ok(u) => u,
            Err(e) => return Err(e),
        };
        Ok(u as u32)
    }

    /// `DataView.prototype.getBigInt64(offset, littleEndian)`.
    pub fn get_bigint64(&self, buffer: &JSArrayBuffer, offset: usize, little_endian: bool) -> (r: Result<
        i64,
        ErrorKind,
    >)
        ensures
            match spec_view_read(*self, buffer.data@, offset as nat, 8, little_endian) {
                None => r == Err::<i64, ErrorKind>(ErrorKind::RangeError),
                Some(u) => r is Ok && r->Ok_0 as int == to_signed(u, 8),
            },
    {
        proof {
            lemma_pow256_values();
        }
        let u = match self.read(buffer, offset, 8, little_endian) {
            Ok(u) => u,
            Err(e) => return Err(e),
        };
        Ok(if u >= 0x8000_0000_0000_0000 {
            (u - 0x8000_0000_0000_0000) as i64 - 0x7FFF_FFFF_FFFF_FFFF - 1
        } else {
            u as i64
        })
    }

    /// `DataView.prototype.getBigUint64(offset, littleEndian)`.
    pub fn get_biguint64(&self, buffer: &JSArrayBuffer, offset: usize, little_endian: bool) -> (r: Result<
        u64,
        ErrorKind,
    >)
        ensures
            match spec_view_read(*self, buffer.data@, offset as nat, 8, little_endian) {
                None => r == Err::<u64, ErrorKind>(ErrorKind::RangeError),
                Some(u) => r is Ok && r->Ok_0 as nat == u,
            },
    {
        proof {
            lemma_pow256_values();
        }
        let u = match self.read(buffer, offset, 8, little_endian) {
            Ok(u) => u,
            Err(e) => return Err(e),
        };
        Ok(u)
    }

    /// `DataView.prototype.setInt8(offset, value)`.
    pub fn set_int8(&self, buffer: &mut JSArrayBuffer, offset: usize, value: i8) -> (r: Result<
        (),
        ErrorKind,
    >)
        ensures
            r is Err <==> spec_view_start(*self, old(buffer).data@.len(), offset as nat, 1) is None,
            r is Err ==> r == Err::<(), ErrorKind>(ErrorKind::RangeError),
            final(buffer).data@ == spec_view_write(
                *self,
                old(buffer).data@,
                offset as nat,
                1,
                to_unsigned(value as int, 1),
                true,
            ),
            same_buffer_state(*old(buffer), *final(buffer)),
    {
        proof {
            lemma_pow256_values();
        }
        let u: u64 = if value < 0 {
            (value as i64 + 256) as u64
        } else {
            value as u64
        };
        self.write(buffer, offset, 1, u, true)
    }

    /// `DataView.prototype.setUint8(offset, value)`.
    pub fn set_uint8(&self, buffer: &mut JSArrayBuffer, offset: usize, value: u8) -> (r: Result<
        (),
        ErrorKind,
    >)
        ensures
            r is Err <==> spec_view_start(*self, old(buffer).data@.len(), offset as nat, 1) is None,
            r is Err ==> r == Err::<(), ErrorKind>(ErrorKind::RangeError),
            final(buffer).data@ == spec_view_write(
                *self,
                old(buffer).data@,
                offset as nat,
                1,
                value as nat,
                true,
            ),
            same_buffer_state(*old(buffer), *final(buffer)),
    {
        self.write(buffer, offset, 1, value as u64, true)
    }

    /// `DataView.prototype.setInt16(offset, value, littleEndian)`.
    pub fn set_int16(&self, buffer: &mut JSArrayBuffer, offset: usize, value: i16, little_endian: bool) -> (r:
        Result<(), ErrorKind>)
        ensures
            r is Err <==> spec_view_start(*self, old(buffer).data@.len(), offset as nat, 2) is None,
            r is Err ==> r == Err::<(), ErrorKind>(ErrorKind::RangeError),
            final(buffer).data@ == spec_view_write(
                *self,
                old(buffer).data@,
                offset as nat,
                2,
                to_unsigned(value as int, 2),
                little_endian,
            ),
            same_buffer_state(*old(buffer), *final(buffer)),
    {
        proof {
            lemma_pow256_values();
        }
        let u: u64 = if value < 0 {
            (value as i64 + 65536) as u64
        } else {
            value as u64
        };
        self.write(buffer, offset, 2, u, little_endian)
    }

    /// `DataView.prototype.setUint16(offset, value, littleEndian)`.
    pub fn set_uint16(&self, buffer: &mut JSArrayBuffer, offset: usize, value: u16, little_endian: bool) -> (r:
        Result<(), ErrorKind>)
        ensures
            r is Err <==> spec_view_start(*self, old(buffer).data@.len(), offset as nat, 2) is None,
            r is Err ==> r == Err::<(), ErrorKind>(ErrorKind::RangeError),
            final(buffer).data@ == spec_view_write(
                *self,
                old(buffer).data@,
                offset as nat,
                2,
                value as nat,
                little_endian,
            ),
            same_buffer_state(*old(buffer), *final(buffer)),
    {
        self.write(buffer, offset, 2, value as u64, little_endian)
    }

    /// `DataView.prototype.setFloat16(offset, value, littleEndian)` with the
    /// value already converted to its binary16 bit pattern.
    pub fn set_float16(&self, buffer: &mut JSArrayBuffer, offset: usize, value: u16, little_endian: bool) -> (r:
        Result<(), ErrorKind>)
        ensures
            r is Err <==> spec_view_start(*self, old(buffer).data@.len(), offset as nat, 2) is None,
            r is Err ==> r == Err::<(), ErrorKind>(ErrorKind::RangeError),
            final(buffer).data@ == spec_view_write(
                *self,
                old(buffer).data@,
                offset as nat,
                2,
                value as nat,
                little_endian,
            ),
            same_buffer_state(*old(buffer), *final(buffer)),
    {
        self.write(buffer, offset, 2, value as u64, little_endian)
    }

    /// `DataView.prototype.setInt32(offset, value, littleEndian)`.
    pub fn set_int32(&self, buffer: &mut JSArrayBuffer, offset: usize, value: i32, little_endian: bool) -> (r:
        Result<(), ErrorKind>)
        ensures
            r is Err <==> spec_view_start(*self, old(buffer).data@.len(), offset as nat, 4) is None,
            r is Err ==> r == Err::<(), ErrorKind>(ErrorKind::RangeError),
            final(buffer).data@ == spec_view_write(
                *self,
                old(buffer).data@,
                offset as nat,
                4,
                to_unsigned(value as int, 4),
                little_endian,
            ),
            same_buffer_state(*old(buffer), *final(buffer)),
    {
        proof {
            lemma_pow256_values();
        }
        let u: u64 = if value < 0 {
            (value as i64 + 0x1_0000_0000) as u64
        } else {
            value as u64
        };
        self.write(buffer, offset, 4, u, little_endian)
    }

    /// `DataView.prototype.setUint32(offset, value, littleEndian)`.
    pub fn set_uint32(&self, buffer: &mut JSArrayBuffer, offset: usize, value: u32, little_endian: bool) -> (r:
        Result<(), ErrorKind>)
        ensures
            r is Err <==> spec_view_start(*self, old(buffer).data@.len(), offset as nat, 4) is None,
            r is Err ==> r == Err::<(), ErrorKind>(ErrorKind::RangeError),
            final(buffer).data@ == spec_view_write(
                *self,
                old(buffer).data@,
                offset as nat,
                4,
                value as nat,
                little_endian,
            ),
            same_buffer_state(*old(buffer), *final(buffer)),
    {
        self.write(buffer, offset, 4, value as u64, little_endian)
    }

    /// `DataView.prototype.setBigInt64(offset, value, littleEndian)`.
    pub fn set_bigint64(&self, buffer: &mut JSArrayBuffer, offset: usize, value: i64, little_endian: bool) -> (r:
        Result<(), ErrorKind>)
        ensures
            r is Err <==> spec_view_start(*self, old(buffer).data@.len(), offset as nat, 8) is None,
            r is Err ==> r == Err::<(), ErrorKind>(ErrorKind::RangeError),
            final(buffer).data@ == spec_view_write(
                *self,
                old(buffer).data@,
                offset as nat,
                8,
                to_unsigned(value as int, 8),
                little_endian,
            ),
            same_buffer_state(*old(buffer), *final(buffer)),
    {
        proof {
            lemma_pow256_values();
        }
        let u: u64 = if value < 0 {
            (value + 0x7FFF_FFFF_FFFF_FFFF + 1) as u64 + 0x8000_0000_0000_0000
        } else {
            value as u64
        };
        self.write(buffer, offset, 8, u, little_endian)
    }

    /// `DataView.prototype.setBigUint64(offset, value, littleEndian)`.
    pub fn set_biguint64(&self, buffer: &mut JSArrayBuffer, offset: usize, value: u64, little_endian: bool) -> (r:
        Result<(), ErrorKind>)
        ensures
            r is Err <==> spec_view_start(*self, old(buffer).data@.len(), offset as nat, 8) is None,
            r is Err ==> r == Err::<(), ErrorKind>(ErrorKind::RangeError),
            final(buffer).data@ == spec_view_write(
                *self,
                old(buffer).data@,
                offset as nat,
                8,
                value as nat,
                little_endian,
            ),
            same_buffer_state(*old(buffer), *final(buffer)),
    {
        self.write(buffer, offset, 8, value, little_endian)
    }
}

/// A fixed-length view that lies inside its buffer reads `size` bytes at
/// `offset` exactly when they fit in the view, starting at the view's
/// offset plus `offset`; a two-byte read in little-endian order takes the
/// first byte as the low one, in big-endian order as the high one.
pub proof fn law_view_bounds_and_byte_order(dv: JSDataView, data: Seq<u8>, offset: nat, size: nat)
    requires
        !dv.length_tracking,
        dv.byte_offset + dv.byte_length <= data.len(),
    ensures
        spec_view_start(dv, data.len(), offset, size) is Some <==> offset + size <= dv.byte_length,
        offset + size <= dv.byte_length ==> spec_view_start(dv, data.len(), offset, size) == Some(
            (dv.byte_offset + offset) as nat,
        ),
        offset + 2 <= dv.byte_length ==> {
            let p = dv.byte_offset + offset;
            &&& spec_view_read(dv, data, offset, 2, true) == Some((data[p] + 256 * data[p + 1]) as nat)
            &&& spec_view_read(dv, data, offset, 2, false) == Some((256 * data[p] + data[p + 1]) as nat)
        },
{
    if offset + 2 <= dv.byte_length {
        let p = dv.byte_offset + offset;
        let b = data.subrange(p as int, p + 2);
        assert(b.drop_first().drop_first().len() == 0);
        assert(b.drop_last().drop_last().len() == 0);
        assert(le_value(b.drop_first()) == b[1] + 256 * le_value(b.drop_first().drop_first()));
        assert(be_value(b.drop_last()) == be_value(b.drop_last().drop_last()) * 256 + b[0]);
    }
}

/// Read-after-write: reading through a view the bytes it has just written
/// at the same offset, in the same byte order, gives back the value stored
/// (modulo the width), whenever the access is in bounds.
pub proof fn law_view_read_after_write(
    dv: JSDataView,
    data: Seq<u8>,
    offset: nat,
    size: nat,
    v: nat,
    little_endian: bool,
)
    requires
        spec_view_start(dv, data.len(), offset, size) is Some,
    ensures
        spec_view_read(dv, spec_view_write(dv, data, offset, size, v, little_endian), offset, size, little_endian)
            == Some(v % pow256(size)),
{
    let st = spec_view_start(dv, data.len(), offset, size)->0;
    let w = spec_view_write(dv, data, offset, size, v, little_endian);
    let e = encode(v, size, little_endian);
    assert(w.len() == data.len());
    assert(w.subrange(st as int, (st + size) as int) =~= e);
    lemma_decode_encode(v, size, little_endian);
}

/// The value whose little-endian bytes are those of `v` (its low `n`
/// bytes) in the opposite order: what a read in one byte order gives of a
/// write in the other.
pub open spec fn byte_swapped(v: nat, n: nat) -> nat {
    be_value(encode(v, n, true))
}

proof fn lemma_be_reverse(b: Seq<u8>)
    ensures
        be_value(b) == le_value(b.reverse()),
    decreases b.len(),
{
    if b.len() > 0 {
        lemma_be_reverse(b.drop_last());
        assert(b.reverse().drop_first() =~= b.drop_last().reverse());
        assert(b.reverse()[0] == b.last());
    }
}

/// Read-after-write in either byte order: reading through a view, in byte
/// order `le2`, the bytes it has just written at the same offset in order
/// `le1` gives the value stored (modulo the width) when the orders agree,
/// and its bytes swapped when they differ.
pub proof fn law_view_read_after_write_any_order(
    dv: JSDataView,
    data: Seq<u8>,
    offset: nat,
    size: nat,
    v: nat,
    le1: bool,
    le2: bool,
)
    requires
        spec_view_start(dv, data.len(), offset, size) is Some,
    ensures
        spec_view_read(dv, spec_view_write(dv, data, offset, size, v, le1), offset, size, le2) == Some(
            if le1 == le2 {
                v % pow256(size)
            } else {
                byte_swapped(v, size)
            },
        ),
{
    let st = spec_view_start(dv, data.len(), offset, size)->0;
    let w = spec_view_write(dv, data, offset, size, v, le1);
    let e = encode(v, size, le1);
    assert(w.len() == data.len());
    assert(w.subrange(st as int, (st + size) as int) =~= e);
    lemma_decode_encode(v, size, le1);
    if !le1 && le2 {
        let t = encode(v, size, true);
        assert(e =~= t.reverse());
        lemma_be_reverse(t);
    }
}

/// A write through a view does not change bytes outside the written range:
/// a later read of a disjoint range sees what was there before.
pub proof fn law_view_write_frame(
    dv: JSDataView,
    data: Seq<u8>,
    offset: nat,
    size: nat,
    v: nat,
    little_endian: bool,
    other: nat,
    other_size: nat,
    other_le: bool,
)
    requires
        spec_view_start(dv, data.len(), offset, size) is Some,
        other + other_size <= offset || offset + size <= other,
    ensures
        spec_view_read(dv, spec_view_write(dv, data, offset, size, v, little_endian), other, other_size, other_le)
            == spec_view_read(dv, data, other, other_size, other_le),
{
    let st = spec_view_start(dv, data.len(), offset, size)->0;
    let w = spec_view_write(dv, data, offset, size, v, little_endian);
    assert(w.len() == data.len());
    match spec_view_start(dv, data.len(), other, other_size) {
        None => {},
        Some(ost) => {
            assert(w.subrange(ost as int, (ost + other_size) as int) =~= data.subrange(ost as int, (ost + other_size) as int));
        },
    }
}

/// A signed value survives the trip through its two's-complement pattern.
pub proof fn lemma_signed_roundtrip(v: int, n: nat)
    requires
        1 <= n <= 8,
        -(pow256(n) / 2) <= v < pow256(n) / 2,
    ensures
        to_unsigned(v, n) < pow256(n),
        to_signed(to_unsigned(v, n) % pow256(n), n) == v,
{
    crate::byte_codec::lemma_pow256_pos(n);
    let p = pow256(n);
    let u = to_unsigned(v, n);
    assert(u < p);
    assert(u % p == u) by {
        vstd::arithmetic::div_mod::lemma_small_mod(u, p);
    }
}

} // verus!

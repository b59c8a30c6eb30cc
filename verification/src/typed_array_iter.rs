//! The bounds check TypedArray operations start with, the `next` step of
//! TypedArray iterators, and the BigInt a raw BigInt element stands for.
use crate::byte_codec::{bytes_value, lemma_pow256_values, read_uint};
use crate::error::ErrorKind;
use crate::typed_array::{JSArrayBuffer, JSTypedArray, TypedArrayKind, spec_element_size};
use crate::typed_array_ops::{element_position, spec_current_length, spec_out_of_bounds};
use vstd::prelude::*;

verus! {

/// Throws a TypeError when a TypedArray lies outside its buffer of
/// `buffer_len` bytes (IsTypedArrayOutOfBounds).
pub fn ensure_typedarray_in_bounds(ta: &JSTypedArray, buffer_len: usize) -> (r: Result<(), ErrorKind>)
    requires
        ta.wf(),
    ensures
        r is Ok <==> !spec_out_of_bounds(*ta, buffer_len as nat),
        r is Err ==> r == Err::<(), ErrorKind>(ErrorKind::TypeError),
{
    let es = ta.element_size();
    if !ta.length_tracking {
        assert(ta.length * es <= usize::MAX) by (nonlinear_arith)
            requires
                ta.byte_offset + ta.length * es <= usize::MAX,
        ;
        let needed = ta.byte_offset + es * ta.length;
        assert(es * ta.length == ta.length * es) by (nonlinear_arith);
        if buffer_len < needed {
            return Err(ErrorKind::TypeError);
        }
    } else {
        if ta.byte_offset > buffer_len {
            return Err(ErrorKind::TypeError);
        }
    }
    Ok(())
}

/// The bits of element `idx` of a TypedArray, read little-endian.
pub open spec fn element_bits(ta: JSTypedArray, data: Seq<u8>, idx: nat) -> nat {
    let p = element_position(ta, idx);
    bytes_value(data.subrange(p, p + spec_element_size(ta.kind)), true)
}

/// One step of a TypedArray iterator: `None` when done, else the bits of
/// element `index` and the next index.
pub open spec fn spec_iterator_next(ta: JSTypedArray, buf: JSArrayBuffer, index: nat) -> Result<
    Option<(u64, usize)>,
    ErrorKind,
> {
    if buf.detached || spec_out_of_bounds(ta, buf.data@.len()) {
        Err(ErrorKind::TypeError)
    } else if index < spec_current_length(ta, buf.data@.len()) {
        Ok(Some((element_bits(ta, buf.data@, index) as u64, (index + 1) as usize)))
    } else {
        Ok(None)
    }
}

/// `%TypedArrayIteratorPrototype%.next()` for an iterator at `index`: a
/// detached buffer or an array outside it is a TypeError.
pub fn handle_typedarray_iterator_next(ta: &JSTypedArray, buffer: &JSArrayBuffer, index: usize) -> (r: Result<
    Option<(u64, usize)>,
    ErrorKind,
>)
    requires
        ta.wf(),
    ensures
        r == spec_iterator_next(*ta, *buffer, index as nat),
{
    proof {
        lemma_pow256_values();
    }
    if buffer.detached {
        return Err(ErrorKind::TypeError);
    }
    let buf_len = buffer.data.len();
    if ensure_typedarray_in_bounds(ta, buf_len).is_err() {
        return Err(ErrorKind::TypeError);
    }
    let es = ta.element_size();
    let cur_len: usize = if ta.length_tracking {
        if buf_len <= ta.byte_offset {
            0
        } else {
            (buf_len - ta.byte_offset) / es
        }
    } else {
        ta.length
    };
    assert(cur_len == spec_current_length(*ta, buf_len as nat));
    if index >= cur_len {
        return Ok(None);
    }
    proof {
        let len = buf_len as nat;
        if ta.length_tracking {
            let a = (len - ta.byte_offset) as nat;
            assert(cur_len * es <= a) by (nonlinear_arith)
                requires
                    es > 0,
                    cur_len == a / es as nat,
            ;
            assert((index + 1) * es <= cur_len * es) by (nonlinear_arith)
                requires
                    index + 1 <= cur_len,
                    es > 0,
            ;
        } else {
            assert((index + 1) * es <= ta.length * es) by (nonlinear_arith)
                requires
                    index + 1 <= ta.length,
                    es > 0,
            ;
        }
        assert(index * es + es == (index + 1) * es) by (nonlinear_arith);
    }
    let p = ta.byte_offset + index * es;
    let bits = read_uint(&buffer.data, p, es, true);
    Ok(Some((bits, index + 1)))
}

/// The BigInt a raw 64-bit element stands for: unsigned in a
/// BigUint64Array, signed otherwise.
#[derive(Clone, Copy, Debug, PartialEq, Eq, Structural)]
pub enum RawBigInt {
    Signed(i64),
    Unsigned(u64),
}

pub fn raw_i64_to_bigint(raw: i64, kind: &TypedArrayKind) -> (r: RawBigInt)
    ensures
        r == if *kind == TypedArrayKind::BigUint64 {
            RawBigInt::Unsigned(raw as u64)
        } else {
            RawBigInt::Signed(raw)
        },
{
    match kind {
        TypedArrayKind::BigUint64 => RawBigInt::Unsigned(raw as u64),
        _ => RawBigInt::Signed(raw),
    }
}

} // verus!

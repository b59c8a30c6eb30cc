//! The TypedArray constructors: which buffer, offset and length a new
//! TypedArray gets from its arguments, and the errors they raise.
use crate::error::ErrorKind;
use crate::typed_array::{
    element_size_for_kind, is_bigint_typed_array, kind_from_number, spec_element_size,
    spec_is_bigint_kind, spec_kind_from_number, JSTypedArray, TypedArrayKind,
};
use crate::typed_array_ops::{spec_to_index, to_index, IndexArg};
use vstd::prelude::*;

verus! {

/// What the first argument of a TypedArray constructor is.
#[derive(Clone, Copy, Debug)]
pub enum TypedArrayInit {
    /// No argument.
    Empty,
    /// A value that is not an object: the length, as ToIndex reads it.
    Length(IndexArg),
    /// Another TypedArray, with the length of its buffer.
    FromTypedArray { source: JSTypedArray, source_buffer_len: usize },
    /// An iterable object, which yielded this many values.
    FromIterable(usize),
    /// An array-like object: its `length` as ToIndex reads it.
    FromArrayLike(IndexArg),
    /// An ArrayBuffer, with the byteOffset argument (undefined when absent)
    /// and the length argument (`None` when absent or undefined).
    FromBuffer {
        buffer_len: usize,
        detached: bool,
        resizable: bool,
        offset: IndexArg,
        length: Option<IndexArg>,
    },
}

/// Where a new TypedArray's elements live.
#[derive(Clone, Copy, Debug)]
pub struct TypedArrayLayout {
    pub array: JSTypedArray,
    /// A new zeroed buffer of `length` elements (else the given buffer).
    pub fresh_buffer: bool,
}

/// The number of elements of a TypedArray over a buffer of `buf_len`
/// bytes, or `None` when it lies outside the buffer.
pub open spec fn spec_source_length(ta: JSTypedArray, buf_len: nat) -> Option<nat> {
    if ta.length_tracking {
        if ta.byte_offset > buf_len {
            None
        } else {
            Some(((buf_len - ta.byte_offset) as nat / spec_element_size(ta.kind)) as nat)
        }
    } else if ta.byte_offset + ta.length * spec_element_size(ta.kind) > buf_len {
        None
    } else {
        Some(ta.length as nat)
    }
}

pub open spec fn fresh(kind: TypedArrayKind, len: nat) -> Result<TypedArrayLayout, ErrorKind> {
    Ok(
        TypedArrayLayout {
            array: JSTypedArray {
                kind,
                byte_offset: 0,
                length: len as usize,
                length_tracking: false,
            },
            fresh_buffer: true,
        },
    )
}

/// A length whose bytes fit in memory.
pub open spec fn fits(len: nat, kind: TypedArrayKind) -> bool {
    len * spec_element_size(kind) <= usize::MAX
}

/// A new zeroed array of `len` elements: a RangeError when its bytes do
/// not fit in memory.
pub open spec fn sized_layout(kind: TypedArrayKind, len: nat) -> Result<TypedArrayLayout, ErrorKind> {
    if fits(len, kind) {
        fresh(kind, len)
    } else {
        Err(ErrorKind::RangeError)
    }
}

/// A copy of another TypedArray: a TypeError when the source is out of
/// bounds, or when one is a BigInt array and the other is not (unless the
/// source is empty); else a new array of the source's length.
pub open spec fn copy_layout(kind: TypedArrayKind, source: JSTypedArray, source_buffer_len: nat) -> Result<
    TypedArrayLayout,
    ErrorKind,
> {
    match spec_source_length(source, source_buffer_len) {
        None => Err(ErrorKind::TypeError),
        Some(len) => if !fits(len, kind) {
            Err(ErrorKind::RangeError)
        } else if len > 0 && spec_is_bigint_kind(source.kind) != spec_is_bigint_kind(kind) {
            Err(ErrorKind::TypeError)
        } else {
            fresh(kind, len)
        },
    }
}

/// A view of an ArrayBuffer from byte `offset`: the offset must be a
/// multiple of the element size (RangeError), the buffer attached
/// (TypeError) and the offset inside it (RangeError). With a length, the
/// elements must fit in the buffer (RangeError); without one, the view
/// runs to the end of the buffer, which for a fixed-length buffer must be
/// a whole number of elements (RangeError), and follows a resizable
/// buffer's length.
pub open spec fn buffer_layout(
    kind: TypedArrayKind,
    buffer_len: usize,
    detached: bool,
    resizable: bool,
    offset: IndexArg,
    length: Option<IndexArg>,
) -> Result<TypedArrayLayout, ErrorKind> {
    let es = spec_element_size(kind);
    match spec_to_index(offset) {
        Err(e) => Err(e),
        Ok(off) => if off % (es as u64) != 0 {
            Err(ErrorKind::RangeError)
        } else if detached {
            Err(ErrorKind::TypeError)
        } else if off > buffer_len {
            Err(ErrorKind::RangeError)
        } else {
            match length {
                Some(l) => match spec_to_index(l) {
                    Err(e) => Err(e),
                    Ok(n) => if off + n * es > buffer_len {
                        Err(ErrorKind::RangeError)
                    } else {
                        Ok(TypedArrayLayout {
                            array: JSTypedArray { kind, byte_offset: off as usize, length: n as usize, length_tracking: false },
                            fresh_buffer: false,
                        })
                    },
                },
                None => if !resizable && (buffer_len - off) % (es as int) != 0 {
                    Err(ErrorKind::RangeError)
                } else {
                    Ok(TypedArrayLayout {
                        array: JSTypedArray {
                            kind,
                            byte_offset: off as usize,
                            length: ((buffer_len - off) / (es as int)) as usize,
                            length_tracking: resizable,
                        },
                        fresh_buffer: false,
                    })
                },
            }
        },
    }
}

/// The layout a constructor call makes, or its error: a TypeError without
/// `new` or without a known element kind; else by the first argument.
pub open spec fn spec_construct(new_target: bool, kind_number: Option<i32>, init: TypedArrayInit) -> Result<
    TypedArrayLayout,
    ErrorKind,
> {
    match kind_number {
        Some(n) if new_target && spec_kind_from_number(n) is Some => {
            let kind = spec_kind_from_number(n)->Some_0;
            match init {
                TypedArrayInit::Empty => fresh(kind, 0),
                TypedArrayInit::Length(a) | TypedArrayInit::FromArrayLike(a) => match spec_to_index(a) {
                    Err(e) => Err(e),
                    Ok(len) => sized_layout(kind, len as nat),
                },
                TypedArrayInit::FromIterable(count) => sized_layout(kind, count as nat),
                TypedArrayInit::FromTypedArray { source, source_buffer_len } => copy_layout(
                    kind,
                    source,
                    source_buffer_len as nat,
                ),
                TypedArrayInit::FromBuffer { buffer_len, detached, resizable, offset, length } =>
                    buffer_layout(kind, buffer_len, detached, resizable, offset, length),
            }
        },
        _ => Err(ErrorKind::TypeError),
    }
}

/// The element count of a source TypedArray, or `None` when it is out of
/// bounds.
pub fn source_length(source: &JSTypedArray, source_buffer_len: usize) -> (r: Option<usize>)
    ensures
        match spec_source_length(*source, source_buffer_len as nat) {
            None => r is None,
            Some(n) => r == Some(n as usize),
        },
{
    let es = element_size_for_kind(&source.kind);
    if source.length_tracking {
        if source.byte_offset > source_buffer_len {
            None
        } else {
            Some((source_buffer_len - source.byte_offset) / es)
        }
    } else {
        proof {
            mul_fits(source.length as u128, es as u128);
        }
        if source.length as u128 * es as u128 + source.byte_offset as u128 > source_buffer_len as u128 {
            None
        } else {
            Some(source.length)
        }
    }
}

proof fn mul_fits(a: u128, b: u128)
    requires
        a <= 0xFFFF_FFFF_FFFF_FFFF,
        b <= 8,
    ensures
        a * b <= 0xFFFF_FFFF_FFFF_FFFF * 8,
{
    assert(a * b <= 0xFFFF_FFFF_FFFF_FFFF * 8) by (nonlinear_arith)
        requires
            a <= 0xFFFF_FFFF_FFFF_FFFF,
            b <= 8,
    ;
}

fn fits_exec(len: u64, kind: &TypedArrayKind) -> (r: bool)
    ensures
        r == fits(len as nat, *kind),
{
    let es = element_size_for_kind(kind) as u128;
    proof {
        mul_fits(len as u128, es);
    }
    len as u128 * es <= usize::MAX as u128
}

fn fresh_layout(kind: TypedArrayKind, len: usize) -> (r: Result<TypedArrayLayout, ErrorKind>)
    ensures
        r == fresh(kind, len as nat),
{
    Ok(
        TypedArrayLayout {
            array: JSTypedArray { kind, byte_offset: 0, length: len, length_tracking: false },
            fresh_buffer: true,
        },
    )
}

/// `new TypedArray(...)`: `new_target` is false for a call without `new`,
/// `kind_number` is what the constructor's kind slot holds.
pub fn handle_typedarray_constructor(new_target: bool, kind_number: Option<i32>, init: TypedArrayInit) -> (r:
    Result<TypedArrayLayout, ErrorKind>)
    ensures
        r == spec_construct(new_target, kind_number, init),
{
    if !new_target {
        return Err(ErrorKind::TypeError);
    }
    let n = match kind_number {
        None => return Err(ErrorKind::TypeError),
        Some(n) => n,
    };
    let kind = match kind_from_number(n) {
        None => return Err(ErrorKind::TypeError),
        Some(k) => k,
    };
    let es = element_size_for_kind(&kind);
    match init {
        TypedArrayInit::Empty => fresh_layout(kind, 0),
        TypedArrayInit::Length(a) | TypedArrayInit::FromArrayLike(a) => {
            let len = match to_index(a) {
                Ok(l) => l,
                Err(e) => return Err(e),
            };
            if fits_exec(len, &kind) {
                fresh_layout(kind, len as usize)
            } else {
                Err(ErrorKind::RangeError)
            }
        },
        TypedArrayInit::FromIterable(count) => {
            if fits_exec(count as u64, &kind) {
                fresh_layout(kind, count)
            } else {
                Err(ErrorKind::RangeError)
            }
        },
        TypedArrayInit::FromTypedArray { source, source_buffer_len } => {
            let len = match source_length(&source, source_buffer_len) {
                None => return Err(ErrorKind::TypeError),
                Some(l) => l,
            };
            if !fits_exec(len as u64, &kind) {
                return Err(ErrorKind::RangeError);
            }
            if len > 0 && is_bigint_typed_array(&source.kind) != is_bigint_typed_array(&kind) {
                return Err(ErrorKind::TypeError);
            }
            fresh_layout(kind, len)
        },
        TypedArrayInit::FromBuffer { buffer_len, detached, resizable, offset, length } => {
            let off = match to_index(offset) {
                Ok(o) => o,
                Err(e) => return Err(e),
            };
            if off % (es as u64) != 0 {
                return Err(ErrorKind::RangeError);
            }
            if detached {
                return Err(ErrorKind::TypeError);
            }
            if off > buffer_len as u64 {
                return Err(ErrorKind::RangeError);
            }
            let off = off as usize;
            match length {
                Some(l) => {
                    let n = match to_index(l) {
                        Ok(n) => n,
                        Err(e) => return Err(e),
                    };
                    proof {
                        mul_fits(n as u128, es as u128);
                    }
                    if off as u128 + n as u128 * es as u128 > buffer_len as u128 {
                        return Err(ErrorKind::RangeError);
                    }
                    Ok(
                        TypedArrayLayout {
                            array: JSTypedArray {
                                kind,
                                byte_offset: off,
                                length: n as usize,
                                length_tracking: false,
                            },
                            fresh_buffer: false,
                        },
                    )
                },
                None => {
                    let rest = buffer_len - off;
                    if !resizable && rest % es != 0 {
                        return Err(ErrorKind::RangeError);
                    }
                    Ok(
                        TypedArrayLayout {
                            array: JSTypedArray {
                                kind,
                                byte_offset: off,
                                length: rest / es,
                                length_tracking: resizable,
                            },
                            fresh_buffer: false,
                        },
                    )
                },
            }
        },
    }
}

} // verus!

//! `%TypedArray%.prototype.set(source, offset)`.
//!
//! With a TypedArray source of an integer kind, each source element is
//! read as a Number (exactly, for the kinds of at most 32 bits; rounded to
//! a double for the BigInt kinds) and stored in the receiver from
//! `offset` on. With
//! any other source the engine reads the source's length and elements and
//! converts each (to a Number, or a BigInt for the BigInt kinds); the
//! values it hands over are stored in order from `offset` on.
use crate::byte_codec::{encode, lemma_pow256_values, pow256, write_uint};
use crate::error::ErrorKind;
use crate::atomics_int::signed_round_to_double;
use crate::typed_array::{
    JSArrayBuffer, JSTypedArray, TypedArrayKind, is_bigint_typed_array, spec_element_size, spec_is_bigint_kind,
    to_unsigned,
};
use crate::typed_array_sort::{lemma_bigint_elements_range, round_wide, store_rounded};
use crate::typed_array_copy::{spec_elements, spec_value_pattern, value_pattern, ElementValue};
use crate::typed_array_methods::{
    elem, elems, lemma_write_elem, overwrite, same_outside, spec_array_usable, spec_exact_kind,
};
use crate::typed_array_ops::{spec_current_length, spec_out_of_bounds, IndexArg};
use crate::typed_array_search::{
    element_int, int_elements, ints, lemma_element_inside, lemma_element_int_range, read_elements_checked,
    spec_int_kind, validate,
};
use vstd::arithmetic::div_mod::lemma_mod_multiples_vanish;
use vstd::prelude::*;

verus! {

/// The bit pattern an element of `kind` takes when the integer `v`, read
/// from an element as a Number, is stored in it: its low bytes, for
/// `Uint8Clamped` the value clamped to 0..=255, and for the BigInt kinds
/// the nearest double (ties to even) converted to 64 bits, saturating.
pub open spec fn int_pattern(kind: TypedArrayKind, v: int) -> nat {
    match kind {
        TypedArrayKind::BigInt64 | TypedArrayKind::BigUint64 => to_unsigned(
            store_rounded(kind, signed_round_to_double(v)),
            8,
        ),
        TypedArrayKind::Uint8Clamped => if v < 0 {
            0
        } else if v > 255 {
            255
        } else {
            v as nat
        },
        _ => (v % pow256(spec_element_size(kind)) as int) as nat,
    }
}

/// `old` with the elements from `offset` on replaced by `vals` stored as
/// elements of `kind`.
pub open spec fn stored_from(old: Seq<Seq<u8>>, kind: TypedArrayKind, offset: int, vals: Seq<int>) -> Seq<
    Seq<u8>,
> {
    Seq::new(
        old.len(),
        |j: int|
            if offset <= j < offset + vals.len() {
                encode(int_pattern(kind, vals[j - offset]), spec_element_size(kind), true)
            } else {
                old[j]
            },
    )
}

/// The `offset` argument of `set` after ToIntegerOrInfinity: absent or
/// undefined is 0, a negative offset a RangeError.
pub open spec fn spec_set_offset(offset: Option<IndexArg>) -> Result<int, ErrorKind> {
    match offset {
        None | Some(IndexArg::Undefined) => Ok(0),
        Some(IndexArg::BigInt) | Some(IndexArg::Symbol) => Err(ErrorKind::TypeError),
        Some(IndexArg::Integral(x)) => if x < 0 {
            Err(ErrorKind::RangeError)
        } else {
            Ok(x as int)
        },
    }
}

/// The elements of an array of an exact kind lie in `-2^31..2^32`.
proof fn lemma_exact_elements_range(ta: JSTypedArray, data: Seq<u8>)
    requires
        spec_exact_kind(ta.kind),
        !spec_out_of_bounds(ta, data.len()),
    ensures
        int_elements(ta, data).len() == spec_current_length(ta, data.len()),
        forall|k: int|
            0 <= k < int_elements(ta, data).len() ==> -0x8000_0000 <= #[trigger] int_elements(ta, data)[k]
                < 0x1_0000_0000,
{
    lemma_pow256_values();
    let es = spec_element_size(ta.kind);
    let n = spec_current_length(ta, data.len());
    assert forall|k: int| 0 <= k < int_elements(ta, data).len() implies -0x8000_0000 <= #[trigger] int_elements(
        ta,
        data,
    )[k] < 0x1_0000_0000 by {
        let b = elem(data, ta.byte_offset as int, es as int, k);
        assert(int_elements(ta, data)[k] == element_int(ta.kind, b));
        lemma_element_inside(ta, data.len(), k as nat);
        assert(b.len() == es);
        lemma_element_int_range(ta.kind, b);
    }
}

/// The pattern of `int_pattern`, computed.
fn int_pattern_bits(kind: TypedArrayKind, v: i128) -> (r: u64)
    requires
        spec_int_kind(kind),
        -0x8000_0000_0000_0000 <= v < 0x1_0000_0000_0000_0000,
        spec_exact_kind(kind) ==> -0x8000_0000 <= v < 0x1_0000_0000,
    ensures
        r as nat == int_pattern(kind, v as int),
{
    proof {
        lemma_pow256_values();
    }
    match kind {
        TypedArrayKind::BigInt64 | TypedArrayKind::BigUint64 => {
            let d = round_wide(v);
            let s: i128 = match kind {
                TypedArrayKind::BigInt64 => if d > 0x7FFF_FFFF_FFFF_FFFF {
                    0x7FFF_FFFF_FFFF_FFFF
                } else if d < -0x8000_0000_0000_0000 {
                    -0x8000_0000_0000_0000
                } else {
                    d
                },
                _ => if d < 0 {
                    0
                } else if d > 0xFFFF_FFFF_FFFF_FFFF {
                    0xFFFF_FFFF_FFFF_FFFF
                } else {
                    d
                },
            };
            assert(s as int == store_rounded(kind, d as int));
            if s < 0 {
                (s + 0x1_0000_0000_0000_0000) as u64
            } else {
                s as u64
            }
        },
        TypedArrayKind::Uint8Clamped => if v < 0 {
            0
        } else if v > 255 {
            255
        } else {
            v as u64
        },
        _ => {
            let m: u64 = match kind {
                TypedArrayKind::Int8 | TypedArrayKind::Uint8 => 0x100,
                TypedArrayKind::Int16 | TypedArrayKind::Uint16 => 0x1_0000,
                _ => 0x1_0000_0000,
            };
            assert(m as int == pow256(spec_element_size(kind)));
            if v < 0 {
                let u: u64 = (v + 0x1_0000_0000_0000_0000) as u64;
                proof {
                    let q: int = 0x1_0000_0000_0000_0000int / m as int;
                    assert(m * q == 0x1_0000_0000_0000_0000int);
                    lemma_mod_multiples_vanish(q, v as int, m as int);
                }
                u % m
            } else {
                (v as u64) % m
            }
        },
    }
}

/// `%TypedArray%.prototype.set(source, offset)` where `source` is a
/// TypedArray, both of integer kinds. `src_buffer` is the source's
/// buffer, `None` when it is the receiver's own (the source is read in
/// full before anything is stored). Each source element is read as a
/// Number and stored (`int_pattern`).
///
/// The errors come in the engine's order: a detached or out-of-bounds
/// receiver (TypeError), the offset's conversion (TypeError, or
/// RangeError when negative), a BigInt array and a Number array together
/// (TypeError), a detached or out-of-bounds source (TypeError), a source
/// that does not fit from `offset` on (RangeError).
pub fn typedarray_set_typed_array(
    ta: &JSTypedArray,
    buffer: &mut JSArrayBuffer,
    offset: Option<IndexArg>,
    src: &JSTypedArray,
    src_buffer: Option<&JSArrayBuffer>,
) -> (r: Result<(), ErrorKind>)
    requires
        ta.wf(),
        src.wf(),
        spec_int_kind(ta.kind),
        spec_int_kind(src.kind),
    ensures
        ({
            let sbuf = match src_buffer {
                Some(b) => *b,
                None => *old(buffer),
            };
            let n = spec_current_length(*ta, old(buffer).data@.len()) as int;
            let es = spec_element_size(ta.kind) as int;
            let unchanged = final(buffer).data@ == old(buffer).data@;
            if !spec_array_usable(*ta, *old(buffer)) {
                r == Err::<(), ErrorKind>(ErrorKind::TypeError) && unchanged
            } else {
                match spec_set_offset(offset) {
                    Err(e) => r == Err::<(), ErrorKind>(e) && unchanged,
                    Ok(off) => if spec_is_bigint_kind(ta.kind) != spec_is_bigint_kind(src.kind) {
                        r == Err::<(), ErrorKind>(ErrorKind::TypeError) && unchanged
                    } else if !spec_array_usable(*src, sbuf) {
                        r == Err::<(), ErrorKind>(ErrorKind::TypeError) && unchanged
                    } else if off + spec_current_length(*src, sbuf.data@.len()) > n {
                        r == Err::<(), ErrorKind>(ErrorKind::RangeError) && unchanged
                    } else {
                        &&& r is Ok
                        &&& elems(final(buffer).data@, ta.byte_offset as int, es, n) == stored_from(
                            spec_elements(*ta, old(buffer).data@),
                            ta.kind,
                            off,
                            int_elements(*src, sbuf.data@),
                        )
                        &&& same_outside(
                            old(buffer).data@,
                            final(buffer).data@,
                            ta.byte_offset as int,
                            ta.byte_offset + n * es,
                        )
                    },
                }
            }
        }),
        final(buffer).max_byte_length == old(buffer).max_byte_length,
        final(buffer).shared == old(buffer).shared,
        final(buffer).detached == old(buffer).detached,
{
    let n = match validate(ta, buffer) {
        Ok(n) => n,
        Err(e) => return Err(e),
    };
    let off: i64 = match offset {
        None | Some(IndexArg::Undefined) => 0,
        Some(IndexArg::BigInt) | Some(IndexArg::Symbol) => return Err(ErrorKind::TypeError),
        Some(IndexArg::Integral(x)) => if x < 0 {
            return Err(ErrorKind::RangeError);
        } else {
            x
        },
    };
    if is_bigint_typed_array(&ta.kind) != is_bigint_typed_array(&src.kind) {
        return Err(ErrorKind::TypeError);
    }
    let vals = match src_buffer {
        Some(b) => read_elements_checked(src, b),
        None => read_elements_checked(src, buffer),
    };
    let vals = match vals {
        Ok(v) => v,
        Err(e) => return Err(e),
    };
    let ghost sbuf = match src_buffer {
        Some(b) => *b,
        None => *old(buffer),
    };
    let m = vals.len();
    proof {
        if spec_exact_kind(src.kind) {
            lemma_exact_elements_range(*src, sbuf.data@);
        } else {
            lemma_bigint_elements_range(*src, sbuf.data@);
        }
        assert(ints(vals@).len() == m);
    }
    if off as i128 + m as i128 > n as i128 {
        return Err(ErrorKind::RangeError);
    }
    let start = off as usize;
    let es = ta.element_size();
    let bo = ta.byte_offset;
    let ghost old_data = buffer.data@;
    let ghost old_elems = spec_elements(*ta, old_data);
    let ghost src_vals = int_elements(*src, sbuf.data@);
    proof {
        assert(old_elems.len() == n);
        lemma_pow256_values();
    }
    let mut i: usize = 0;
    while i < m
        invariant
            spec_int_kind(ta.kind),
            spec_exact_kind(ta.kind) == spec_exact_kind(src.kind),
            ta.wf(),
            spec_array_usable(*ta, *old(buffer)),
            old_data == old(buffer).data@,
            n == spec_current_length(*ta, old_data.len()),
            es == spec_element_size(ta.kind),
            bo == ta.byte_offset,
            old_elems == spec_elements(*ta, old_data),
            old_elems.len() == n,
            start + m <= n,
            m == vals@.len(),
            ints(vals@) == src_vals,
            forall|k: int|
                0 <= k < src_vals.len() ==> -0x8000_0000_0000_0000 <= #[trigger] src_vals[k] < 0x1_0000_0000_0000_0000,
            spec_exact_kind(src.kind) ==> forall|k: int|
                0 <= k < src_vals.len() ==> -0x8000_0000 <= #[trigger] src_vals[k] < 0x1_0000_0000,
            i <= m,
            buffer.data@.len() == old_data.len(),
            elems(buffer.data@, bo as int, es as int, n as int) == stored_from(
                old_elems,
                ta.kind,
                start as int,
                src_vals.take(i as int),
            ),
            same_outside(old_data, buffer.data@, bo as int, bo + n * es),
            buffer.max_byte_length == old(buffer).max_byte_length,
            buffer.shared == old(buffer).shared,
            buffer.detached == old(buffer).detached,
        decreases m - i,
    {
        let t = start + i;
        assert(src_vals[i as int] == vals@[i as int] as int);
        let bits = int_pattern_bits(ta.kind, vals[i]);
        proof {
            lemma_element_inside(*ta, old_data.len(), t as nat);
        }
        assert(bo + t * es + es <= buffer.data.len());
        let ghost before = buffer.data@;
        let ghost x = encode(bits as nat, es as nat, true);
        write_uint(&mut buffer.data, bo + t * es, es, bits, true);
        proof {
            assert(buffer.data@ == overwrite(before, bo + t * es, x));
            lemma_write_elem(before, bo as int, es as int, n as int, t as int, x);
            let want = stored_from(old_elems, ta.kind, start as int, src_vals.take(i + 1));
            assert forall|j: int| 0 <= j < n implies #[trigger] elems(buffer.data@, bo as int, es as int, n as int)[j]
                == want[j] by {
                assert(elems(buffer.data@, bo as int, es as int, n as int)[j] == elem(buffer.data@, bo as int, es as int, j));
                assert(elems(before, bo as int, es as int, n as int)[j] == elem(before, bo as int, es as int, j));
            }
            assert(elems(buffer.data@, bo as int, es as int, n as int) =~= want);
        }
        i = i + 1;
    }
    proof {
        assert(src_vals.take(m as int) =~= src_vals);
    }
    Ok(())
}

/// `old` with the elements from `offset` on replaced by `vals`.
pub open spec fn stored_values(old: Seq<Seq<u8>>, kind: TypedArrayKind, offset: int, vals: Seq<ElementValue>) -> Seq<
    Seq<u8>,
> {
    Seq::new(
        old.len(),
        |j: int|
            if offset <= j < offset + vals.len() {
                encode(spec_value_pattern(kind, vals[j - offset]), spec_element_size(kind), true)
            } else {
                old[j]
            },
    )
}

/// `%TypedArray%.prototype.set(source, offset)` where `source` is not a
/// TypedArray: `values` are its elements after conversion, in order. The
/// errors come in the engine's order: a detached or out-of-bounds
/// receiver (TypeError), the offset's conversion (TypeError, or
/// RangeError when negative), values that do not fit from `offset` on
/// (RangeError).
pub fn typedarray_set_values(
    ta: &JSTypedArray,
    buffer: &mut JSArrayBuffer,
    offset: Option<IndexArg>,
    values: &[ElementValue],
) -> (r: Result<(), ErrorKind>)
    requires
        ta.wf(),
    ensures
        ({
            let n = spec_current_length(*ta, old(buffer).data@.len()) as int;
            let es = spec_element_size(ta.kind) as int;
            let unchanged = final(buffer).data@ == old(buffer).data@;
            if !spec_array_usable(*ta, *old(buffer)) {
                r == Err::<(), ErrorKind>(ErrorKind::TypeError) && unchanged
            } else {
                match spec_set_offset(offset) {
                    Err(e) => r == Err::<(), ErrorKind>(e) && unchanged,
                    Ok(off) => if off + values@.len() > n {
                        r == Err::<(), ErrorKind>(ErrorKind::RangeError) && unchanged
                    } else {
                        &&& r is Ok
                        &&& elems(final(buffer).data@, ta.byte_offset as int, es, n) == stored_values(
                            spec_elements(*ta, old(buffer).data@),
                            ta.kind,
                            off,
                            values@,
                        )
                        &&& same_outside(
                            old(buffer).data@,
                            final(buffer).data@,
                            ta.byte_offset as int,
                            ta.byte_offset + n * es,
                        )
                    },
                }
            }
        }),
        final(buffer).max_byte_length == old(buffer).max_byte_length,
        final(buffer).shared == old(buffer).shared,
        final(buffer).detached == old(buffer).detached,
{
    let n = match validate(ta, buffer) {
        Ok(n) => n,
        Err(e) => return Err(e),
    };
    let off: i64 = match offset {
        None | Some(IndexArg::Undefined) => 0,
        Some(IndexArg::BigInt) | Some(IndexArg::Symbol) => return Err(ErrorKind::TypeError),
        Some(IndexArg::Integral(x)) => if x < 0 {
            return Err(ErrorKind::RangeError);
        } else {
            x
        },
    };
    let m = values.len();
    if off as i128 + m as i128 > n as i128 {
        return Err(ErrorKind::RangeError);
    }
    let start = off as usize;
    let es = ta.element_size();
    let bo = ta.byte_offset;
    let ghost old_data = buffer.data@;
    let ghost old_elems = spec_elements(*ta, old_data);
    proof {
        assert(old_elems.len() == n);
    }
    let mut i: usize = 0;
    while i < m
        invariant
            ta.wf(),
            spec_array_usable(*ta, *old(buffer)),
            old_data == old(buffer).data@,
            n == spec_current_length(*ta, old_data.len()),
            es == spec_element_size(ta.kind),
            bo == ta.byte_offset,
            old_elems == spec_elements(*ta, old_data),
            old_elems.len() == n,
            start + m <= n,
            m == values@.len(),
            i <= m,
            buffer.data@.len() == old_data.len(),
            elems(buffer.data@, bo as int, es as int, n as int) == stored_values(
                old_elems,
                ta.kind,
                start as int,
                values@.take(i as int),
            ),
            same_outside(old_data, buffer.data@, bo as int, bo + n * es),
            buffer.max_byte_length == old(buffer).max_byte_length,
            buffer.shared == old(buffer).shared,
            buffer.detached == old(buffer).detached,
        decreases m - i,
    {
        let t = start + i;
        let bits = value_pattern(ta.kind, values[i]);
        proof {
            lemma_element_inside(*ta, old_data.len(), t as nat);
        }
        assert(bo + t * es + es <= buffer.data.len());
        let ghost before = buffer.data@;
        let ghost x = encode(bits as nat, es as nat, true);
        write_uint(&mut buffer.data, bo + t * es, es, bits, true);
        proof {
            assert(buffer.data@ == overwrite(before, bo + t * es, x));
            lemma_write_elem(before, bo as int, es as int, n as int, t as int, x);
            let want = stored_values(old_elems, ta.kind, start as int, values@.take(i + 1));
            assert forall|j: int| 0 <= j < n implies #[trigger] elems(buffer.data@, bo as int, es as int, n as int)[j]
                == want[j] by {
                assert(elems(buffer.data@, bo as int, es as int, n as int)[j] == elem(buffer.data@, bo as int, es as int, j));
                assert(elems(before, bo as int, es as int, n as int)[j] == elem(before, bo as int, es as int, j));
            }
            assert(elems(buffer.data@, bo as int, es as int, n as int) =~= want);
        }
        i = i + 1;
    }
    proof {
        assert(values@.take(m as int) =~= values@);
    }
    Ok(())
}

/// `set` from `offset` puts value `j` into element `offset + j` and keeps
/// every element outside `offset..offset + count`; the array keeps its
/// length.
pub proof fn law_set_places_values(
    old: Seq<Seq<u8>>,
    kind: TypedArrayKind,
    offset: int,
    ints: Seq<int>,
    vals: Seq<ElementValue>,
    j: int,
)
    requires
        0 <= j < old.len(),
    ensures
        stored_from(old, kind, offset, ints).len() == old.len(),
        stored_values(old, kind, offset, vals).len() == old.len(),
        offset <= j < offset + ints.len() ==> stored_from(old, kind, offset, ints)[j] == encode(
            int_pattern(kind, ints[j - offset]),
            spec_element_size(kind),
            true,
        ),
        (j < offset || offset + ints.len() <= j) ==> stored_from(old, kind, offset, ints)[j] == old[j],
        offset <= j < offset + vals.len() ==> stored_values(old, kind, offset, vals)[j] == encode(
            spec_value_pattern(kind, vals[j - offset]),
            spec_element_size(kind),
            true,
        ),
        (j < offset || offset + vals.len() <= j) ==> stored_values(old, kind, offset, vals)[j] == old[j],
{
}

/// The offset of `set`: 0 when absent or undefined, the integer itself
/// when it is not negative, a RangeError when it is.
pub proof fn law_set_offset(x: i64)
    ensures
        spec_set_offset(None) == Ok::<int, ErrorKind>(0),
        spec_set_offset(Some(IndexArg::Undefined)) == Ok::<int, ErrorKind>(0),
        x >= 0 ==> spec_set_offset(Some(IndexArg::Integral(x))) == Ok::<int, ErrorKind>(x as int),
        x < 0 ==> spec_set_offset(Some(IndexArg::Integral(x))) == Err::<int, ErrorKind>(ErrorKind::RangeError),
{
}

/// An integer stored into an integer element of at most 32 bits keeps its
/// value modulo the element's range: a value in `0..2^(8 * size)` is
/// stored as it is, a negative one down to `-2^(8 * size)` as its two's
/// complement; `Uint8Clamped` clamps to `0..=255` instead.
pub proof fn law_int_pattern(kind: TypedArrayKind, v: int)
    requires
        spec_exact_kind(kind),
    ensures
        kind != TypedArrayKind::Uint8Clamped && 0 <= v < pow256(spec_element_size(kind)) ==> int_pattern(
            kind,
            v,
        ) == v,
        kind != TypedArrayKind::Uint8Clamped && -pow256(spec_element_size(kind)) <= v < 0 ==> int_pattern(
            kind,
            v,
        ) == v + pow256(spec_element_size(kind)),
        kind == TypedArrayKind::Uint8Clamped ==> int_pattern(kind, v) == (if v < 0 {
            0
        } else if v > 255 {
            255
        } else {
            v
        }),
{
    lemma_pow256_values();
    let m = pow256(spec_element_size(kind)) as int;
    if kind != TypedArrayKind::Uint8Clamped && -m <= v < 0 {
        vstd::arithmetic::div_mod::lemma_mod_multiples_vanish(1, v, m);
        vstd::arithmetic::div_mod::lemma_small_mod((v + m) as nat, m as nat);
    }
    if kind != TypedArrayKind::Uint8Clamped && 0 <= v < m {
        vstd::arithmetic::div_mod::lemma_small_mod(v as nat, m as nat);
    }
}

} // verus!

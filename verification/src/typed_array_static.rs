//! `%TypedArray%.from` and `%TypedArray%.of`: the checks they make before any
//! element is produced, the length of the array they create, and the store
//! of the values (Numbers or BigInts) into the new array.
use crate::byte_codec::{bytes_value, encode, lemma_decode_encode, lemma_pow256_values, write_uint};
use crate::error::ErrorKind;
use crate::typed_array::{
    JSArrayBuffer, JSTypedArray, lemma_signed_roundtrip, spec_element_size, spec_is_bigint_kind,
    to_signed, to_unsigned,
};
use crate::single::{f64_to_f32_bits, spec_f32_bits};
use crate::typed_array_elements::{number_to_element_bits, spec_element_bits};
use crate::typed_array_methods::{elem, lemma_elem_bounds, lemma_write_elem, overwrite, same_outside};
use crate::typed_array_ops::element_position;
use vstd::prelude::*;

verus! {

/// The `mapfn` argument of `from`.
#[derive(Clone, Copy, Debug, PartialEq, Eq, Structural)]
pub enum MapFnArg {
    /// Missing or `undefined`.
    Absent,
    Callable,
    NotCallable,
}

/// The `source` argument of `from`, as the engine classified it.
#[derive(Clone, Copy, Debug, PartialEq, Eq, Structural)]
pub enum FromSource {
    /// An object with an `@@iterator`: the number of values the iterator gave.
    Iterable(usize),
    /// An object without one: its `length`, already clamped at zero.
    ArrayLike(usize),
    /// A string of this many UTF-16 code units.
    Text(usize),
    /// Anything else.
    Other,
}

/// Which static method was called.
#[derive(Clone, Copy, Debug, PartialEq, Eq, Structural)]
pub enum TypedArrayStaticMethod {
    From { mapfn: MapFnArg, source: FromSource },
    /// `of` with this many arguments.
    Of(usize),
    /// Any other name.
    Unknown,
}

/// What the call goes on to do once its checks passed.
#[derive(Clone, Copy, Debug, PartialEq, Eq, Structural)]
pub struct StaticPlan {
    /// The length handed to `TypedArrayCreate`.
    pub length: usize,
    /// Whether each value goes through `mapfn` first.
    pub mapped: bool,
}

/// How many values a `from` source gives; `None` for a source that `from`
/// refuses.
pub open spec fn source_length(source: FromSource) -> Option<usize> {
    match source {
        FromSource::Iterable(n) | FromSource::ArrayLike(n) | FromSource::Text(n) => Some(n),
        FromSource::Other => None,
    }
}

/// The outcome of `%TypedArray%.from` / `of` up to the creation of the
/// array: a TypeError for a `this` that is not a constructor, an unknown
/// method, a `mapfn` that is not callable or a source that is neither
/// iterable, array-like nor a string; else the new array's length (the
/// number of values) and whether the values go through `mapfn`.
pub open spec fn spec_static_plan(this_is_constructor: bool, method: TypedArrayStaticMethod) -> Result<
    StaticPlan,
    ErrorKind,
> {
    match method {
        TypedArrayStaticMethod::From { mapfn, source } => if this_is_constructor && mapfn
            != MapFnArg::NotCallable && source_length(source) is Some {
            Ok(StaticPlan { length: source_length(source)->Some_0, mapped: mapfn == MapFnArg::Callable })
        } else {
            Err(ErrorKind::TypeError)
        },
        TypedArrayStaticMethod::Of(n) => if this_is_constructor {
            Ok(StaticPlan { length: n, mapped: false })
        } else {
            Err(ErrorKind::TypeError)
        },
        TypedArrayStaticMethod::Unknown => Err(ErrorKind::TypeError),
    }
}

/// `%TypedArray%.from` and `%TypedArray%.of`: `this_is_constructor` says
/// whether `this` passed IsConstructor.
pub fn handle_typedarray_static_method(this_is_constructor: bool, method: TypedArrayStaticMethod) -> (r: Result<
    StaticPlan,
    ErrorKind,
>)
    ensures
        r == spec_static_plan(this_is_constructor, method),
{
    if !this_is_constructor {
        return Err(ErrorKind::TypeError);
    }
    match method {
        TypedArrayStaticMethod::From { mapfn, source } => {
            if mapfn == MapFnArg::NotCallable {
                return Err(ErrorKind::TypeError);
            }
            let mapped = mapfn == MapFnArg::Callable;
            match source {
                FromSource::Iterable(n) => Ok(StaticPlan { length: n, mapped }),
                FromSource::ArrayLike(n) => Ok(StaticPlan { length: n, mapped }),
                FromSource::Text(n) => Ok(StaticPlan { length: n, mapped }),
                FromSource::Other => Err(ErrorKind::TypeError),
            }
        },
        TypedArrayStaticMethod::Of(n) => Ok(StaticPlan { length: n, mapped: false }),
        TypedArrayStaticMethod::Unknown => Err(ErrorKind::TypeError),
    }
}

/// The bytes element `i` of a BigInt array holds after storing `v`.
pub open spec fn bigint_bytes(v: i64) -> Seq<u8> {
    encode(to_unsigned(v as int, 8), 8, true)
}

/// A BigInt element reads back as the value stored in it: the bytes
/// `store_bigint_elements` (or `set_bigint`) writes decode, as
/// `get_bigint_raw` decodes them, to the stored 64 bits.
pub proof fn law_bigint_store_load(v: i64)
    ensures
        to_signed(bytes_value(bigint_bytes(v), true), 8) == v,
{
    lemma_pow256_values();
    lemma_signed_roundtrip(v as int, 8);
    lemma_decode_encode(to_unsigned(v as int, 8), 8, true);
}

/// Stores `values[i]` (the raw 64 bits of each BigInt) into element `i` of a
/// newly created BigInt TypedArray, in order.
pub fn store_bigint_elements(ta: &JSTypedArray, buffer: &mut JSArrayBuffer, values: &Vec<i64>)
    requires
        spec_is_bigint_kind(ta.kind),
        ta.wf(),
        !ta.length_tracking,
        values.len() <= ta.length,
        ta.byte_offset + ta.length * 8 <= old(buffer).data@.len(),
    ensures
        final(buffer).data@.len() == old(buffer).data@.len(),
        forall|i: int|
            #![trigger values@[i]]
            0 <= i < values.len() ==> final(buffer).data@.subrange(
                ta.byte_offset + 8 * i,
                ta.byte_offset + 8 * i + 8,
            ) == bigint_bytes(values@[i]),
        forall|k: int|
            0 <= k < old(buffer).data@.len() && (k < ta.byte_offset || k >= ta.byte_offset + 8
                * values.len()) ==> final(buffer).data@[k] == old(buffer).data@[k],
        final(buffer).max_byte_length == old(buffer).max_byte_length,
        final(buffer).shared == old(buffer).shared,
        final(buffer).detached == old(buffer).detached,
{
    assert(spec_element_size(ta.kind) == 8);
    let ghost off = ta.byte_offset as int;
    let ghost len0 = buffer.data@.len();
    let mut i: usize = 0;
    while i < values.len()
        invariant
            spec_is_bigint_kind(ta.kind),
            ta.wf(),
            !ta.length_tracking,
            spec_element_size(ta.kind) == 8,
            off == ta.byte_offset,
            values.len() <= ta.length,
            ta.byte_offset + ta.length * 8 <= len0,
            i <= values.len(),
            buffer.data@.len() == len0,
            forall|j: int|
                #![trigger values@[j]]
                0 <= j < i ==> buffer.data@.subrange(off + 8 * j, off + 8 * j + 8) == bigint_bytes(
                    values@[j],
                ),
            forall|k: int|
                0 <= k < len0 && (k < off || k >= off + 8 * i) ==> buffer.data@[k] == old(
                    buffer,
                ).data@[k],
            len0 == old(buffer).data@.len(),
            buffer.max_byte_length == old(buffer).max_byte_length,
            buffer.shared == old(buffer).shared,
            buffer.detached == old(buffer).detached,
        decreases values.len() - i,
    {
        let ghost before = buffer.data@;
        let p = ta.byte_offset + 8 * i;
        assert(element_position(*ta, i as nat) == p);
        assert(p + 8 <= len0);
        ta.set_bigint(buffer, i, values[i]);
        assert(buffer.data@ == before.subrange(0, p as int) + bigint_bytes(values@[i as int])
            + before.subrange(p + 8, len0 as int));
        assert forall|j: int| #![trigger values@[j]] 0 <= j < i + 1 implies buffer.data@.subrange(
            off + 8 * j,
            off + 8 * j + 8,
        ) == bigint_bytes(values@[j]) by {
            if j < i {
                assert(buffer.data@.subrange(off + 8 * j, off + 8 * j + 8) =~= before.subrange(
                    off + 8 * j,
                    off + 8 * j + 8,
                ));
            } else {
                assert(buffer.data@.subrange(off + 8 * j, off + 8 * j + 8) =~= bigint_bytes(
                    values@[j],
                ));
            }
        }
        i = i + 1;
    }
}

/// Stores the Number with binary64 pattern `values[i]` into element `i` of a
/// newly created TypedArray of a Number kind, in order: each element takes
/// the pattern IntegerIndexedElementSet gives the Number (rounded to
/// binary32 by `f64_to_f32_bits` for `Float32`).
pub fn store_number_elements(ta: &JSTypedArray, buffer: &mut JSArrayBuffer, values: &Vec<u64>)
    requires
        !spec_is_bigint_kind(ta.kind),
        ta.wf(),
        !ta.length_tracking,
        values.len() <= ta.length,
        ta.byte_offset + ta.length * spec_element_size(ta.kind) <= old(buffer).data@.len(),
    ensures
        ({
            let es = spec_element_size(ta.kind) as int;
            let bo = ta.byte_offset as int;
            &&& final(buffer).data@.len() == old(buffer).data@.len()
            &&& forall|i: int|
                #![trigger values@[i]]
                0 <= i < values.len() ==> elem(final(buffer).data@, bo, es, i) == encode(
                    spec_element_bits(ta.kind, values@[i], spec_f32_bits(values@[i]) as u32),
                    es as nat,
                    true,
                )
            &&& same_outside(old(buffer).data@, final(buffer).data@, bo, bo + values.len() * es)
        }),
        final(buffer).max_byte_length == old(buffer).max_byte_length,
        final(buffer).shared == old(buffer).shared,
        final(buffer).detached == old(buffer).detached,
{
    let es = ta.element_size();
    let ghost bo = ta.byte_offset as int;
    let ghost len0 = buffer.data@.len();
    let m = values.len();
    proof {
        assert(m * es <= ta.length * es) by (nonlinear_arith)
            requires
                m <= ta.length,
                es > 0,
        ;
    }
    let dlen = buffer.data.len();
    let mut i: usize = 0;
    while i < m
        invariant
            dlen == len0,
            !spec_is_bigint_kind(ta.kind),
            es == spec_element_size(ta.kind),
            1 <= es <= 8,
            bo == ta.byte_offset,
            m == values@.len(),
            bo + m * es <= len0,
            i <= m,
            buffer.data@.len() == len0,
            len0 == old(buffer).data@.len(),
            forall|j: int|
                #![trigger values@[j]]
                0 <= j < i ==> elem(buffer.data@, bo, es as int, j) == encode(
                    spec_element_bits(ta.kind, values@[j], spec_f32_bits(values@[j]) as u32),
                    es as nat,
                    true,
                ),
            same_outside(old(buffer).data@, buffer.data@, bo, bo + m * es),
            buffer.max_byte_length == old(buffer).max_byte_length,
            buffer.shared == old(buffer).shared,
            buffer.detached == old(buffer).detached,
        decreases m - i,
    {
        proof {
            lemma_elem_bounds(bo, es as int, m as int, i as int);
            lemma_pow256_values();
        }
        let b = values[i];
        let f = f64_to_f32_bits(b);
        let bits = number_to_element_bits(ta.kind, b, f);
        assert(bo + i * es + es <= dlen);
        let p = ta.byte_offset + i * es;
        let ghost before = buffer.data@;
        let ghost x = encode(bits as nat, es as nat, true);
        write_uint(&mut buffer.data, p, es, bits, true);
        proof {
            assert(buffer.data@ == overwrite(before, p as int, x));
            lemma_write_elem(before, bo, es as int, m as int, i as int, x);
            assert forall|j: int| #![trigger values@[j]] 0 <= j < i + 1 implies elem(buffer.data@, bo, es as int, j)
                == encode(spec_element_bits(ta.kind, values@[j], spec_f32_bits(values@[j]) as u32), es as nat, true) by {
                assert(elem(buffer.data@, bo, es as int, j) == if j == i {
                    x
                } else {
                    elem(before, bo, es as int, j)
                });
            }
            assert forall|k: int| 0 <= k < len0 && !(bo <= k < bo + m * es) implies old(buffer).data@[k]
                == buffer.data@[k] by {
                assert(before[k] == old(buffer).data@[k]);
            }
        }
        i = i + 1;
    }
}

} // verus!

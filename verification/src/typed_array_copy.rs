//! `%TypedArray%.prototype` methods that make a new array out of the
//! receiver's elements: `toReversed`, `toSorted`, `slice` and `with`.
//! Each answers the bytes of the new array's buffer, which holds an array
//! of the receiver's kind from byte 0.
//!
//! The engine copies an element by reading it (as a Number, or for
//! `slice` and `with` as a BigInt on the BigInt kinds) and storing it in
//! the new array; `typed_array_move` says what that does to its bytes.
use crate::byte_codec::{encode, lemma_pow256_values, write_uint};
use crate::error::ErrorKind;
use crate::typed_array::{JSArrayBuffer, JSTypedArray, TypedArrayKind, spec_element_size, spec_is_bigint_kind, to_unsigned};
use crate::typed_array_float_search::{float_patterns, spec_float_kind};
use crate::typed_array_float_sort::{nan_stored, spec_nans, spec_sorted_numbers, typedarray_sort_float};
use crate::typed_array_sort::{spec_sorted_bigint_elements, typedarray_sort_bigint};
use crate::typed_array_elements::{number_to_element_bits, spec_element_bits};
use crate::typed_array_methods::{
    elem, elems, lemma_elem_bounds, read_bytes, relative_arg, spec_array_usable, spec_exact_kind,
    spec_relative_arg, spec_resolve,
};
use crate::typed_array_move::{each_through_number, each_through_value, round_trip_number, round_trip_value, through_value};
use crate::typed_array_ops::{spec_current_length, IndexArg};
use crate::typed_array_search::{
    int_elements, lemma_element_inside, spec_sorted_elements, typedarray_sort, validate,
};
use vstd::prelude::*;

verus! {

/// The receiver's elements as byte strings.
pub open spec fn spec_elements(ta: JSTypedArray, data: Seq<u8>) -> Seq<Seq<u8>> {
    elems(
        data,
        ta.byte_offset as int,
        spec_element_size(ta.kind) as int,
        spec_current_length(ta, data.len()) as int,
    )
}

/// `out` is a buffer of exactly the elements `parts`, each of `es` bytes.
pub open spec fn holds_elements(out: Seq<u8>, es: int, parts: Seq<Seq<u8>>) -> bool {
    &&& out.len() == parts.len() * es
    &&& elems(out, 0, es, parts.len() as int) == parts
}

/// Appending one element of `es` bytes to a buffer of `k` elements.
proof fn lemma_elems_push(out: Seq<u8>, es: int, k: int, x: Seq<u8>)
    requires
        0 < es,
        0 <= k,
        out.len() == k * es,
        x.len() == es,
    ensures
        (out + x).len() == (k + 1) * es,
        elems(out + x, 0, es, k + 1) == elems(out, 0, es, k).push(x),
{
    let o2 = out + x;
    assert((k + 1) * es == k * es + es) by (nonlinear_arith);
    assert forall|j: int| 0 <= j < k + 1 implies #[trigger] elems(o2, 0, es, k + 1)[j] == elems(out, 0, es, k).push(
        x,
    )[j] by {
        lemma_elem_bounds(0, es, k + 1, j);
        if j < k {
            lemma_elem_bounds(0, es, k, j);
            assert(elem(o2, 0, es, j) =~= elem(out, 0, es, j));
        } else {
            assert(elem(o2, 0, es, j) =~= x);
        }
    }
    assert(elems(o2, 0, es, k + 1) =~= elems(out, 0, es, k).push(x));
}

impl JSTypedArray {
    /// The bytes of element `i`, which lies inside the buffer.
    fn element_bytes(&self, buffer: &JSArrayBuffer, i: usize) -> (r: Vec<u8>)
        requires
            spec_array_usable(*self, *buffer),
            i < spec_current_length(*self, buffer.data@.len()),
        ensures
            r@ == elem(buffer.data@, self.byte_offset as int, spec_element_size(self.kind) as int, i as int),
            r@.len() == spec_element_size(self.kind),
    {
        let es = self.element_size();
        proof {
            lemma_element_inside(*self, buffer.data@.len(), i as nat);
        }
        assert(self.byte_offset + i * es + es <= buffer.data.len());
        read_bytes(&buffer.data, self.byte_offset + i * es, es)
    }
}

/// `%TypedArray%.prototype.toReversed()`: a TypeError for a detached or
/// out-of-bounds receiver, else the receiver's elements in reverse order,
/// each read as a Number and stored into the new array (which leaves the
/// integer kinds of at most 32 bits as they are).
pub fn typedarray_to_reversed(ta: &JSTypedArray, buffer: &JSArrayBuffer) -> (r: Result<Vec<u8>, ErrorKind>)
    requires
        ta.wf(),
    ensures
        !spec_array_usable(*ta, *buffer) ==> r == Err::<Vec<u8>, ErrorKind>(ErrorKind::TypeError),
        spec_array_usable(*ta, *buffer) ==> (r matches Ok(out) && {
            let n = spec_current_length(*ta, buffer.data@.len()) as int;
            let es = spec_element_size(ta.kind) as int;
            &&& out@.len() == n * es
            &&& each_through_number(ta.kind, spec_elements(*ta, buffer.data@).reverse(), elems(out@, 0, es, n))
        }),
{
    let n = match validate(ta, buffer) {
        Ok(n) => n,
        Err(e) => return Err(e),
    };
    let es = ta.element_size();
    let ghost all = spec_elements(*ta, buffer.data@);
    let ghost rev = all.reverse();
    let mut out: Vec<u8> = Vec::new();
    let mut i: usize = 0;
    while i < n
        invariant
            spec_array_usable(*ta, *buffer),
            n == spec_current_length(*ta, buffer.data@.len()),
            es == spec_element_size(ta.kind),
            all == spec_elements(*ta, buffer.data@),
            all.len() == n,
            rev == all.reverse(),
            i <= n,
            out@.len() == i * es,
            each_through_number(ta.kind, rev.take(i as int), elems(out@, 0, es as int, i as int)),
        decreases n - i,
    {
        let src = ta.element_bytes(buffer, n - 1 - i);
        let x = round_trip_number(ta.kind, &src);
        proof {
            lemma_elems_push(out@, es as int, i as int, x@);
            assert(rev[i as int] == all[n - 1 - i]);
            assert(rev.take(i + 1) =~= rev.take(i as int).push(src@));
        }
        out.append(&mut x.clone());
        i = i + 1;
    }
    proof {
        assert(rev.take(n as int) =~= rev);
    }
    Ok(out)
}

/// A relative index resolved against `len` (see `spec_resolve`).
fn resolve_wide(rel: i64, len: usize) -> (r: usize)
    ensures
        r == spec_resolve(rel, len as int),
{
    let l = len as i128;
    let x = rel as i128;
    if x < 0 {
        if l + x < 0 {
            0
        } else {
            (l + x) as usize
        }
    } else if x > l {
        len
    } else {
        rel as usize
    }
}

/// The bytes of elements `from..stop`, in order.
fn elements_between(ta: &JSTypedArray, buffer: &JSArrayBuffer, n: usize, from: usize, stop: usize) -> (out: Vec<u8>)
    requires
        spec_array_usable(*ta, *buffer),
        n == spec_current_length(*ta, buffer.data@.len()),
        from <= stop <= n,
    ensures
        holds_elements(
            out@,
            spec_element_size(ta.kind) as int,
            spec_elements(*ta, buffer.data@).subrange(from as int, stop as int),
        ),
{
    let es = ta.element_size();
    let ghost all = spec_elements(*ta, buffer.data@);
    let ghost want = all.subrange(from as int, stop as int);
    let mut out: Vec<u8> = Vec::new();
    let mut i: usize = from;
    while i < stop
        invariant
            spec_array_usable(*ta, *buffer),
            n == spec_current_length(*ta, buffer.data@.len()),
            es == spec_element_size(ta.kind),
            all == spec_elements(*ta, buffer.data@),
            from <= i <= stop <= n,
            want == all.subrange(from as int, stop as int),
            out@.len() == (i - from) * es,
            elems(out@, 0, es as int, i - from) == want.take(i - from),
        decreases stop - i,
    {
        let x = ta.element_bytes(buffer, i);
        proof {
            lemma_elems_push(out@, es as int, i - from, x@);
            assert(want.take(i - from + 1) =~= want.take(i - from).push(x@));
        }
        out.append(&mut x.clone());
        i = i + 1;
    }
    proof {
        assert(want.take(stop - from) =~= want);
    }
    out
}

/// `%TypedArray%.prototype.slice(start, end)`, into a new array of the
/// receiver's kind: a TypeError for a detached or out-of-bounds receiver,
/// the error of an argument's conversion, else the elements from `start`
/// up to `end` (each resolved against the length, negative counting from
/// the end), each read as a value and stored into the new array.
pub fn typedarray_slice(ta: &JSTypedArray, buffer: &JSArrayBuffer, start: Option<IndexArg>, end: Option<IndexArg>) -> (r:
    Result<Vec<u8>, ErrorKind>)
    requires
        ta.wf(),
    ensures
        !spec_array_usable(*ta, *buffer) ==> r == Err::<Vec<u8>, ErrorKind>(ErrorKind::TypeError),
        spec_array_usable(*ta, *buffer) ==> {
            let n = spec_current_length(*ta, buffer.data@.len());
            match spec_relative_arg(start, 0) {
                Err(e) => r == Err::<Vec<u8>, ErrorKind>(e),
                Ok(s) => match spec_relative_arg(end, n as i64) {
                    Err(e) => r == Err::<Vec<u8>, ErrorKind>(e),
                    Ok(t) => {
                        let from = spec_resolve(s, n as int);
                        let to = spec_resolve(t, n as int);
                        let part = spec_elements(*ta, buffer.data@).subrange(
                            from,
                            if to > from {
                                to
                            } else {
                                from
                            },
                        );
                        let es = spec_element_size(ta.kind) as int;
                        r matches Ok(out) && out@.len() == part.len() * es && each_through_value(
                            ta.kind,
                            part,
                            elems(out@, 0, es, part.len() as int),
                        )
                    },
                },
            }
        },
{
    let n = match validate(ta, buffer) {
        Ok(n) => n,
        Err(e) => return Err(e),
    };
    let s = match relative_arg(start, 0) {
        Ok(s) => s,
        Err(e) => return Err(e),
    };
    let t = match relative_arg(end, n as i64) {
        Ok(t) => t,
        Err(e) => return Err(e),
    };
    let from = resolve_wide(s, n);
    let to = resolve_wide(t, n);
    let stop = if to > from {
        to
    } else {
        from
    };
    let es = ta.element_size();
    let ghost part = spec_elements(*ta, buffer.data@).subrange(from as int, stop as int);
    let mut out: Vec<u8> = Vec::new();
    let mut i: usize = from;
    while i < stop
        invariant
            spec_array_usable(*ta, *buffer),
            n == spec_current_length(*ta, buffer.data@.len()),
            es == spec_element_size(ta.kind),
            from <= i <= stop <= n,
            part == spec_elements(*ta, buffer.data@).subrange(from as int, stop as int),
            out@.len() == (i - from) * es,
            each_through_value(ta.kind, part.take(i - from), elems(out@, 0, es as int, i - from)),
        decreases stop - i,
    {
        let src = ta.element_bytes(buffer, i);
        let x = round_trip_value(ta.kind, &src);
        proof {
            lemma_elems_push(out@, es as int, i - from, x@);
            assert(part.take(i - from + 1) =~= part.take(i - from).push(src@));
        }
        out.append(&mut x.clone());
        i = i + 1;
    }
    proof {
        assert(part.take(stop - from) =~= part);
    }
    Ok(out)
}

/// A value stored in an element: a Number (its binary64 bits, and the
/// binary32 bits it rounds to, which matter for `Float32` only), which
/// the engine hands the Number kinds, or a BigInt (as BigInt.asIntN(64)
/// reads it), which it hands the BigInt kinds.
#[derive(Clone, Copy, Debug)]
pub enum ElementValue {
    Number { bits: u64, f32_bits: u32 },
    BigInt(i64),
}

/// The bit pattern an element of `kind` takes for `v`.
pub open spec fn spec_value_pattern(kind: crate::typed_array::TypedArrayKind, v: ElementValue) -> nat {
    match v {
        ElementValue::Number { bits, f32_bits } => spec_element_bits(kind, bits, f32_bits),
        ElementValue::BigInt(x) => to_unsigned(x as int, 8),
    }
}

/// The pattern of `spec_value_pattern`, computed.
pub(crate) fn value_pattern(kind: crate::typed_array::TypedArrayKind, v: ElementValue) -> (r: u64)
    ensures
        r as nat == spec_value_pattern(kind, v),
{
    proof {
        lemma_pow256_values();
    }
    match v {
        ElementValue::Number { bits, f32_bits } => number_to_element_bits(kind, bits, f32_bits),
        ElementValue::BigInt(x) => if x < 0 {
            (x as i128 + 0x1_0000_0000_0000_0000) as u64
        } else {
            x as u64
        },
    }
}

/// The `es` bytes of an element holding `bits`.
pub(crate) fn element_of(bits: u64, es: usize) -> (r: Vec<u8>)
    requires
        1 <= es <= 8,
    ensures
        r@ == encode(bits as nat, es as nat, true),
{
    let mut x: Vec<u8> = Vec::new();
    let mut k: usize = 0;
    while k < es
        invariant
            k <= es,
            x@.len() == k,
        decreases es - k,
    {
        x.push(0);
        k = k + 1;
    }
    write_uint(&mut x, 0, es, bits, true);
    assert(x@ =~= encode(bits as nat, es as nat, true));
    x
}

/// `%TypedArray%.prototype.with(index, value)`: a TypeError for a
/// detached or out-of-bounds receiver, a RangeError when `rel` (the index
/// after ToIntegerOrInfinity, negative counting from the end) falls outside
/// the array, else a copy of the receiver (each element read as a value
/// and stored) whose element at that index holds `value`.
pub fn typedarray_with(ta: &JSTypedArray, buffer: &JSArrayBuffer, rel: i64, value: ElementValue) -> (r: Result<
    Vec<u8>,
    ErrorKind,
>)
    requires
        ta.wf(),
    ensures
        !spec_array_usable(*ta, *buffer) ==> r == Err::<Vec<u8>, ErrorKind>(ErrorKind::TypeError),
        spec_array_usable(*ta, *buffer) ==> {
            let n = spec_current_length(*ta, buffer.data@.len()) as int;
            let es = spec_element_size(ta.kind);
            let all = spec_elements(*ta, buffer.data@);
            let actual = if rel < 0 {
                n + rel
            } else {
                rel as int
            };
            if actual < 0 || actual >= n {
                r == Err::<Vec<u8>, ErrorKind>(ErrorKind::RangeError)
            } else {
                r matches Ok(out) && {
                    let made = elems(out@, 0, es as int, n);
                    &&& out@.len() == n * es
                    &&& made[actual] == encode(spec_value_pattern(ta.kind, value), es, true)
                    &&& forall|j: int| #![trigger made[j]] 0 <= j < n && j != actual ==> through_value(ta.kind, all[j], made[j])
                }
            }
        },
{
    let n = match validate(ta, buffer) {
        Ok(n) => n,
        Err(e) => return Err(e),
    };
    let actual: i128 = if rel < 0 {
        n as i128 + rel as i128
    } else {
        rel as i128
    };
    if actual < 0 || actual >= n as i128 {
        return Err(ErrorKind::RangeError);
    }
    let at = actual as usize;
    let es = ta.element_size();
    let bits = value_pattern(ta.kind, value);
    let fresh = element_of(bits, es);
    let ghost all = spec_elements(*ta, buffer.data@);
    let mut out: Vec<u8> = Vec::new();
    let mut i: usize = 0;
    while i < n
        invariant
            spec_array_usable(*ta, *buffer),
            n == spec_current_length(*ta, buffer.data@.len()),
            es == spec_element_size(ta.kind),
            all == spec_elements(*ta, buffer.data@),
            all.len() == n,
            at < n,
            fresh@ == encode(spec_value_pattern(ta.kind, value), es as nat, true),
            i <= n,
            out@.len() == i * es,
            at < i ==> elems(out@, 0, es as int, i as int)[at as int] == fresh@,
            forall|j: int|
                #![trigger elems(out@, 0, es as int, i as int)[j]]
                0 <= j < i && j != at ==> through_value(ta.kind, all[j], elems(out@, 0, es as int, i as int)[j]),
        decreases n - i,
    {
        let x = if i == at {
            fresh.clone()
        } else {
            let src = ta.element_bytes(buffer, i);
            round_trip_value(ta.kind, &src)
        };
        proof {
            lemma_elems_push(out@, es as int, i as int, x@);
        }
        out.append(&mut x.clone());
        i = i + 1;
    }
    Ok(out)
}

/// The array a method makes for its result: `n` elements of `kind` from
/// the start of a buffer of its own.
pub open spec fn fresh_array(kind: crate::typed_array::TypedArrayKind, n: nat) -> JSTypedArray {
    JSTypedArray { kind, byte_offset: 0, length: n as usize, length_tracking: false }
}

/// `%TypedArray%.prototype.toSorted()` without a comparator: a TypeError
/// for a detached or out-of-bounds receiver, else a copy of the receiver
/// sorted as `sort()` sorts it (`typedarray_sort`, `typedarray_sort_bigint`
/// and `typedarray_sort_float` by kind); the receiver is left as it is.
pub fn typedarray_to_sorted(ta: &JSTypedArray, buffer: &JSArrayBuffer) -> (r: Result<Vec<u8>, ErrorKind>)
    requires
        ta.wf(),
    ensures
        !spec_array_usable(*ta, *buffer) ==> r == Err::<Vec<u8>, ErrorKind>(ErrorKind::TypeError),
        spec_array_usable(*ta, *buffer) ==> (r matches Ok(out) && {
            let n = spec_current_length(*ta, buffer.data@.len());
            let fresh = fresh_array(ta.kind, n);
            &&& out@.len() == n * spec_element_size(ta.kind)
            &&& spec_exact_kind(ta.kind) ==> int_elements(fresh, out@) == spec_sorted_elements(*ta, buffer.data@)
            &&& spec_is_bigint_kind(ta.kind) ==> int_elements(fresh, out@) == spec_sorted_bigint_elements(
                *ta,
                buffer.data@,
            )
            &&& spec_float_kind(ta.kind) ==> {
                let before = float_patterns(*ta, buffer.data@);
                let after = float_patterns(fresh, out@);
                let nums = spec_sorted_numbers(ta.kind, before);
                let nans = spec_nans(ta.kind, before);
                &&& after.len() == before.len()
                &&& nums.len() + nans.len() == before.len()
                &&& after.subrange(0, nums.len() as int) == nums
                &&& forall|j: int| 0 <= j < nans.len() ==> nan_stored(ta.kind, nans[j], #[trigger] after[nums.len() + j])
            }
        }),
{
    let n = match validate(ta, buffer) {
        Ok(n) => n,
        Err(e) => return Err(e),
    };
    let copy = elements_between(ta, buffer, n, 0, n);
    let copy_len = copy.len();
    let es = ta.element_size();
    let ghost all = spec_elements(*ta, buffer.data@);
    proof {
        assert(all.subrange(0, n as int) =~= all);
        assert(all.len() == n);
        assert(copy@.len() == n * es);
    }
    let fresh = JSTypedArray { kind: ta.kind, byte_offset: 0, length: n, length_tracking: false };
    let mut out = JSArrayBuffer { data: copy, max_byte_length: None, shared: false, detached: false };
    proof {
        assert(fresh == fresh_array(ta.kind, n as nat));
        assert(fresh.byte_offset + fresh.length * spec_element_size(fresh.kind) == n * es);
        assert(copy_len == n * es);
        assert(fresh.wf());
        assert(spec_current_length(fresh, out.data@.len()) == n);
        assert(elems(out.data@, 0, es as int, n as int) == all);
        assert(spec_elements(fresh, out.data@) == all);
        assert(int_elements(fresh, out.data@) =~= int_elements(*ta, buffer.data@));
        assert(float_patterns(fresh, out.data@) =~= float_patterns(*ta, buffer.data@));
    }
    match ta.kind {
        TypedArrayKind::Float16 | TypedArrayKind::Float32 | TypedArrayKind::Float64 => {
            let sorted = typedarray_sort_float(&fresh, &mut out);
            assert(sorted is Ok);
        },
        TypedArrayKind::BigInt64 | TypedArrayKind::BigUint64 => {
            let sorted = typedarray_sort_bigint(&fresh, &mut out);
            assert(sorted is Ok);
        },
        _ => {
            let sorted = typedarray_sort(&fresh, &mut out);
            assert(sorted is Ok);
        },
    }
    Ok(out.data)
}

} // verus!

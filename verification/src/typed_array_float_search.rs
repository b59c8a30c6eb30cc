//! `indexOf`, `lastIndexOf` and `includes` of `%TypedArray%.prototype` on
//! the floating-point kinds. The search value is a Number, given by its
//! binary64 pattern (`None` when it is not a Number, which no element
//! equals). `indexOf` and `lastIndexOf` compare with `===`, `includes`
//! with SameValueZero.
use crate::byte_codec::{bytes_value, lemma_le_value_bound, lemma_pow256_values, pow256, read_uint};
use crate::error::ErrorKind;
use crate::number_compare::{element_number_bits, f64_strict_equal, fp_nan, number_equal, same_value_zero};
use crate::typed_array::{JSArrayBuffer, JSTypedArray, TypedArrayKind, spec_element_size};
use crate::typed_array_copy::spec_elements;
use crate::typed_array_methods::{elem, spec_array_usable};
use crate::typed_array_ops::spec_current_length;
use crate::typed_array_search::{lemma_element_inside, spec_last_start, spec_search_start, validate};
use vstd::prelude::*;

verus! {

/// The floating-point kinds.
pub open spec fn spec_float_kind(kind: TypedArrayKind) -> bool {
    kind is Float16 || kind is Float32 || kind is Float64
}

/// The elements' bit patterns.
pub open spec fn float_patterns(ta: JSTypedArray, data: Seq<u8>) -> Seq<nat> {
    spec_elements(ta, data).map_values(|b: Seq<u8>| bytes_value(b, true))
}

/// `r` is the first index from `start` on whose pattern `===` the Number
/// `t` (`-1` for none).
pub open spec fn is_first_equal(kind: TypedArrayKind, s: Seq<nat>, t: u64, start: int, r: int) -> bool {
    if r == -1 {
        forall|i: int| start <= i < s.len() ==> !number_equal(kind, #[trigger] s[i], TypedArrayKind::Float64, t as nat)
    } else {
        &&& start <= r < s.len()
        &&& number_equal(kind, s[r], TypedArrayKind::Float64, t as nat)
        &&& forall|i: int| start <= i < r ==> !number_equal(kind, #[trigger] s[i], TypedArrayKind::Float64, t as nat)
    }
}

/// `r` is the last index at or before `k` whose pattern `===` the Number
/// `t` (`-1` for none).
pub open spec fn is_last_equal(kind: TypedArrayKind, s: Seq<nat>, t: u64, k: int, r: int) -> bool {
    if r == -1 {
        forall|i: int| 0 <= i <= k && i < s.len() ==> !number_equal(kind, #[trigger] s[i], TypedArrayKind::Float64, t as nat)
    } else {
        &&& 0 <= r <= k
        &&& r < s.len()
        &&& number_equal(kind, s[r], TypedArrayKind::Float64, t as nat)
        &&& forall|i: int|
            r < i <= k && i < s.len() ==> !number_equal(kind, #[trigger] s[i], TypedArrayKind::Float64, t as nat)
    }
}

impl JSTypedArray {
    /// The bit pattern of element `i`, which lies inside the buffer, as
    /// the binary64 pattern of the same number.
    fn element_number(&self, buffer: &JSArrayBuffer, i: usize) -> (r: u64)
        requires
            spec_float_kind(self.kind),
            spec_array_usable(*self, *buffer),
            i < spec_current_length(*self, buffer.data@.len()),
        ensures
            ({
                let u = float_patterns(*self, buffer.data@)[i as int];
                &&& fp_nan(self.kind, u) == fp_nan(TypedArrayKind::Float64, r as nat)
                &&& number_equal(self.kind, u, TypedArrayKind::Float64, r as nat) || fp_nan(self.kind, u)
                &&& forall|t: nat|
                    #![trigger number_equal(self.kind, u, TypedArrayKind::Float64, t)]
                    number_equal(self.kind, u, TypedArrayKind::Float64, t) == number_equal(
                        TypedArrayKind::Float64,
                        r as nat,
                        TypedArrayKind::Float64,
                        t,
                    )
            }),
    {
        let es = self.element_size();
        proof {
            lemma_element_inside(*self, buffer.data@.len(), i as nat);
            lemma_pow256_values();
        }
        assert(self.byte_offset + i * es + es <= buffer.data.len());
        let p = self.byte_offset + i * es;
        let u = read_uint(&buffer.data, p, es, true);
        proof {
            let b = elem(buffer.data@, self.byte_offset as int, es as int, i as int);
            assert(buffer.data@.subrange(p as int, p + es) == b);
            assert(spec_elements(*self, buffer.data@)[i as int] == b);
            assert(float_patterns(*self, buffer.data@)[i as int] == u as nat);
            lemma_le_value_bound(b);
        }
        element_number_bits(self.kind, u)
    }
}

/// `%TypedArray%.prototype.indexOf(search, from)` on a floating-point
/// kind: `from` is the ToIntegerOrInfinity of the second argument.
pub fn typedarray_float_index_of(ta: &JSTypedArray, buffer: &JSArrayBuffer, target: Option<u64>, from: i64) -> (r:
    Result<i64, ErrorKind>)
    requires
        ta.wf(),
        spec_float_kind(ta.kind),
        buffer.data@.len() <= i64::MAX,
    ensures
        !spec_array_usable(*ta, *buffer) ==> r == Err::<i64, ErrorKind>(ErrorKind::TypeError),
        spec_array_usable(*ta, *buffer) ==> r is Ok && match target {
            None => r->Ok_0 == -1,
            Some(t) => is_first_equal(
                ta.kind,
                float_patterns(*ta, buffer.data@),
                t,
                spec_search_start(from, float_patterns(*ta, buffer.data@).len() as int),
                r->Ok_0 as int,
            ),
        },
{
    let n = match validate(ta, buffer) {
        Ok(n) => n,
        Err(e) => return Err(e),
    };
    let ghost s = float_patterns(*ta, buffer.data@);
    assert(s.len() == n);
    let t = match target {
        None => return Ok(-1),
        Some(t) => t,
    };
    assert(n <= i64::MAX) by {
        if n > 0 {
            lemma_element_inside(*ta, buffer.data@.len(), (n - 1) as nat);
            assert((n - 1) * spec_element_size(ta.kind) + spec_element_size(ta.kind) == n * spec_element_size(ta.kind)) by (nonlinear_arith);
            assert(n <= n * spec_element_size(ta.kind)) by (nonlinear_arith)
                requires
                    spec_element_size(ta.kind) >= 1,
            ;
        }
    }
    let start: usize = if from < 0 {
        if from < -(n as i64) {
            0
        } else {
            (n as i64 + from) as usize
        }
    } else if from as u64 > n as u64 {
        n
    } else {
        from as usize
    };
    let mut i: usize = start;
    while i < n
        invariant
            spec_float_kind(ta.kind),
            spec_array_usable(*ta, *buffer),
            n == spec_current_length(*ta, buffer.data@.len()),
            n == s.len(),
            s == float_patterns(*ta, buffer.data@),
            target == Some(t),
            start <= i <= n,
            n <= i64::MAX,
            forall|j: int|
                spec_search_start(from, n as int) <= j < i ==> !number_equal(
                    ta.kind,
                    #[trigger] s[j],
                    TypedArrayKind::Float64,
                    t as nat,
                ),
            start == (if spec_search_start(from, n as int) > n {
                n as int
            } else {
                spec_search_start(from, n as int)
            }),
        decreases n - i,
    {
        let w = ta.element_number(buffer, i);
        let eq = f64_strict_equal(w, t);
        proof {
            assert(number_equal(ta.kind, s[i as int], TypedArrayKind::Float64, t as nat) == eq);
        }
        if eq {
            assert(spec_search_start(from, n as int) <= i);
            assert(number_equal(ta.kind, float_patterns(*ta, buffer.data@)[i as int], TypedArrayKind::Float64, t as nat));
            return Ok(i as i64);
        }
        i = i + 1;
    }
    Ok(-1)
}

/// `%TypedArray%.prototype.lastIndexOf(search, from)` on a floating-point
/// kind; `from` is `None` when the argument is absent.
pub fn typedarray_float_last_index_of(
    ta: &JSTypedArray,
    buffer: &JSArrayBuffer,
    target: Option<u64>,
    from: Option<i64>,
) -> (r: Result<i64, ErrorKind>)
    requires
        ta.wf(),
        spec_float_kind(ta.kind),
        buffer.data@.len() <= i64::MAX,
    ensures
        !spec_array_usable(*ta, *buffer) ==> r == Err::<i64, ErrorKind>(ErrorKind::TypeError),
        spec_array_usable(*ta, *buffer) ==> r is Ok && match target {
            None => r->Ok_0 == -1,
            Some(t) => is_last_equal(
                ta.kind,
                float_patterns(*ta, buffer.data@),
                t,
                spec_last_start(from, float_patterns(*ta, buffer.data@).len() as int),
                r->Ok_0 as int,
            ),
        },
{
    let n = match validate(ta, buffer) {
        Ok(n) => n,
        Err(e) => return Err(e),
    };
    let ghost s = float_patterns(*ta, buffer.data@);
    assert(s.len() == n);
    let t = match target {
        None => return Ok(-1),
        Some(t) => t,
    };
    if n == 0 {
        return Ok(-1);
    }
    assert(n <= i64::MAX) by {
        lemma_element_inside(*ta, buffer.data@.len(), (n - 1) as nat);
        assert((n - 1) * spec_element_size(ta.kind) + spec_element_size(ta.kind) == n * spec_element_size(ta.kind)) by (nonlinear_arith);
        assert(n <= n * spec_element_size(ta.kind)) by (nonlinear_arith)
            requires
                spec_element_size(ta.kind) >= 1,
        ;
    }
    let k: i64 = match from {
        None => n as i64 - 1,
        Some(f) => if f >= 0 {
            if f < n as i64 - 1 {
                f
            } else {
                n as i64 - 1
            }
        } else if f < -(n as i64) {
            -1
        } else {
            n as i64 + f
        },
    };
    assert(k == spec_last_start(from, n as int));
    let mut i: i64 = k;
    while i >= 0
        invariant
            spec_float_kind(ta.kind),
            spec_array_usable(*ta, *buffer),
            n == spec_current_length(*ta, buffer.data@.len()),
            n == s.len(),
            s == float_patterns(*ta, buffer.data@),
            target == Some(t),
            -1 <= i <= k < n,
            k == spec_last_start(from, n as int),
            forall|j: int|
                i < j <= k && j < s.len() ==> !number_equal(ta.kind, #[trigger] s[j], TypedArrayKind::Float64, t as nat),
        decreases i + 1,
    {
        let w = ta.element_number(buffer, i as usize);
        let eq = f64_strict_equal(w, t);
        proof {
            assert(number_equal(ta.kind, s[i as int], TypedArrayKind::Float64, t as nat) == eq);
        }
        if eq {
            assert(number_equal(ta.kind, float_patterns(*ta, buffer.data@)[i as int], TypedArrayKind::Float64, t as nat));
            return Ok(i);
        }
        i = i - 1;
    }
    Ok(-1)
}

/// `%TypedArray%.prototype.includes(search, from)` on a floating-point
/// kind: whether an element from `from` on is SameValueZero to the
/// search value (a NaN finds a NaN).
pub fn typedarray_float_includes(ta: &JSTypedArray, buffer: &JSArrayBuffer, target: Option<u64>, from: i64) -> (r:
    Result<bool, ErrorKind>)
    requires
        ta.wf(),
        spec_float_kind(ta.kind),
        buffer.data@.len() <= i64::MAX,
    ensures
        !spec_array_usable(*ta, *buffer) ==> r == Err::<bool, ErrorKind>(ErrorKind::TypeError),
        spec_array_usable(*ta, *buffer) ==> r is Ok && r->Ok_0 == match target {
            None => false,
            Some(t) => exists|j: int|
                spec_search_start(from, float_patterns(*ta, buffer.data@).len() as int) <= j < float_patterns(
                    *ta,
                    buffer.data@,
                ).len() && same_value_zero(
                    ta.kind,
                    #[trigger] float_patterns(*ta, buffer.data@)[j],
                    TypedArrayKind::Float64,
                    t as nat,
                ),
        },
{
    let n = match validate(ta, buffer) {
        Ok(n) => n,
        Err(e) => return Err(e),
    };
    let ghost s = float_patterns(*ta, buffer.data@);
    assert(s.len() == n);
    let t = match target {
        None => return Ok(false),
        Some(t) => t,
    };
    let t_nan = (t / 0x10_0000_0000_0000) % 2048 == 2047 && t % 0x10_0000_0000_0000 != 0;
    assert(n <= i64::MAX) by {
        if n > 0 {
            lemma_element_inside(*ta, buffer.data@.len(), (n - 1) as nat);
            assert((n - 1) * spec_element_size(ta.kind) + spec_element_size(ta.kind) == n * spec_element_size(ta.kind)) by (nonlinear_arith);
            assert(n <= n * spec_element_size(ta.kind)) by (nonlinear_arith)
                requires
                    spec_element_size(ta.kind) >= 1,
            ;
        }
    }
    let start: usize = if from < 0 {
        if from < -(n as i64) {
            0
        } else {
            (n as i64 + from) as usize
        }
    } else if from as u64 > n as u64 {
        n
    } else {
        from as usize
    };
    let mut i: usize = start;
    while i < n
        invariant
            spec_float_kind(ta.kind),
            spec_array_usable(*ta, *buffer),
            n == spec_current_length(*ta, buffer.data@.len()),
            n == s.len(),
            s == float_patterns(*ta, buffer.data@),
            target == Some(t),
            start <= i <= n,
            t_nan == fp_nan(TypedArrayKind::Float64, t as nat),
            forall|j: int|
                spec_search_start(from, n as int) <= j < i ==> !same_value_zero(
                    ta.kind,
                    #[trigger] s[j],
                    TypedArrayKind::Float64,
                    t as nat,
                ),
            start == (if spec_search_start(from, n as int) > n {
                n as int
            } else {
                spec_search_start(from, n as int)
            }),
        decreases n - i,
    {
        let w = ta.element_number(buffer, i);
        let w_nan = (w / 0x10_0000_0000_0000) % 2048 == 2047 && w % 0x10_0000_0000_0000 != 0;
        let found = (w_nan && t_nan) || f64_strict_equal(w, t);
        proof {
            assert(same_value_zero(ta.kind, s[i as int], TypedArrayKind::Float64, t as nat) == found);
        }
        if found {
            assert(spec_search_start(from, n as int) <= i);
            assert(same_value_zero(ta.kind, float_patterns(*ta, buffer.data@)[i as int], TypedArrayKind::Float64, t as nat));
            return Ok(true);
        }
        i = i + 1;
    }
    Ok(false)
}

} // verus!

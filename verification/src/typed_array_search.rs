//! `indexOf`, `lastIndexOf`, `includes` and the default `sort` of
//! `%TypedArray%.prototype` on the integer kinds, whose elements are whole
//! numbers (BigInts for the 64-bit kinds).
use crate::byte_codec::{
    bytes_value, encode, lemma_decode_encode, lemma_le_value_bound, lemma_pow256_values, pow256, read_uint,
    write_uint,
};
use crate::error::ErrorKind;
use crate::typed_array::{
    JSArrayBuffer, JSTypedArray, TypedArrayKind, lemma_signed_roundtrip, spec_element_size, to_signed,
    to_unsigned,
};
use crate::typed_array_methods::{elem, elems, lemma_write_elem, overwrite, same_outside, spec_array_usable, spec_exact_kind};
use crate::typed_array_ops::{spec_current_length, spec_out_of_bounds};
use crate::typed_array_iter::ensure_typedarray_in_bounds;
use vstd::prelude::*;
use vstd::seq_lib::lemma_sorted_unique;
use vstd::relations::{sorted_by, total_ordering};

verus! {

/// The kinds whose elements are whole numbers.
pub open spec fn spec_int_kind(kind: TypedArrayKind) -> bool {
    match kind {
        TypedArrayKind::Float16 | TypedArrayKind::Float32 | TypedArrayKind::Float64 => false,
        _ => true,
    }
}

/// The kinds read in two's complement.
pub open spec fn spec_signed_kind(kind: TypedArrayKind) -> bool {
    match kind {
        TypedArrayKind::Int8 | TypedArrayKind::Int16 | TypedArrayKind::Int32
        | TypedArrayKind::BigInt64 => true,
        _ => false,
    }
}

/// The number an element's (little-endian) bytes hold.
pub open spec fn element_int(kind: TypedArrayKind, b: Seq<u8>) -> int {
    if spec_signed_kind(kind) {
        to_signed(bytes_value(b, true), b.len())
    } else {
        bytes_value(b, true) as int
    }
}

/// The elements of an integer TypedArray as numbers.
pub open spec fn int_elements(ta: JSTypedArray, data: Seq<u8>) -> Seq<int> {
    let n = spec_current_length(ta, data.len()) as int;
    let es = spec_element_size(ta.kind) as int;
    elems(data, ta.byte_offset as int, es, n).map_values(|b: Seq<u8>| element_int(ta.kind, b))
}

/// Element `i`, which lies inside the buffer, as a number.
fn element_at(ta: &JSTypedArray, data: &Vec<u8>, i: usize) -> (r: i128)
    requires
        ta.wf(),
        spec_int_kind(ta.kind),
        !spec_out_of_bounds(*ta, data@.len()),
        i < spec_current_length(*ta, data@.len()),
    ensures
        r as int == element_int(
            ta.kind,
            elem(data@, ta.byte_offset as int, spec_element_size(ta.kind) as int, i as int),
        ),
{
    proof {
        lemma_pow256_values();
    }
    let es = ta.element_size();
    let dlen = data.len();
    proof {
        lemma_element_inside(*ta, dlen as nat, i as nat);
    }
    let p = ta.byte_offset + i * es;
    let u = read_uint(data, p, es, true);
    let ghost b = data@.subrange(p as int, p + es);
    proof {
        lemma_le_value_bound(b);
        assert(elem(data@, ta.byte_offset as int, es as int, i as int) == b);
    }
    let signed = match ta.kind {
        TypedArrayKind::Int8 | TypedArrayKind::Int16 | TypedArrayKind::Int32
        | TypedArrayKind::BigInt64 => true,
        _ => false,
    };
    if !signed {
        return u as i128;
    }
    let full: i128 = if es == 1 {
        0x100
    } else if es == 2 {
        0x1_0000
    } else if es == 4 {
        0x1_0000_0000
    } else {
        0x1_0000_0000_0000_0000
    };
    if (u as i128) * 2 >= full {
        u as i128 - full
    } else {
        u as i128
    }
}

/// An element of a TypedArray that lies inside its buffer has its bytes
/// inside the buffer.
pub(crate) proof fn lemma_element_inside(ta: JSTypedArray, len: nat, i: nat)
    requires
        !spec_out_of_bounds(ta, len),
        i < spec_current_length(ta, len),
    ensures
        ta.byte_offset + i * spec_element_size(ta.kind) + spec_element_size(ta.kind) <= len,
{
    let es = spec_element_size(ta.kind);
    assert(es > 0);
    assert(i * es + es == (i + 1) * es) by (nonlinear_arith);
    if ta.length_tracking {
        let a = (len - ta.byte_offset) as nat;
        let q = a / es;
        assert(q * es <= a) by (nonlinear_arith)
            requires
                es > 0,
                q == a / es,
        ;
        assert((i + 1) * es <= q * es) by (nonlinear_arith)
            requires
                i + 1 <= q,
                es > 0,
        ;
    } else {
        assert((i + 1) * es <= ta.length * es) by (nonlinear_arith)
            requires
                i + 1 <= ta.length,
                es > 0,
        ;
    }
}

/// The current length, for an array inside its buffer.
fn current_length(ta: &JSTypedArray, buffer_len: usize) -> (n: usize)
    requires
        ta.wf(),
    ensures
        n == spec_current_length(*ta, buffer_len as nat),
{
    let es = ta.element_size();
    if ta.length_tracking {
        if buffer_len <= ta.byte_offset {
            0
        } else {
            (buffer_len - ta.byte_offset) / es
        }
    } else {
        assert(ta.length * es <= usize::MAX) by (nonlinear_arith)
            requires
                ta.byte_offset + ta.length * es <= usize::MAX,
        ;
        if ta.byte_offset + ta.length * es > buffer_len {
            0
        } else {
            ta.length
        }
    }
}

/// Where a forward search starts: a negative `from` counts from the end.
pub open spec fn spec_search_start(from: i64, n: int) -> int {
    if from < 0 {
        if n + from < 0 {
            0
        } else {
            n + from
        }
    } else {
        from as int
    }
}

/// Where `lastIndexOf` starts: `None` when `from` is absent; `-1` when a
/// negative `from` reaches past the start.
pub open spec fn spec_last_start(from: Option<i64>, n: int) -> int {
    match from {
        None => n - 1,
        Some(f) => if f >= 0 {
            if f < n - 1 {
                f as int
            } else {
                n - 1
            }
        } else if n + f < 0 {
            -1
        } else {
            n + f
        },
    }
}

/// `r` is the first index from `start` on that holds `t` (`-1` for none).
pub open spec fn is_first_index(s: Seq<int>, t: int, start: int, r: int) -> bool {
    if r == -1 {
        forall|i: int| start <= i < s.len() ==> s[i] != t
    } else {
        &&& start <= r < s.len()
        &&& s[r] == t
        &&& forall|i: int| start <= i < r ==> s[i] != t
    }
}

/// `r` is the last index at or before `k` that holds `t` (`-1` for none).
pub open spec fn is_last_index(s: Seq<int>, t: int, k: int, r: int) -> bool {
    if r == -1 {
        forall|i: int| 0 <= i <= k && i < s.len() ==> s[i] != t
    } else {
        &&& 0 <= r <= k
        &&& r < s.len()
        &&& s[r] == t
        &&& forall|i: int| r < i <= k && i < s.len() ==> s[i] != t
    }
}

pub(crate) fn validate(ta: &JSTypedArray, buffer: &JSArrayBuffer) -> (r: Result<usize, ErrorKind>)
    requires
        ta.wf(),
    ensures
        r is Ok <==> spec_array_usable(*ta, *buffer),
        r is Ok ==> r->Ok_0 == spec_current_length(*ta, buffer.data@.len()),
        r is Err ==> r->Err_0 == ErrorKind::TypeError,
{
    if buffer.detached {
        return Err(ErrorKind::TypeError);
    }
    let len = buffer.data.len();
    if ensure_typedarray_in_bounds(ta, len).is_err() {
        return Err(ErrorKind::TypeError);
    }
    Ok(current_length(ta, len))
}

/// `%TypedArray%.prototype.indexOf(search, from)` on an integer kind:
/// `target` is the search value when some element could equal it (`None`
/// for a value of another type or a number no element can hold), `from`
/// the ToIntegerOrInfinity of the second argument.
pub fn typedarray_index_of(ta: &JSTypedArray, buffer: &JSArrayBuffer, target: Option<i128>, from: i64) -> (r:
    Result<i64, ErrorKind>)
    requires
        ta.wf(),
        spec_int_kind(ta.kind),
        buffer.data@.len() <= i64::MAX,
    ensures
        !spec_array_usable(*ta, *buffer) ==> r == Err::<i64, ErrorKind>(ErrorKind::TypeError),
        spec_array_usable(*ta, *buffer) ==> r is Ok && match target {
            None => r->Ok_0 == -1,
            Some(t) => is_first_index(
                int_elements(*ta, buffer.data@),
                t as int,
                spec_search_start(from, int_elements(*ta, buffer.data@).len() as int),
                r->Ok_0 as int,
            ),
        },
{
    let n = match validate(ta, buffer) {
        Ok(n) => n,
        Err(e) => return Err(e),
    };
    let ghost s = int_elements(*ta, buffer.data@);
    assert(s.len() == n);
    let t = match target {
        None => return Ok(-1),
        Some(t) => t,
    };
    if n == 0 {
        return Ok(-1);
    }
    assert(n <= i64::MAX) by {
        assert(n * spec_element_size(ta.kind) <= buffer.data@.len()) by {
            lemma_element_inside(*ta, buffer.data@.len(), (n - 1) as nat);
            assert((n - 1) * spec_element_size(ta.kind) + spec_element_size(ta.kind) == n * spec_element_size(ta.kind)) by (nonlinear_arith);
        }
        assert(n <= n * spec_element_size(ta.kind)) by (nonlinear_arith)
            requires
                spec_element_size(ta.kind) >= 1,
        ;
    }
    let start: usize = if from < 0 {
        if from < -(n as i64) {
            0
        } else {
            (n as i64 + from) as usize
        }
    } else if from as u64 > n as u64 {
        n
    } else {
        from as usize
    };
    let mut i: usize = start;
    while i < n
        invariant
            ta.wf(),
            spec_int_kind(ta.kind),
            spec_array_usable(*ta, *buffer),
            n == s.len(),
            s == int_elements(*ta, buffer.data@),
            start <= i <= n,
            n <= i64::MAX,
            buffer.data@.len() <= i64::MAX,
            target == Some(t),
            forall|j: int| spec_search_start(from, n as int) <= j < i ==> s[j] != t,
            start == (if spec_search_start(from, n as int) > n { n as int } else { spec_search_start(from, n as int) }),
        decreases n - i,
    {
        let v = element_at(ta, &buffer.data, i);
        assert(s[i as int] == v as int);
        if v == t {
            assert(spec_search_start(from, n as int) <= i);
            return Ok(i as i64);
        }
        i = i + 1;
    }
    Ok(-1)
}


/// `%TypedArray%.prototype.includes(search, from)` on an integer kind
/// (SameValueZero is plain equality on whole numbers).
pub fn typedarray_includes(ta: &JSTypedArray, buffer: &JSArrayBuffer, target: Option<i128>, from: i64) -> (r:
    Result<bool, ErrorKind>)
    requires
        ta.wf(),
        spec_int_kind(ta.kind),
        buffer.data@.len() <= i64::MAX,
    ensures
        !spec_array_usable(*ta, *buffer) ==> r == Err::<bool, ErrorKind>(ErrorKind::TypeError),
        spec_array_usable(*ta, *buffer) ==> r is Ok && r->Ok_0 == match target {
            None => false,
            Some(t) => exists|j: int|
                spec_search_start(from, int_elements(*ta, buffer.data@).len() as int) <= j
                    < int_elements(*ta, buffer.data@).len() && #[trigger] int_elements(
                    *ta,
                    buffer.data@,
                )[j] == t,
        },
{
    let found = typedarray_index_of(ta, buffer, target, from);
    match found {
        Err(e) => Err(e),
        Ok(k) => {
            proof {
                let s = int_elements(*ta, buffer.data@);
                if target is Some && k != -1 {
                    assert(s[k as int] == target->0);
                }
            }
            Ok(k != -1)
        },
    }
}

/// `%TypedArray%.prototype.lastIndexOf(search, from)` on an integer kind;
/// `from` is `None` when the argument is absent.
pub fn typedarray_last_index_of(
    ta: &JSTypedArray,
    buffer: &JSArrayBuffer,
    target: Option<i128>,
    from: Option<i64>,
) -> (r: Result<i64, ErrorKind>)
    requires
        ta.wf(),
        spec_int_kind(ta.kind),
        buffer.data@.len() <= i64::MAX,
    ensures
        !spec_array_usable(*ta, *buffer) ==> r == Err::<i64, ErrorKind>(ErrorKind::TypeError),
        spec_array_usable(*ta, *buffer) ==> r is Ok && match target {
            None => r->Ok_0 == -1,
            Some(t) => is_last_index(
                int_elements(*ta, buffer.data@),
                t as int,
                spec_last_start(from, int_elements(*ta, buffer.data@).len() as int),
                r->Ok_0 as int,
            ),
        },
{
    let n = match validate(ta, buffer) {
        Ok(n) => n,
        Err(e) => return Err(e),
    };
    let ghost s = int_elements(*ta, buffer.data@);
    assert(s.len() == n);
    let t = match target {
        None => return Ok(-1),
        Some(t) => t,
    };
    if n == 0 {
        return Ok(-1);
    }
    assert(n <= i64::MAX) by {
        lemma_element_inside(*ta, buffer.data@.len(), (n - 1) as nat);
        assert((n - 1) * spec_element_size(ta.kind) + spec_element_size(ta.kind) == n * spec_element_size(ta.kind)) by (nonlinear_arith);
        assert(n <= n * spec_element_size(ta.kind)) by (nonlinear_arith)
            requires
                spec_element_size(ta.kind) >= 1,
        ;
    }
    let k: i64 = match from {
        None => n as i64 - 1,
        Some(f) => if f >= 0 {
            if f < n as i64 - 1 {
                f
            } else {
                n as i64 - 1
            }
        } else if f < -(n as i64) {
            -1
        } else {
            n as i64 + f
        },
    };
    assert(k == spec_last_start(from, n as int));
    let mut i: i64 = k;
    while i >= 0
        invariant
            ta.wf(),
            spec_int_kind(ta.kind),
            spec_array_usable(*ta, *buffer),
            n == s.len(),
            s == int_elements(*ta, buffer.data@),
            -1 <= i <= k < n,
            k == spec_last_start(from, n as int),
            target == Some(t),
            forall|j: int| i < j <= k && j < s.len() ==> s[j] != t,
        decreases i + 1,
    {
        let v = element_at(ta, &buffer.data, i as usize);
        assert(s[i as int] == v as int);
        if v == t {
            return Ok(i);
        }
        i = i - 1;
    }
    Ok(-1)
}


/// The numbers a vector of `i128` holds.
pub open spec fn ints(v: Seq<i128>) -> Seq<int> {
    v.map_values(|x: i128| x as int)
}

proof fn lemma_swap_multiset(s: Seq<int>, a: int, b: int)
    requires
        0 <= a < s.len(),
        0 <= b < s.len(),
    ensures
        s.update(a, s[b]).update(b, s[a]).to_multiset() == s.to_multiset(),
{
    broadcast use vstd::seq_lib::to_multiset_update;
    broadcast use vstd::multiset::group_multiset_axioms;

    let s1 = s.update(a, s[b]);
    assert(s1[b] == if a == b { s[b] } else { s[b] });
    assert(s1.to_multiset() == s.to_multiset().insert(s[b]).remove(s[a]));
    assert(s1.update(b, s[a]).to_multiset() == s1.to_multiset().insert(s[a]).remove(s1[b]));
    broadcast use vstd::seq_lib::to_multiset_contains;

    assert(s.contains(s[a]));
    assert(s.contains(s[b]));
    let m = s.to_multiset();
    assert(m.count(s[a]) > 0 && m.count(s[b]) > 0);
    assert(m.insert(s[b]).remove(s[a]).insert(s[a]).remove(s[b]) =~= m);
}

/// Sorts `v` in ascending order (insertion sort).
pub(crate) fn sort_values(v: &mut Vec<i128>)
    ensures
        final(v)@.len() == old(v)@.len(),
        ints(final(v)@).to_multiset() == ints(old(v)@).to_multiset(),
        forall|a: int, b: int| 0 <= a < b < final(v)@.len() ==> final(v)@[a] <= final(v)@[b],
{
    let n = v.len();
    if n == 0 {
        return;
    }
    let mut i: usize = 1;
    while i < n
        invariant
            v@.len() == n,
            1 <= i <= n,
            ints(v@).to_multiset() == ints(old(v)@).to_multiset(),
            forall|a: int, b: int| 0 <= a < b < i ==> v@[a] <= v@[b],
        decreases n - i,
    {
        let mut j: usize = i;
        while j > 0 && v[j - 1] > v[j]
            invariant
                v@.len() == n,
                0 <= j <= i < n,
                ints(v@).to_multiset() == ints(old(v)@).to_multiset(),
                forall|a: int, b: int| 0 <= a < b <= i && a != j && b != j ==> v@[a] <= v@[b],
                forall|b: int| j < b <= i ==> v@[j as int] <= v@[b],
            decreases j,
        {
            let x = v[j - 1];
            let y = v[j];
            let ghost before = ints(v@);
            v.set(j - 1, y);
            v.set(j, x);
            proof {
                lemma_swap_multiset(before, j - 1, j as int);
                assert(ints(v@) =~= before.update(j - 1, before[j as int]).update(j as int, before[j - 1]));
            }
            j = j - 1;
        }
        i = i + 1;
    }
}

/// The numbers of the elements of `ta` after `sort()`: ascending.
pub open spec fn spec_sorted_elements(ta: JSTypedArray, data: Seq<u8>) -> Seq<int> {
    int_elements(ta, data).sort()
}

pub(crate) proof fn lemma_element_int_range(kind: TypedArrayKind, b: Seq<u8>)
    requires
        b.len() == 1 || b.len() == 2 || b.len() == 4 || b.len() == 8,
    ensures
        spec_signed_kind(kind) ==> -(pow256(b.len()) / 2) <= element_int(kind, b) < pow256(b.len()) / 2,
        !spec_signed_kind(kind) ==> 0 <= element_int(kind, b) < pow256(b.len()),
{
    lemma_le_value_bound(b);
    lemma_pow256_values();
}

/// The bytes an element holds after storing the number `v`.
pub open spec fn int_bytes(v: int, es: nat) -> Seq<u8> {
    encode(to_unsigned(v, es), es, true)
}

pub(crate) proof fn lemma_element_int_encode(kind: TypedArrayKind, v: int, es: nat)
    requires
        es == 1 || es == 2 || es == 4 || es == 8,
        spec_signed_kind(kind) ==> -(pow256(es) / 2) <= v < pow256(es) / 2,
        !spec_signed_kind(kind) ==> 0 <= v < pow256(es),
    ensures
        int_bytes(v, es).len() == es,
        element_int(kind, int_bytes(v, es)) == v,
{
    lemma_pow256_values();
    if spec_signed_kind(kind) {
        lemma_signed_roundtrip(v, es);
    } else {
        assert(v >= 0);
        assert(to_unsigned(v, es) == v);
    }
    lemma_decode_encode(to_unsigned(v, es), es, true);
    assert(to_unsigned(v, es) % pow256(es) == to_unsigned(v, es)) by {
        vstd::arithmetic::div_mod::lemma_small_mod(to_unsigned(v, es), pow256(es));
    }
}


/// A value of a permutation of an array's elements lies in the range of the
/// array's kind.
proof fn lemma_value_in_range(ta: JSTypedArray, data: Seq<u8>, vals: Seq<i128>, j: int)
    requires
        spec_exact_kind(ta.kind),
        !spec_out_of_bounds(ta, data.len()),
        0 <= j < vals.len(),
        ints(vals).to_multiset() == int_elements(ta, data).to_multiset(),
    ensures
        ({
            let es = spec_element_size(ta.kind);
            let v = vals[j] as int;
            &&& spec_signed_kind(ta.kind) ==> -(pow256(es) / 2) <= v < pow256(es) / 2
            &&& !spec_signed_kind(ta.kind) ==> 0 <= v < pow256(es)
        }),
{
    broadcast use vstd::seq_lib::to_multiset_contains;

    let s = ints(vals);
    let orig = int_elements(ta, data);
    let v = vals[j] as int;
    let es = spec_element_size(ta.kind);
    assert(s[j] == v);
    assert(s.contains(v));
    assert(s.to_multiset().count(v) > 0);
    assert(orig.to_multiset().count(v) > 0);
    assert(orig.contains(v));
    let k = choose|k: int| 0 <= k < orig.len() && orig[k] == v;
    let b = elem(data, ta.byte_offset as int, es as int, k);
    assert(orig[k] == element_int(ta.kind, b));
    lemma_element_inside(ta, data.len(), k as nat);
    assert(b.len() == es);
    lemma_element_int_range(ta.kind, b);
}

/// The first `n` elements of an array inside its buffer, as numbers.
pub(crate) fn read_elements(ta: &JSTypedArray, data: &Vec<u8>, n: usize) -> (v: Vec<i128>)
    requires
        ta.wf(),
        spec_int_kind(ta.kind),
        !spec_out_of_bounds(*ta, data@.len()),
        n == spec_current_length(*ta, data@.len()),
    ensures
        ints(v@) == int_elements(*ta, data@),
{
    let mut v: Vec<i128> = Vec::new();
    let mut i: usize = 0;
    while i < n
        invariant
            ta.wf(),
            spec_int_kind(ta.kind),
            !spec_out_of_bounds(*ta, data@.len()),
            n == spec_current_length(*ta, data@.len()),
            i <= n,
            ints(v@) == int_elements(*ta, data@).take(i as int),
        decreases n - i,
    {
        let x = element_at(ta, data, i);
        assert(int_elements(*ta, data@).len() == n);
        assert(int_elements(*ta, data@)[i as int] == x as int);
        let ghost before = v@;
        v.push(x);
        assert(ints(v@) =~= ints(before).push(x as int));
        assert(ints(v@) =~= int_elements(*ta, data@).take(i + 1));
        i = i + 1;
    }
    assert(int_elements(*ta, data@).take(n as int) =~= int_elements(*ta, data@));
    v
}

/// `%TypedArray%.prototype.sort()` without a comparator, on the integer
/// kinds of at most 32 bits: the elements in ascending order.
pub fn typedarray_sort(ta: &JSTypedArray, buffer: &mut JSArrayBuffer) -> (r: Result<(), ErrorKind>)
    requires
        ta.wf(),
        spec_exact_kind(ta.kind),
    ensures
        !spec_array_usable(*ta, *old(buffer)) ==> r == Err::<(), ErrorKind>(ErrorKind::TypeError)
            && *final(buffer) == *old(buffer),
        spec_array_usable(*ta, *old(buffer)) ==> {
            let n = spec_current_length(*ta, old(buffer).data@.len()) as int;
            let es = spec_element_size(ta.kind) as int;
            &&& r is Ok
            &&& int_elements(*ta, final(buffer).data@) == spec_sorted_elements(*ta, old(buffer).data@)
            &&& same_outside(
                old(buffer).data@,
                final(buffer).data@,
                ta.byte_offset as int,
                ta.byte_offset + n * es,
            )
        },
        final(buffer).max_byte_length == old(buffer).max_byte_length,
        final(buffer).shared == old(buffer).shared,
        final(buffer).detached == old(buffer).detached,
{
    proof {
        lemma_pow256_values();
    }
    let n = match validate(ta, buffer) {
        Ok(n) => n,
        Err(e) => return Err(e),
    };
    let ghost old_data = buffer.data@;
    let ghost orig = int_elements(*ta, old_data);
    let mut vals = read_elements(ta, &buffer.data, n);
    assert(vals@.len() == n) by {
        assert(ints(vals@).len() == vals@.len());
    }
    sort_values(&mut vals);
    let es = ta.element_size();
    let ghost bo = ta.byte_offset as int;
    let full: i128 = if es == 1 {
        0x100
    } else if es == 2 {
        0x1_0000
    } else {
        0x1_0000_0000
    };
    assert(full == pow256(es as nat));
    let dlen = buffer.data.len();
    proof {
        if n > 0 {
            lemma_element_inside(*ta, dlen as nat, (n - 1) as nat);
        }
        assert(bo <= dlen);
        assert(bo + n * es <= dlen) by (nonlinear_arith)
            requires
                n > 0 ==> bo + (n - 1) * es + es <= dlen,
                bo <= dlen,
                bo >= 0,
                es > 0,
        ;
    }
    let mut i: usize = 0;
    while i < n
        invariant
            ta.wf(),
            spec_exact_kind(ta.kind),
            es == spec_element_size(ta.kind),
            es == 1 || es == 2 || es == 4,
            full == pow256(es as nat),
            bo == ta.byte_offset,
            i <= n,
            vals@.len() == n,
            buffer.data@.len() == dlen,
            dlen == old_data.len(),
            n == spec_current_length(*ta, old_data.len()),
            !spec_out_of_bounds(*ta, old_data.len()),
            bo + n * es <= dlen,
            ints(vals@).to_multiset() == orig.to_multiset(),
            orig == int_elements(*ta, old_data),
            forall|a: int, b: int| 0 <= a < b < n ==> vals@[a] <= vals@[b],
            forall|j: int| 0 <= j < i ==> #[trigger] elem(buffer.data@, bo, es as int, j) == int_bytes(
                vals@[j] as int,
                es as nat,
            ),
            same_outside(old_data, buffer.data@, bo, bo + n * es),
            buffer.max_byte_length == old(buffer).max_byte_length,
            buffer.shared == old(buffer).shared,
            buffer.detached == old(buffer).detached,
            old_data == old(buffer).data@,
        decreases n - i,
    {
        let v = vals[i];
        proof {
            broadcast use vstd::seq_lib::to_multiset_contains;

            lemma_pow256_values();
            lemma_value_in_range(*ta, old_data, vals@, i as int);
            assert(v as int >= -(full / 2));
            assert(v < full);
            lemma_element_inside(*ta, old_data.len(), i as nat);
        }
        let bits: u64 = if v < 0 {
            (v + full) as u64
        } else {
            v as u64
        };
        let p = ta.byte_offset + i * es;
        let ghost before = buffer.data@;
        proof {
            assert(bits as nat == to_unsigned(v as int, es as nat));
        }
        write_uint(&mut buffer.data, p, es, bits, true);
        proof {
            let x = int_bytes(v as int, es as nat);
            lemma_write_elem(before, bo, es as int, n as int, i as int, x);
            assert(buffer.data@ == overwrite(before, p as int, x));
            assert forall|j: int| 0 <= j < i + 1 implies #[trigger] elem(buffer.data@, bo, es as int, j)
                == int_bytes(vals@[j] as int, es as nat) by {
                assert(elem(buffer.data@, bo, es as int, j) == if j == i {
                    x
                } else {
                    elem(before, bo, es as int, j)
                });
            }
            assert forall|k: int| 0 <= k < old_data.len() && !(bo <= k < bo + n * es) implies old_data[k]
                == buffer.data@[k] by {
                assert(before[k] == old_data[k]);
                assert(!(p <= k < p + es)) by {
                    assert(bo <= p && p + es <= bo + n * es) by {
                        assert(i * es + es <= n * es) by (nonlinear_arith)
                            requires
                                i < n,
                                es > 0,
                        ;
                    }
                }
            }
        }
        i = i + 1;
    }
    proof {
        let fin = int_elements(*ta, buffer.data@);
        assert(spec_current_length(*ta, buffer.data@.len()) == n);
        assert forall|j: int| 0 <= j < n implies fin[j] == ints(vals@)[j] by {
            let v = vals@[j];
            lemma_value_in_range(*ta, old_data, vals@, j);
            lemma_element_int_encode(ta.kind, v as int, es as nat);
        }
        assert(fin =~= ints(vals@));
        let leq = |x: int, y: int| x <= y;
        assert(total_ordering(leq));
        assert(sorted_by(ints(vals@), leq));
        orig.lemma_sort_ensures();
        vstd::seq_lib::lemma_sorted_unique(ints(vals@), orig.sort(), leq);
    }
    Ok(())
}


/// The elements of an integer array as numbers, or the TypeError of an
/// array that is detached or outside its buffer.
pub(crate) fn read_elements_checked(ta: &JSTypedArray, buffer: &JSArrayBuffer) -> (r: Result<Vec<i128>, ErrorKind>)
    requires
        ta.wf(),
        spec_int_kind(ta.kind),
    ensures
        r is Err <==> !spec_array_usable(*ta, *buffer),
        r is Err ==> r->Err_0 == ErrorKind::TypeError,
        r matches Ok(v) ==> ints(v@) == int_elements(*ta, buffer.data@) && forall|k: int|
            0 <= k < v@.len() ==> #[trigger] v@[k] > i128::MIN,
{
    let n = match validate(ta, buffer) {
        Ok(n) => n,
        Err(e) => return Err(e),
    };
    let v = read_elements(ta, &buffer.data, n);
    proof {
        lemma_pow256_values();
        let es = spec_element_size(ta.kind);
        let all = elems(buffer.data@, ta.byte_offset as int, es as int, n as int);
        assert(ints(v@).len() == v@.len());
        assert(int_elements(*ta, buffer.data@) == all.map_values(|b: Seq<u8>| element_int(ta.kind, b)));
        assert(v@.len() == n);
        assert forall|k: int| 0 <= k < v@.len() implies #[trigger] v@[k] > i128::MIN by {
            let b = elem(buffer.data@, ta.byte_offset as int, es as int, k);
            assert(all[k] == b);
            assert(ints(v@)[k] == v@[k] as int);
            assert(int_elements(*ta, buffer.data@)[k] == element_int(ta.kind, b));
            lemma_element_inside(*ta, buffer.data@.len(), k as nat);
            assert(b.len() == es);
            lemma_element_int_range(ta.kind, b);
        }
    }
    Ok(v)
}


/// What `sort` and `toSorted` produce: the receiver's elements, each as
/// often as before, in ascending order; sorting that once more changes
/// nothing.
pub proof fn law_sorted_elements(ta: JSTypedArray, data: Seq<u8>)
    ensures
        ({
            let s = spec_sorted_elements(ta, data);
            &&& s.to_multiset() == int_elements(ta, data).to_multiset()
            &&& forall|i: int, j: int| 0 <= i <= j < s.len() ==> s[i] <= s[j]
            &&& s.sort() == s
        }),
{
    let e = int_elements(ta, data);
    let leq = |x: int, y: int| x <= y;
    e.lemma_sort_ensures();
    let s = e.sort();
    s.lemma_sort_ensures();
    assert(total_ordering(leq));
    lemma_sorted_unique(s, s.sort(), leq);
    assert forall|i: int, j: int| 0 <= i <= j < s.len() implies s[i] <= s[j] by {
        if i < j {
            assert(leq(s[i], s[j]));
        }
    }
}

} // verus!

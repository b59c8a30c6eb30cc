//! `%TypedArray%.prototype` methods that move or store whole elements:
//! `fill`, `at`, `reverse`, `copyWithin` and `subarray`.
//!
//! An element is handled as its bytes. `reverse` and `copyWithin` read the
//! elements they move as Numbers and store them back, which keeps the
//! bytes of most elements and changes some (see `typed_array_move`).
use crate::error::ErrorKind;
use crate::typed_array::{element_size_for_kind, spec_element_size, JSArrayBuffer, JSTypedArray, TypedArrayKind};
use crate::byte_codec::{bytes_value, encode, lemma_pow256_values, read_uint, write_uint};
use crate::typed_array_move::{
    copied_through_number, lemma_exact_kind_reversed, reversed_through_number, round_trip_number, through_number,
};
use crate::typed_array_ops::{spec_current_length, spec_out_of_bounds, IndexArg};
use vstd::prelude::*;

verus! {

/// The kinds whose elements survive a round trip through a Number.
pub open spec fn spec_exact_kind(kind: TypedArrayKind) -> bool {
    match kind {
        TypedArrayKind::Int8 | TypedArrayKind::Uint8 | TypedArrayKind::Uint8Clamped
        | TypedArrayKind::Int16 | TypedArrayKind::Uint16 | TypedArrayKind::Int32
        | TypedArrayKind::Uint32 => true,
        _ => false,
    }
}

/// The bytes of element `i` of an array starting at byte `bo` with
/// elements of `es` bytes.
pub open spec fn elem(data: Seq<u8>, bo: int, es: int, i: int) -> Seq<u8> {
    data.subrange(bo + i * es, bo + i * es + es)
}

/// The first `n` elements.
pub open spec fn elems(data: Seq<u8>, bo: int, es: int, n: int) -> Seq<Seq<u8>> {
    Seq::new(n as nat, |i: int| elem(data, bo, es, i))
}

/// `b` equals `a` outside the bytes `lo..hi`.
pub open spec fn same_outside(a: Seq<u8>, b: Seq<u8>, lo: int, hi: int) -> bool {
    &&& a.len() == b.len()
    &&& forall|k: int| 0 <= k < a.len() && !(lo <= k < hi) ==> a[k] == b[k]
}

/// `data` with the bytes at `p..p + x.len()` replaced by `x`.
pub open spec fn overwrite(data: Seq<u8>, p: int, x: Seq<u8>) -> Seq<u8> {
    data.subrange(0, p) + x + data.subrange(p + x.len(), data.len() as int)
}

pub(crate) proof fn lemma_elem_bounds(bo: int, es: int, n: int, i: int)
    requires
        0 < es,
        0 <= i < n,
    ensures
        bo <= bo + i * es,
        bo + i * es + es <= bo + n * es,
{
    assert(0 <= i * es) by (nonlinear_arith)
        requires
            0 <= i,
            0 < es,
    ;
    assert(i * es + es <= n * es) by (nonlinear_arith)
        requires
            i + 1 <= n,
            0 < es,
    ;
}

proof fn lemma_elems_disjoint(bo: int, es: int, i: int, j: int)
    requires
        0 < es,
        0 <= i,
        0 <= j,
        i != j,
    ensures
        bo + i * es + es <= bo + j * es || bo + j * es + es <= bo + i * es,
{
    if i < j {
        assert(i * es + es <= j * es) by (nonlinear_arith)
            requires
                i + 1 <= j,
                0 < es,
        ;
    } else {
        assert(j * es + es <= i * es) by (nonlinear_arith)
            requires
                j + 1 <= i,
                0 < es,
        ;
    }
}

/// Overwriting element `t` changes that element only.
pub(crate) proof fn lemma_write_elem(data: Seq<u8>, bo: int, es: int, n: int, t: int, x: Seq<u8>)
    requires
        0 < es,
        0 <= bo,
        0 <= t < n,
        bo + n * es <= data.len(),
        x.len() == es,
    ensures
        overwrite(data, bo + t * es, x).len() == data.len(),
        forall|j: int|
            0 <= j < n ==> #[trigger] elem(overwrite(data, bo + t * es, x), bo, es, j) == if j == t {
                x
            } else {
                elem(data, bo, es, j)
            },
        same_outside(data, overwrite(data, bo + t * es, x), bo + t * es, bo + t * es + es),
{
    let p = bo + t * es;
    let d2 = overwrite(data, p, x);
    lemma_elem_bounds(bo, es, n, t);
    assert(d2.len() == data.len());
    assert forall|k: int| 0 <= k < data.len() && !(p <= k < p + es) implies data[k] == d2[k] by {
        if k < p {
            assert(d2[k] == data.subrange(0, p)[k]);
        } else {
            assert(d2[k] == data.subrange(p + es, data.len() as int)[k - p - es]);
        }
    }
    assert forall|j: int| 0 <= j < n implies #[trigger] elem(d2, bo, es, j) == if j == t {
        x
    } else {
        elem(data, bo, es, j)
    } by {
        lemma_elem_bounds(bo, es, n, j);
        if j == t {
            assert forall|k: int| 0 <= k < es implies elem(d2, bo, es, j)[k] == x[k] by {
                assert(d2[p + k] == x[k]);
            }
            assert(elem(d2, bo, es, j) =~= x);
        } else {
            lemma_elems_disjoint(bo, es, j, t);
            let q = bo + j * es;
            assert forall|k: int| 0 <= k < es implies elem(d2, bo, es, j)[k] == elem(data, bo, es, j)[k] by {
                assert(!(p <= q + k < p + es));
                assert(d2[q + k] == data[q + k]);
            }
            assert(elem(d2, bo, es, j) =~= elem(data, bo, es, j));
        }
    }
}

/// Writes `x` over the bytes at `p`.
fn write_bytes(data: &mut Vec<u8>, p: usize, x: &Vec<u8>)
    requires
        p + x@.len() <= old(data)@.len(),
    ensures
        final(data)@ == overwrite(old(data)@, p as int, x@),
{
    let dlen = data.len();
    let mut k: usize = 0;
    while k < x.len()
        invariant
            k <= x@.len(),
            dlen == data@.len(),
            p + x@.len() <= data@.len(),
            data@.len() == old(data)@.len(),
            forall|m: int| 0 <= m < k ==> data@[p + m] == x@[m],
            forall|m: int| 0 <= m < data@.len() && !(p <= m < p + k) ==> data@[m] == old(data)@[m],
        decreases x@.len() - k,
    {
        data.set(p + k, x[k]);
        k = k + 1;
    }
    assert(data@ =~= overwrite(old(data)@, p as int, x@));
}

pub(crate) fn read_bytes(data: &Vec<u8>, p: usize, n: usize) -> (r: Vec<u8>)
    requires
        p + n <= data@.len(),
    ensures
        r@ == data@.subrange(p as int, p + n),
{
    let dlen = data.len();
    let mut out: Vec<u8> = Vec::new();
    let mut k: usize = 0;
    while k < n
        invariant
            k <= n,
            dlen == data@.len(),
            p + n <= data@.len(),
            out@ == data@.subrange(p as int, p + k),
        decreases n - k,
    {
        out.push(data[p + k]);
        k = k + 1;
        assert(out@ =~= data@.subrange(p as int, p + k));
    }
    out
}

/// What a `%TypedArray%.prototype` method here was given: relative indices
/// as ToIntegerOrInfinity reads them (`None` when absent), and for `fill`
/// the element's bit pattern or the error its conversion threw.
#[derive(Clone, Copy, Debug)]
pub enum TypedArrayMethod {
    Fill { value: Result<u64, ErrorKind>, start: Option<IndexArg>, end: Option<IndexArg> },
    At(IndexArg),
    Reverse,
    CopyWithin { target: Option<IndexArg>, start: Option<IndexArg>, end: Option<IndexArg> },
    Subarray { begin: Option<IndexArg>, end: Option<IndexArg> },
}

/// What such a method answers.
#[derive(Clone, Copy, Debug)]
pub enum TypedArrayMethodResult {
    /// The array itself.
    This,
    /// An element's bit pattern, or `None` for `undefined`.
    Element(Option<u64>),
    /// The view `subarray` makes over the same buffer; `length_given` says
    /// whether a species constructor receives the length argument.
    Subarray { view: JSTypedArray, length_given: bool },
}

/// A relative index after ToIntegerOrInfinity, or `default` when absent
/// or undefined.
pub open spec fn spec_relative_arg(a: Option<IndexArg>, default: i64) -> Result<i64, ErrorKind> {
    match a {
        None | Some(IndexArg::Undefined) => Ok(default),
        Some(IndexArg::BigInt) | Some(IndexArg::Symbol) => Err(ErrorKind::TypeError),
        Some(IndexArg::Integral(n)) => Ok(n),
    }
}

pub(crate) fn relative_arg(a: Option<IndexArg>, default: i64) -> (r: Result<i64, ErrorKind>)
    ensures
        r == spec_relative_arg(a, default),
{
    match a {
        None | Some(IndexArg::Undefined) => Ok(default),
        Some(IndexArg::BigInt) | Some(IndexArg::Symbol) => Err(ErrorKind::TypeError),
        Some(IndexArg::Integral(n)) => Ok(n),
    }
}

/// A relative index resolved against `len`: negative counts from the end;
/// the result lies in `0..=len`.
pub open spec fn spec_resolve(rel: i64, len: int) -> int {
    if rel < 0 {
        if len + rel < 0 {
            0
        } else {
            len + rel
        }
    } else if rel > len {
        len
    } else {
        rel as int
    }
}

fn resolve(rel: i64, len: usize) -> (r: usize)
    requires
        len <= i64::MAX,
    ensures
        r == spec_resolve(rel, len as int),
{
    let l = len as i64;
    if rel < 0 {
        if rel < -l {
            0
        } else {
            (l + rel) as usize
        }
    } else if rel > l {
        len
    } else {
        rel as usize
    }
}

/// Elements `start..end` of `old` set to `x`.
pub open spec fn filled(old: Seq<Seq<u8>>, start: int, end: int, x: Seq<u8>) -> Seq<Seq<u8>> {
    Seq::new(old.len(), |i: int| if start <= i < end { x } else { old[i] })
}

/// The count `copyWithin` copies.
pub open spec fn spec_copy_count(len: int, target: int, start: int, end: int) -> int {
    let a = if end > start {
        end - start
    } else {
        0
    };
    let b = len - target;
    if a < b {
        a
    } else {
        b
    }
}

/// The array is usable: its buffer is not detached and it lies inside it.
pub open spec fn spec_array_usable(ta: JSTypedArray, buf: JSArrayBuffer) -> bool {
    !buf.detached && !spec_out_of_bounds(ta, buf.data@.len())
}

impl JSTypedArray {
    /// Stores `bits` in elements `start..end`.
    fn fill_range(&self, buffer: &mut JSArrayBuffer, start: usize, end: usize, bits: u64)
        requires
            self.wf(),
            start <= end <= spec_current_length(*self, old(buffer).data@.len()),
            spec_array_usable(*self, *old(buffer)),
        ensures
            ({
                let es = spec_element_size(self.kind) as int;
                let n = spec_current_length(*self, old(buffer).data@.len()) as int;
                let bo = self.byte_offset as int;
                &&& elems(final(buffer).data@, bo, es, n) == filled(
                    elems(old(buffer).data@, bo, es, n),
                    start as int,
                    end as int,
                    encode(bits as nat, es as nat, true),
                )
                &&& same_outside(old(buffer).data@, final(buffer).data@, bo, bo + n * es)
            }),
            final(buffer).max_byte_length == old(buffer).max_byte_length,
            final(buffer).shared == old(buffer).shared,
            final(buffer).detached == old(buffer).detached,
    {
        proof {
            lemma_pow256_values();
        }
        let es = self.element_size();
        let ghost n = spec_current_length(*self, old(buffer).data@.len()) as int;
        let ghost bo = self.byte_offset as int;
        let ghost x = encode(bits as nat, es as nat, true);
        proof {
            lemma_current_extent(*self, old(buffer).data@.len());
        }
        let blen = buffer.data.len();
        let mut i = start;
        while i < end
            invariant
                start <= i <= end,
                end <= n,
                blen == buffer.data@.len(),
                0 <= bo,
                es == spec_element_size(self.kind),
                1 <= es <= 8,
                bo + n * es <= buffer.data@.len(),
                buffer.data@.len() == old(buffer).data@.len(),
                bo == self.byte_offset,
                x == encode(bits as nat, es as nat, true),
                elems(buffer.data@, bo, es as int, n) == filled(
                    elems(old(buffer).data@, bo, es as int, n),
                    start as int,
                    i as int,
                    x,
                ),
                same_outside(old(buffer).data@, buffer.data@, bo, bo + n * es),
                buffer.max_byte_length == old(buffer).max_byte_length,
                buffer.shared == old(buffer).shared,
                buffer.detached == old(buffer).detached,
            decreases end - i,
        {
            proof {
                lemma_elem_bounds(bo, es as int, n, i as int);
            }
            let p = self.byte_offset + i * es;
            let ghost before = buffer.data@;
            write_uint(&mut buffer.data, p, es, bits, true);
            proof {
                assert(buffer.data@ == overwrite(before, p as int, x));
                lemma_write_elem(before, bo, es as int, n, i as int, x);
                let old_e = elems(old(buffer).data@, bo, es as int, n);
                assert forall|j: int| 0 <= j < n implies elems(buffer.data@, bo, es as int, n)[j]
                    == filled(old_e, start as int, i + 1, x)[j] by {
                    assert(elem(buffer.data@, bo, es as int, j) == if j == i {
                        x
                    } else {
                        elem(before, bo, es as int, j)
                    });
                    assert(elems(before, bo, es as int, n)[j] == filled(old_e, start as int, i as int, x)[j]);
                }
                assert(elems(buffer.data@, bo, es as int, n) =~= filled(
                    elems(old(buffer).data@, bo, es as int, n),
                    start as int,
                    i + 1,
                    x,
                ));
            }
            i = i + 1;
        }
    }
}

impl JSTypedArray {
    /// Reverses the order of the first `n` elements, each element that
    /// changes place read as a Number and stored back.
    #[verifier::spinoff_prover]
    #[verifier::rlimit(40)]
    fn reverse_elements(&self, buffer: &mut JSArrayBuffer, n: usize)
        requires
            n == spec_current_length(*self, old(buffer).data@.len()),
            spec_array_usable(*self, *old(buffer)),
        ensures
            ({
                let es = spec_element_size(self.kind) as int;
                let bo = self.byte_offset as int;
                &&& reversed_through_number(
                    self.kind,
                    elems(old(buffer).data@, bo, es, n as int),
                    elems(final(buffer).data@, bo, es, n as int),
                )
                &&& same_outside(old(buffer).data@, final(buffer).data@, bo, bo + n * es)
            }),
            final(buffer).max_byte_length == old(buffer).max_byte_length,
            final(buffer).shared == old(buffer).shared,
            final(buffer).detached == old(buffer).detached,
    {
        let es = self.element_size();
        let ghost bo = self.byte_offset as int;
        let ghost old_e = elems(old(buffer).data@, bo, es as int, n as int);
        proof {
            lemma_current_extent(*self, old(buffer).data@.len());
        }
        let blen = buffer.data.len();
        let mut i: usize = 0;
        while i + 1 < n - i
            invariant
                n == spec_current_length(*self, old(buffer).data@.len()),
                es == spec_element_size(self.kind),
                1 <= es <= 8,
                0 <= bo,
                bo == self.byte_offset,
                bo + n * es <= buffer.data@.len(),
                blen == buffer.data@.len(),
                buffer.data@.len() == old(buffer).data@.len(),
                i <= n - i,
                old_e == elems(old(buffer).data@, bo, es as int, n as int),
                forall|k: int|
                    #![trigger elems(buffer.data@, bo, es as int, n as int)[k]]
                    0 <= k < n ==> if k < i || k >= n - i {
                        through_number(self.kind, old_e[n - 1 - k], elems(buffer.data@, bo, es as int, n as int)[k])
                    } else {
                        elems(buffer.data@, bo, es as int, n as int)[k] == old_e[k]
                    },
                same_outside(old(buffer).data@, buffer.data@, bo, bo + n * es),
                buffer.max_byte_length == old(buffer).max_byte_length,
                buffer.shared == old(buffer).shared,
                buffer.detached == old(buffer).detached,
            decreases n - 2 * i,
        {
            let j = n - 1 - i;
            proof {
                lemma_elem_bounds(bo, es as int, n as int, i as int);
                lemma_elem_bounds(bo, es as int, n as int, j as int);
            }
            let pi = self.byte_offset + i * es;
            let pj = self.byte_offset + j * es;
            let ghost d0 = buffer.data@;
            let a = read_bytes(&buffer.data, pi, es);
            let b = read_bytes(&buffer.data, pj, es);
            proof {
                assert(a@ == elem(d0, bo, es as int, i as int));
                assert(b@ == elem(d0, bo, es as int, j as int));
                assert(elems(d0, bo, es as int, n as int)[i as int] == old_e[i as int]);
                assert(elems(d0, bo, es as int, n as int)[j as int] == old_e[j as int]);
            }
            let a2 = round_trip_number(self.kind, &a);
            let b2 = round_trip_number(self.kind, &b);
            write_bytes(&mut buffer.data, pi, &b2);
            let ghost d1 = buffer.data@;
            write_bytes(&mut buffer.data, pj, &a2);
            proof {
                lemma_write_elem(d0, bo, es as int, n as int, i as int, b2@);
                lemma_write_elem(d1, bo, es as int, n as int, j as int, a2@);
                assert forall|k: int| 0 <= k < n implies (if k < i + 1 || k >= n - (i + 1) {
                    through_number(self.kind, old_e[n - 1 - k], #[trigger] elems(buffer.data@, bo, es as int, n as int)[k])
                } else {
                    elems(buffer.data@, bo, es as int, n as int)[k] == old_e[k]
                }) by {
                    assert(elem(d1, bo, es as int, k) == if k == i {
                        b2@
                    } else {
                        elem(d0, bo, es as int, k)
                    });
                    assert(elem(buffer.data@, bo, es as int, k) == if k == j {
                        a2@
                    } else {
                        elem(d1, bo, es as int, k)
                    });
                    assert(elems(buffer.data@, bo, es as int, n as int)[k] == elem(buffer.data@, bo, es as int, k));
                    assert(elems(d0, bo, es as int, n as int)[k] == elem(d0, bo, es as int, k));
                }
            }
            i = i + 1;
        }
        proof {
            let new_e = elems(buffer.data@, bo, es as int, n as int);
            assert forall|k: int| #![trigger new_e[k]] 0 <= k < n implies (if 2 * k + 1 == n {
                new_e[k] == old_e[k]
            } else {
                through_number(self.kind, old_e[n - 1 - k], new_e[k])
            }) by {
                if 2 * k + 1 == n {
                    assert(!(k < i || k >= n - i));
                }
            }
        }
    }

    /// Copies `count` elements from `start` to `target`, as if through a
    /// temporary copy, each element read as a Number and stored back.
    fn copy_elements(&self, buffer: &mut JSArrayBuffer, n: usize, target: usize, start: usize, count: usize)
        requires
            n == spec_current_length(*self, old(buffer).data@.len()),
            spec_array_usable(*self, *old(buffer)),
            target + count <= n,
            start + count <= n,
        ensures
            ({
                let es = spec_element_size(self.kind) as int;
                let bo = self.byte_offset as int;
                &&& copied_through_number(
                    self.kind,
                    elems(old(buffer).data@, bo, es, n as int),
                    target as int,
                    start as int,
                    count as int,
                    elems(final(buffer).data@, bo, es, n as int),
                )
                &&& same_outside(old(buffer).data@, final(buffer).data@, bo, bo + n * es)
            }),
            final(buffer).max_byte_length == old(buffer).max_byte_length,
            final(buffer).shared == old(buffer).shared,
            final(buffer).detached == old(buffer).detached,
    {
        let es = self.element_size();
        let ghost bo = self.byte_offset as int;
        let ghost old_e = elems(old(buffer).data@, bo, es as int, n as int);
        proof {
            lemma_current_extent(*self, old(buffer).data@.len());
            if count > 0 {
                lemma_elem_bounds(bo, es as int, n as int, (start + count - 1) as int);
                assert((start + count - 1) * es + es == (start + count) * es) by (nonlinear_arith);
            }
            assert(start * es <= (start + count) * es) by (nonlinear_arith)
                requires
                    0 < es,
            ;
            assert((start + count) * es <= n * es) by (nonlinear_arith)
                requires
                    0 < es,
                    start + count <= n,
            ;
            assert(count * es <= (start + count) * es) by (nonlinear_arith)
                requires
                    0 < es,
            ;
            assert(start * es + count * es == (start + count) * es) by (nonlinear_arith);
        }
        let blen = buffer.data.len();
        let from = self.byte_offset + start * es;
        let snapshot = read_bytes(&buffer.data, from, count * es);
        let mut m: usize = 0;
        while m < count
            invariant
                n == spec_current_length(*self, old(buffer).data@.len()),
                es == spec_element_size(self.kind),
                1 <= es <= 8,
                0 <= bo,
                bo == self.byte_offset,
                bo + n * es <= buffer.data@.len(),
                blen == buffer.data@.len(),
                buffer.data@.len() == old(buffer).data@.len(),
                target + count <= n,
                start + count <= n,
                m <= count,
                from == bo + start * es,
                snapshot@ == old(buffer).data@.subrange(from as int, from + count * es),
                old_e == elems(old(buffer).data@, bo, es as int, n as int),
                copied_through_number(
                    self.kind,
                    old_e,
                    target as int,
                    start as int,
                    m as int,
                    elems(buffer.data@, bo, es as int, n as int),
                ),
                same_outside(old(buffer).data@, buffer.data@, bo, bo + n * es),
                buffer.max_byte_length == old(buffer).max_byte_length,
                buffer.shared == old(buffer).shared,
                buffer.detached == old(buffer).detached,
            decreases count - m,
        {
            proof {
                lemma_elem_bounds(bo, es as int, n as int, (target + m) as int);
                lemma_elem_bounds(0, es as int, count as int, m as int);
                lemma_elem_bounds(bo, es as int, n as int, (start + m) as int);
                assert((start + m) * es == start * es + m * es) by (nonlinear_arith);
            }
            let x = read_bytes(&snapshot, m * es, es);
            proof {
                assert(x@ =~= old_e[start + m]) by {
                    assert forall|k: int| 0 <= k < es implies x@[k] == old_e[start + m][k] by {
                        assert(x@[k] == snapshot@[m * es + k]);
                        assert(snapshot@[m * es + k] == old(buffer).data@[from + m * es + k]);
                    }
                }
            }
            let y = round_trip_number(self.kind, &x);
            let p = self.byte_offset + (target + m) * es;
            let ghost before = buffer.data@;
            write_bytes(&mut buffer.data, p, &y);
            proof {
                lemma_write_elem(before, bo, es as int, n as int, (target + m) as int, y@);
                assert forall|k: int| 0 <= k < n implies (if target <= k < target + m + 1 {
                    through_number(self.kind, old_e[start + k - target], #[trigger] elems(buffer.data@, bo, es as int, n as int)[k])
                } else {
                    elems(buffer.data@, bo, es as int, n as int)[k] == old_e[k]
                }) by {
                    assert(elem(buffer.data@, bo, es as int, k) == if k == target + m {
                        y@
                    } else {
                        elem(before, bo, es as int, k)
                    });
                    assert(elems(buffer.data@, bo, es as int, n as int)[k] == elem(buffer.data@, bo, es as int, k));
                    assert(elems(before, bo, es as int, n as int)[k] == elem(before, bo, es as int, k));
                }
            }
            m = m + 1;
        }
    }
}

/// The bytes an array spans are inside the buffer when it is in bounds.
proof fn lemma_current_extent(ta: JSTypedArray, buf_len: nat)
    requires
        !spec_out_of_bounds(ta, buf_len),
    ensures
        ta.byte_offset + spec_current_length(ta, buf_len) * spec_element_size(ta.kind) <= buf_len,
{
    let es = spec_element_size(ta.kind) as int;
    if ta.length_tracking && buf_len > ta.byte_offset {
        let r = (buf_len - ta.byte_offset) as int;
        vstd::arithmetic::div_mod::lemma_fundamental_div_mod(r, es);
        vstd::arithmetic::div_mod::lemma_mod_bound(r, es);
        assert((r / es) * es <= r) by (nonlinear_arith)
            requires
                r == es * (r / es) + r % es,
                0 <= r % es,
        ;
    }
}


/// The end argument of `subarray`: the length when absent or undefined.
pub open spec fn spec_end_arg(a: Option<IndexArg>, len: int) -> Result<i64, ErrorKind> {
    match a {
        None | Some(IndexArg::Undefined) => Ok(len as i64),
        _ => spec_relative_arg(a, len as i64),
    }
}

/// The element `at(index)` reads, or `None` for `undefined`.
pub open spec fn spec_at(data: Seq<u8>, bo: int, es: int, n: int, rel: i64) -> Option<u64> {
    let actual = if rel < 0 {
        n + rel
    } else {
        rel as int
    };
    if actual < 0 || actual >= n {
        None
    } else {
        Some(bytes_value(elem(data, bo, es, actual), true) as u64)
    }
}

/// `at` counts a non-negative index from the start and a negative one from
/// the end: for `0 <= k < n`, `at(k)` reads the bytes of element `k` and
/// `at(-k - 1)` those of element `n - 1 - k`; `at(n)` and `at(-n - 1)`
/// read nothing.
pub proof fn law_at_counts_from_both_ends(data: Seq<u8>, bo: int, es: int, n: int, k: int)
    requires
        0 <= k < n,
        n <= i64::MAX,
    ensures
        spec_at(data, bo, es, n, k as i64) == Some(
            bytes_value(data.subrange(bo + k * es, bo + k * es + es), true) as u64,
        ),
        spec_at(data, bo, es, n, (-k - 1) as i64) == Some(
            bytes_value(data.subrange(bo + (n - 1 - k) * es, bo + (n - 1 - k) * es + es), true) as u64,
        ),
        spec_at(data, bo, es, n, n as i64) is None,
        spec_at(data, bo, es, n, (-n - 1) as i64) is None,
{
}

/// `at` reads nothing outside the array: an index of `n` or more, or below
/// `-n`, gives `undefined`.
pub proof fn law_at_outside_is_undefined(data: Seq<u8>, bo: int, es: int, n: int, rel: i64)
    requires
        0 <= n,
        rel >= n || rel < -n,
    ensures
        spec_at(data, bo, es, n, rel) is None,
{
}

/// How `fill`, `copyWithin` and `subarray` read a relative index on an
/// array of `n` elements: `0 <= k <= n` is taken as it is, `-k` counts `k`
/// back from the end, and anything further out is clamped to `0` or `n`.
pub proof fn law_relative_index(n: int, k: i64)
    requires
        0 <= n,
    ensures
        0 <= k <= n ==> spec_resolve(k, n) == k,
        0 < k <= n ==> spec_resolve((-k) as i64, n) == n - k,
        k > n ==> spec_resolve(k, n) == n,
        k < -n ==> spec_resolve(k, n) == 0,
        0 <= spec_resolve(k, n) <= n,
{
}

/// `fill(x, a, b)` sets exactly the elements `a..b` (not `b`) to `x` and
/// keeps every other element.
pub proof fn law_fill_sets_the_range(old: Seq<Seq<u8>>, a: int, b: int, x: Seq<u8>, i: int)
    requires
        0 <= i < old.len(),
    ensures
        filled(old, a, b, x).len() == old.len(),
        a <= i < b ==> filled(old, a, b, x)[i] == x,
        (i < a || b <= i) ==> filled(old, a, b, x)[i] == old[i],
{
}

/// `copyWithin(to, from, end)` copies `end - from` elements, or fewer when
/// they would run past the end of the array: never out of the array on
/// either side, and no more than asked.
pub proof fn law_copy_count(n: int, to: int, from: int, end: int)
    requires
        0 <= to <= n,
        0 <= from <= end <= n,
    ensures
        spec_copy_count(n, to, from, end) == (if end - from <= n - to {
            end - from
        } else {
            n - to
        }),
        to + spec_copy_count(n, to, from, end) <= n,
        from + spec_copy_count(n, to, from, end) <= n,
        spec_copy_count(n, to, from, end) >= 0,
{
}

/// For the integer kinds of at most 32 bits, `copyWithin` moves elements
/// exactly: element `to + j` becomes old element `from + j` for each
/// `j < count`, and every other element is kept.
pub proof fn law_copy_within_exact(
    kind: TypedArrayKind,
    old: Seq<Seq<u8>>,
    to: int,
    from: int,
    count: int,
    new: Seq<Seq<u8>>,
    i: int,
)
    requires
        spec_exact_kind(kind),
        copied_through_number(kind, old, to, from, count, new),
        0 <= i < old.len(),
    ensures
        new.len() == old.len(),
        to <= i < to + count ==> new[i] == old[from + i - to],
        (i < to || to + count <= i) ==> new[i] == old[i],
{
    if to <= i < to + count {
        assert(new[i] == new[i]);
        crate::typed_array_move::lemma_exact_kind_unchanged(kind, old[from + i - to], new[i]);
    } else {
        assert(new[i] == new[i]);
    }
}

/// `fill`, `at`, `reverse`, `copyWithin` and `subarray` of
/// `%TypedArray%.prototype`; `receiver` is `None` when `this` is not a
/// TypedArray, else the array and its buffer. `reverse` and `copyWithin`
/// read each element they move as a Number and store it back (see
/// `through_number`).
pub fn handle_typedarray_method(receiver: Option<(&JSTypedArray, &mut JSArrayBuffer)>, method: TypedArrayMethod) -> (r:
    Result<TypedArrayMethodResult, ErrorKind>)
    requires
        match receiver {
            None => true,
            Some((ta, buf)) => ta.wf() && buf.data@.len() <= i64::MAX,
        },
    ensures
        match receiver {
            None => r is Err && r->Err_0 == ErrorKind::TypeError,
            Some((ta, buf)) => {
                let old_data = buf.data@;
                let new_data = final(buf).data@;
                let n = spec_current_length(*ta, old_data.len()) as int;
                let es = spec_element_size(ta.kind) as int;
                let bo = ta.byte_offset as int;
                let unchanged = new_data == old_data;
                &&& final(buf).max_byte_length == buf.max_byte_length
                &&& final(buf).shared == buf.shared
                &&& final(buf).detached == buf.detached
                &&& same_outside(old_data, new_data, bo, bo + n * es)
                &&& match method {
                    TypedArrayMethod::Subarray { begin, end } => unchanged && match spec_relative_arg(begin, 0) {
                        Err(e) => r is Err && r->Err_0 == e,
                        Ok(b) => match spec_end_arg(end, n) {
                            Err(e) => r is Err && r->Err_0 == e,
                            Ok(e) => {
                                let first = spec_resolve(b, n);
                                let last = spec_resolve(e, n);
                                r matches Ok(TypedArrayMethodResult::Subarray { view, length_given })
                                    && view.kind == ta.kind && view.byte_offset == bo + first * es
                                    && view.length == (if last > first {
                                    last - first
                                } else {
                                    0
                                }) && !view.length_tracking && length_given == !(ta.length_tracking
                                    && (end is None || end == Some(IndexArg::Undefined)))
                            },
                        },
                    },
                    _ => if !spec_array_usable(*ta, *buf) {
                        r is Err && r->Err_0 == ErrorKind::TypeError && unchanged
                    } else {
                        match method {
                            TypedArrayMethod::Fill { value, start, end } => match spec_relative_arg(start, 0) {
                                Err(e) => r is Err && r->Err_0 == e && unchanged,
                                Ok(s) => match spec_relative_arg(end, n as i64) {
                                    Err(e) => r is Err && r->Err_0 == e && unchanged,
                                    Ok(e) => match value {
                                        Err(err) => r is Err && r->Err_0 == err && unchanged,
                                        Ok(bits) => r matches Ok(TypedArrayMethodResult::This) && elems(
                                            new_data,
                                            bo,
                                            es,
                                            n,
                                        ) == filled(
                                            elems(old_data, bo, es, n),
                                            spec_resolve(s, n),
                                            spec_resolve(e, n),
                                            encode(bits as nat, es as nat, true),
                                        ),
                                    },
                                },
                            },
                            TypedArrayMethod::At(a) => unchanged && match spec_relative_arg(Some(a), 0) {
                                Err(e) => r is Err && r->Err_0 == e,
                                Ok(rel) => r matches Ok(TypedArrayMethodResult::Element(v)) && v
                                    == spec_at(old_data, bo, es, n, rel),
                            },
                            TypedArrayMethod::Reverse => r matches Ok(TypedArrayMethodResult::This)
                                && reversed_through_number(ta.kind, elems(old_data, bo, es, n), elems(new_data, bo, es, n)),
                            TypedArrayMethod::CopyWithin { target, start, end } => match spec_relative_arg(target, 0) {
                                Err(e) => r is Err && r->Err_0 == e && unchanged,
                                Ok(t) => match spec_relative_arg(start, 0) {
                                    Err(e) => r is Err && r->Err_0 == e && unchanged,
                                    Ok(s) => match spec_relative_arg(end, n as i64) {
                                        Err(e) => r is Err && r->Err_0 == e && unchanged,
                                        Ok(e) => {
                                            let to = spec_resolve(t, n);
                                            let from = spec_resolve(s, n);
                                            let count = spec_copy_count(n, to, from, spec_resolve(e, n));
                                            r matches Ok(TypedArrayMethodResult::This) && copied_through_number(
                                                ta.kind,
                                                elems(old_data, bo, es, n),
                                                to,
                                                from,
                                                count,
                                                elems(new_data, bo, es, n),
                                            )
                                        },
                                    },
                                },
                            },
                            TypedArrayMethod::Subarray { .. } => true,
                        }
                    },
                }
            },
        },
{
    let (ta, buf) = match receiver {
        None => return Err(ErrorKind::TypeError),
        Some(p) => p,
    };
    let es = ta.element_size();
    let blen = buf.data.len();
    let n = current_length(ta, blen);
    proof {
        lemma_pow256_values();
        lemma_current_length_bound(*ta, blen as nat);
    }
    if let TypedArrayMethod::Subarray { begin, end } = method {
        let b = match relative_arg(begin, 0) {
            Ok(b) => b,
            Err(e) => return Err(e),
        };
        let end_undefined = match end {
            None | Some(IndexArg::Undefined) => true,
            _ => false,
        };
        let e = if end_undefined {
            n as i64
        } else {
            match relative_arg(end, n as i64) {
                Ok(e) => e,
                Err(err) => return Err(err),
            }
        };
        let first = resolve(b, n);
        let last = resolve(e, n);
        let length = if last > first {
            last - first
        } else {
            0
        };
        proof {
            assert(first * es <= n * es) by (nonlinear_arith)
                requires
                    first <= n,
                    0 < es,
            ;
        }
        return Ok(
            TypedArrayMethodResult::Subarray {
                view: JSTypedArray {
                    kind: ta.kind,
                    byte_offset: ta.byte_offset + first * es,
                    length,
                    length_tracking: false,
                },
                length_given: !(ta.length_tracking && end_undefined),
            },
        );
    }
    if buf.detached || out_of_bounds(ta, blen) {
        return Err(ErrorKind::TypeError);
    }
    proof {
        lemma_current_extent(*ta, blen as nat);
    }
    match method {
        TypedArrayMethod::Fill { value, start, end } => {
            let s = match relative_arg(start, 0) {
                Ok(s) => s,
                Err(e) => return Err(e),
            };
            let e = match relative_arg(end, n as i64) {
                Ok(e) => e,
                Err(err) => return Err(err),
            };
            let bits = match value {
                Ok(b) => b,
                Err(err) => return Err(err),
            };
            let first = resolve(s, n);
            let last = resolve(e, n);
            if first < last {
                ta.fill_range(buf, first, last, bits);
            } else {
                proof {
                    assert(elems(buf.data@, ta.byte_offset as int, es as int, n as int) =~= filled(
                        elems(buf.data@, ta.byte_offset as int, es as int, n as int),
                        first as int,
                        last as int,
                        encode(bits as nat, es as nat, true),
                    ));
                }
            }
            Ok(TypedArrayMethodResult::This)
        },
        TypedArrayMethod::At(a) => {
            let rel = match relative_arg(Some(a), 0) {
                Ok(r) => r,
                Err(e) => return Err(e),
            };
            let actual: i64 = if rel < 0 {
                n as i64 + rel
            } else {
                rel
            };
            if actual < 0 || actual as u64 >= n as u64 {
                Ok(TypedArrayMethodResult::Element(None))
            } else {
                let k = actual as usize;
                proof {
                    lemma_elem_bounds(ta.byte_offset as int, es as int, n as int, k as int);
                }
                let p = ta.byte_offset + k * es;
                let v = read_uint(&buf.data, p, es, true);
                Ok(TypedArrayMethodResult::Element(Some(v)))
            }
        },
        TypedArrayMethod::Reverse => {
            ta.reverse_elements(buf, n);
            Ok(TypedArrayMethodResult::This)
        },
        TypedArrayMethod::CopyWithin { target, start, end } => {
            let t = match relative_arg(target, 0) {
                Ok(t) => t,
                Err(e) => return Err(e),
            };
            let s = match relative_arg(start, 0) {
                Ok(s) => s,
                Err(e) => return Err(e),
            };
            let e = match relative_arg(end, n as i64) {
                Ok(e) => e,
                Err(err) => return Err(err),
            };
            let to = resolve(t, n);
            let from = resolve(s, n);
            let last = resolve(e, n);
            let a = if last > from {
                last - from
            } else {
                0
            };
            let b = n - to;
            let count = if a < b {
                a
            } else {
                b
            };
            ta.copy_elements(buf, n, to, from, count);
            Ok(TypedArrayMethodResult::This)
        },
        TypedArrayMethod::Subarray { .. } => Err(ErrorKind::TypeError),
    }
}

fn current_length(ta: &JSTypedArray, blen: usize) -> (r: usize)
    requires
        ta.wf(),
    ensures
        r == spec_current_length(*ta, blen as nat),
{
    let es = ta.element_size();
    if ta.length_tracking {
        if blen <= ta.byte_offset {
            0
        } else {
            (blen - ta.byte_offset) / es
        }
    } else {
        assert(ta.length * es <= usize::MAX) by (nonlinear_arith)
            requires
                ta.byte_offset + ta.length * es <= usize::MAX,
                ta.byte_offset >= 0,
        ;
        if ta.byte_offset + ta.length * es > blen {
            0
        } else {
            ta.length
        }
    }
}

fn out_of_bounds(ta: &JSTypedArray, blen: usize) -> (r: bool)
    requires
        ta.wf(),
    ensures
        r == spec_out_of_bounds(*ta, blen as nat),
{
    let es = ta.element_size();
    if ta.length_tracking {
        ta.byte_offset > blen
    } else {
        assert(ta.length * es <= usize::MAX) by (nonlinear_arith)
            requires
                ta.byte_offset + ta.length * es <= usize::MAX,
                ta.byte_offset >= 0,
        ;
        ta.byte_offset + ta.length * es > blen
    }
}

proof fn lemma_current_length_bound(ta: JSTypedArray, buf_len: nat)
    requires
        ta.wf(),
        buf_len <= i64::MAX,
        buf_len <= usize::MAX,
    ensures
        spec_current_length(ta, buf_len) <= i64::MAX,
        ta.byte_offset + spec_current_length(ta, buf_len) * spec_element_size(ta.kind) <= usize::MAX,
{
    let es = spec_element_size(ta.kind) as int;
    let n = spec_current_length(ta, buf_len) as int;
    if ta.length_tracking && buf_len > ta.byte_offset {
        let r = (buf_len - ta.byte_offset) as int;
        vstd::arithmetic::div_mod::lemma_fundamental_div_mod(r, es);
        vstd::arithmetic::div_mod::lemma_mod_bound(r, es);
        assert((r / es) * es <= r) by (nonlinear_arith)
            requires
                r == es * (r / es) + r % es,
                0 <= r % es,
        ;
        assert(r / es <= r) by (nonlinear_arith)
            requires
                r >= 0,
                es >= 1,
        ;
        assert(ta.byte_offset + (r / es) * es <= buf_len);
    } else if !ta.length_tracking && !(ta.byte_offset + ta.length * es > buf_len) {
        assert(ta.length <= ta.length * es) by (nonlinear_arith)
            requires
                es >= 1,
        ;
    }
}


/// `reverse` twice restores the elements of an array of an integer kind
/// of at most 32 bits: when `e1` is what `reverse` leaves of `e0` and `e2`
/// what it leaves of `e1`, `e2` equals `e0`.
pub proof fn law_reverse_twice(kind: TypedArrayKind, e0: Seq<Seq<u8>>, e1: Seq<Seq<u8>>, e2: Seq<Seq<u8>>)
    requires
        spec_exact_kind(kind),
        reversed_through_number(kind, e0, e1),
        reversed_through_number(kind, e1, e2),
    ensures
        e2 == e0,
{
    lemma_exact_kind_reversed(kind, e0, e1);
    lemma_exact_kind_reversed(kind, e1, e2);
    assert(e0.reverse().reverse() =~= e0);
}

} // verus!

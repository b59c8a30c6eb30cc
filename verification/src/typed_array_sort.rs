//! `%TypedArray%.prototype.sort()` without a comparator on the BigInt
//! kinds. The engine reads each element as a Number (the double nearest to
//! it, ties to even), sorts the Numbers, and stores them back converted to
//! 64 bits, saturating.
use crate::atomics_int::{round_to_double_exact, signed_round_to_double};
use crate::byte_codec::{lemma_pow256_values, pow256, write_uint};
use crate::error::ErrorKind;
use crate::typed_array::{JSArrayBuffer, JSTypedArray, TypedArrayKind, spec_element_size, spec_is_bigint_kind, to_unsigned};
use crate::typed_array_methods::{elem, lemma_write_elem, overwrite, same_outside, spec_array_usable};
use crate::typed_array_move::{saturate_i64, saturate_u64};
use crate::typed_array_ops::{spec_current_length, spec_out_of_bounds};
use crate::typed_array_search::{
    element_int, int_bytes, int_elements, ints, lemma_element_inside, lemma_element_int_encode,
    lemma_element_int_range, read_elements, sort_values, validate,
};
use vstd::prelude::*;
use vstd::relations::{sorted_by, total_ordering};

verus! {

/// The value a BigInt element of `kind` takes when the whole number `d`
/// (a double's value) is stored in it.
pub open spec fn store_rounded(kind: TypedArrayKind, d: int) -> int {
    if kind is BigInt64 {
        saturate_i64(d)
    } else if d < 0 {
        0
    } else {
        saturate_u64(d as nat) as int
    }
}

/// The numbers of the elements of a BigInt array after `sort()`.
pub open spec fn spec_sorted_bigint_elements(ta: JSTypedArray, data: Seq<u8>) -> Seq<int> {
    int_elements(ta, data).map_values(|v: int| signed_round_to_double(v)).sort().map_values(
        |d: int| store_rounded(ta.kind, d),
    )
}

/// `v` as a double's value: the nearest double, ties to even.
pub(crate) fn round_wide(v: i128) -> (r: i128)
    requires
        -0x1_0000_0000_0000_0000 < v < 0x1_0000_0000_0000_0000,
    ensures
        r == signed_round_to_double(v as int),
        -0x1_0000_0000_0000_0000 <= r <= 0x1_0000_0000_0000_0000,
{
    if v < 0 {
        let m = round_to_double_exact((-v) as u64);
        -(m as i128)
    } else {
        round_to_double_exact(v as u64) as i128
    }
}

/// The elements of a BigInt array lie in the range of its kind.
pub(crate) proof fn lemma_bigint_elements_range(ta: JSTypedArray, data: Seq<u8>)
    requires
        spec_is_bigint_kind(ta.kind),
        !spec_out_of_bounds(ta, data.len()),
    ensures
        int_elements(ta, data).len() == spec_current_length(ta, data.len()),
        forall|k: int|
            0 <= k < int_elements(ta, data).len() ==> -0x8000_0000_0000_0000 <= #[trigger] int_elements(ta, data)[k]
                < 0x1_0000_0000_0000_0000,
{
    lemma_pow256_values();
    let es = spec_element_size(ta.kind);
    assert forall|k: int| 0 <= k < int_elements(ta, data).len() implies -0x8000_0000_0000_0000
        <= #[trigger] int_elements(ta, data)[k] < 0x1_0000_0000_0000_0000 by {
        let b = elem(data, ta.byte_offset as int, es as int, k);
        assert(int_elements(ta, data)[k] == element_int(ta.kind, b));
        lemma_element_inside(ta, data.len(), k as nat);
        assert(b.len() == es);
        lemma_element_int_range(ta.kind, b);
    }
}

/// `%TypedArray%.prototype.sort()` without a comparator on a BigInt kind:
/// a TypeError for a detached or out-of-bounds array, else its elements
/// become those of `spec_sorted_bigint_elements`.
pub fn typedarray_sort_bigint(ta: &JSTypedArray, buffer: &mut JSArrayBuffer) -> (r: Result<(), ErrorKind>)
    requires
        ta.wf(),
        spec_is_bigint_kind(ta.kind),
    ensures
        !spec_array_usable(*ta, *old(buffer)) ==> r == Err::<(), ErrorKind>(ErrorKind::TypeError)
            && *final(buffer) == *old(buffer),
        spec_array_usable(*ta, *old(buffer)) ==> {
            let n = spec_current_length(*ta, old(buffer).data@.len()) as int;
            &&& r is Ok
            &&& int_elements(*ta, final(buffer).data@) == spec_sorted_bigint_elements(*ta, old(buffer).data@)
            &&& same_outside(old(buffer).data@, final(buffer).data@, ta.byte_offset as int, ta.byte_offset + n * 8)
        },
        final(buffer).max_byte_length == old(buffer).max_byte_length,
        final(buffer).shared == old(buffer).shared,
        final(buffer).detached == old(buffer).detached,
{
    proof {
        lemma_pow256_values();
    }
    let n = match validate(ta, buffer) {
        Ok(n) => n,
        Err(e) => return Err(e),
    };
    let ghost old_data = buffer.data@;
    let ghost orig = int_elements(*ta, old_data);
    let ghost rounded = orig.map_values(|v: int| signed_round_to_double(v));
    let mut vals = read_elements(ta, &buffer.data, n);
    proof {
        lemma_bigint_elements_range(*ta, old_data);
        assert(ints(vals@).len() == vals@.len());
        assert forall|k: int| 0 <= k < n implies vals@[k] as int == orig[k] && -0x1_0000_0000_0000_0000
            <= #[trigger] vals@[k] <= 0x1_0000_0000_0000_0000 by {
            assert(ints(vals@)[k] == vals@[k] as int);
        }
    }
    let mut j: usize = 0;
    while j < n
        invariant
            vals@.len() == n,
            n == orig.len(),
            rounded == orig.map_values(|v: int| signed_round_to_double(v)),
            forall|k: int| 0 <= k < n ==> -0x8000_0000_0000_0000 <= #[trigger] orig[k] < 0x1_0000_0000_0000_0000,
            j <= n,
            forall|k: int| 0 <= k < j ==> #[trigger] vals@[k] as int == rounded[k],
            forall|k: int| j <= k < n ==> #[trigger] vals@[k] as int == orig[k],
            forall|k: int| 0 <= k < n ==> -0x1_0000_0000_0000_0000 <= #[trigger] vals@[k] <= 0x1_0000_0000_0000_0000,
        decreases n - j,
    {
        let v = vals[j];
        let d = round_wide(v);
        vals.set(j, d);
        j = j + 1;
    }
    proof {
        assert(ints(vals@) =~= rounded);
    }
    let ghost unsorted = vals@;
    sort_values(&mut vals);
    let es = ta.element_size();
    let ghost bo = ta.byte_offset as int;
    let dlen = buffer.data.len();
    proof {
        if n > 0 {
            lemma_element_inside(*ta, dlen as nat, (n - 1) as nat);
        }
        assert(bo + n * es <= dlen) by (nonlinear_arith)
            requires
                n > 0 ==> bo + (n - 1) * es + es <= dlen,
                bo <= dlen,
                bo >= 0,
                es > 0,
        ;
        // every sorted value is one of the rounded values, so it lies
        // within 2^64 of zero
        assert forall|k: int| 0 <= k < n implies -0x1_0000_0000_0000_0000 <= #[trigger] vals@[k]
            <= 0x1_0000_0000_0000_0000 by {
            broadcast use vstd::seq_lib::to_multiset_contains;

            let x = vals@[k] as int;
            assert(ints(vals@)[k] == x);
            assert(ints(vals@).contains(x));
            assert(ints(vals@).to_multiset().count(x) > 0);
            assert(ints(unsorted).to_multiset().count(x) > 0);
            assert(ints(unsorted).contains(x));
            let w = choose|w: int| 0 <= w < ints(unsorted).len() && ints(unsorted)[w] == x;
            assert(unsorted[w] as int == x);
            assert(-0x1_0000_0000_0000_0000 <= unsorted[w] <= 0x1_0000_0000_0000_0000);
        }
    }
    let mut i: usize = 0;
    while i < n
        invariant
            ta.wf(),
            spec_is_bigint_kind(ta.kind),
            es == spec_element_size(ta.kind),
            es == 8,
            bo == ta.byte_offset,
            i <= n,
            vals@.len() == n,
            buffer.data@.len() == dlen,
            dlen == old_data.len(),
            n == spec_current_length(*ta, old_data.len()),
            !spec_out_of_bounds(*ta, old_data.len()),
            bo + n * es <= dlen,
            forall|k: int| 0 <= k < n ==> -0x1_0000_0000_0000_0000 <= #[trigger] vals@[k] <= 0x1_0000_0000_0000_0000,
            forall|k: int| 0 <= k < i ==> #[trigger] elem(buffer.data@, bo, 8, k) == int_bytes(
                store_rounded(ta.kind, vals@[k] as int),
                8,
            ),
            same_outside(old_data, buffer.data@, bo, bo + n * es),
            buffer.max_byte_length == old(buffer).max_byte_length,
            buffer.shared == old(buffer).shared,
            buffer.detached == old(buffer).detached,
            old_data == old(buffer).data@,
        decreases n - i,
    {
        let d = vals[i];
        let s: i128 = match ta.kind {
            TypedArrayKind::BigInt64 => if d > 0x7FFF_FFFF_FFFF_FFFF {
                0x7FFF_FFFF_FFFF_FFFF
            } else if d < -0x8000_0000_0000_0000 {
                -0x8000_0000_0000_0000
            } else {
                d
            },
            _ => if d < 0 {
                0
            } else if d > 0xFFFF_FFFF_FFFF_FFFF {
                0xFFFF_FFFF_FFFF_FFFF
            } else {
                d
            },
        };
        assert(s as int == store_rounded(ta.kind, d as int));
        let bits: u64 = if s < 0 {
            (s + 0x1_0000_0000_0000_0000) as u64
        } else {
            s as u64
        };
        proof {
            lemma_pow256_values();
            lemma_element_inside(*ta, old_data.len(), i as nat);
            assert(bits as nat == to_unsigned(s as int, 8));
        }
        let p = ta.byte_offset + i * es;
        let ghost before = buffer.data@;
        write_uint(&mut buffer.data, p, es, bits, true);
        proof {
            let x = int_bytes(s as int, 8);
            lemma_write_elem(before, bo, 8, n as int, i as int, x);
            assert(buffer.data@ == overwrite(before, p as int, x));
            assert forall|k: int| 0 <= k < i + 1 implies #[trigger] elem(buffer.data@, bo, 8, k) == int_bytes(
                store_rounded(ta.kind, vals@[k] as int),
                8,
            ) by {
                assert(elem(buffer.data@, bo, 8, k) == if k == i {
                    x
                } else {
                    elem(before, bo, 8, k)
                });
            }
            assert forall|k: int| 0 <= k < old_data.len() && !(bo <= k < bo + n * es) implies old_data[k]
                == buffer.data@[k] by {
                assert(before[k] == old_data[k]);
                assert(!(p <= k < p + es)) by {
                    assert(bo <= p && p + es <= bo + n * es) by {
                        assert(i * es + es <= n * es) by (nonlinear_arith)
                            requires
                                i < n,
                                es > 0,
                        ;
                    }
                }
            }
        }
        i = i + 1;
    }
    proof {
        let fin = int_elements(*ta, buffer.data@);
        let stored = ints(vals@).map_values(|d: int| store_rounded(ta.kind, d));
        assert(spec_current_length(*ta, buffer.data@.len()) == n);
        assert forall|k: int| 0 <= k < n implies fin[k] == stored[k] by {
            let v = store_rounded(ta.kind, vals@[k] as int);
            lemma_element_int_encode(ta.kind, v, 8);
        }
        assert(fin =~= stored);
        let leq = |x: int, y: int| x <= y;
        assert(total_ordering(leq));
        assert(sorted_by(ints(vals@), leq));
        rounded.lemma_sort_ensures();
        vstd::seq_lib::lemma_sorted_unique(ints(vals@), rounded.sort(), leq);
    }
    Ok(())
}

} // verus!

//! `%TypedArray%.prototype.sort()` and `toSorted()` without a comparator
//! on the floating-point kinds. The engine reads the elements as Numbers,
//! sorts them with a stable sort that puts NaNs last and `-0` before `+0`,
//! and stores them back. Numbers that are not NaNs come back as the
//! patterns they were read from; a NaN comes back as `through_number`
//! says for NaNs (a binary16 NaN as the quiet NaN of its sign, a binary32
//! NaN as some NaN, a binary64 NaN as it was).
use crate::byte_codec::{bytes_value, encode, lemma_decode_encode, lemma_le_value_bound, lemma_pow256_values, pow256, read_uint, write_uint};
use crate::error::ErrorKind;
use crate::number_compare::{fp_bit_rank, fp_kind, fp_mag, fp_nan, fp_rank, lemma_rank_order, sign_unit};
use crate::typed_array::{JSArrayBuffer, JSTypedArray, TypedArrayKind, spec_element_size};
use crate::typed_array_copy::spec_elements;
use crate::typed_array_float_search::{float_patterns, spec_float_kind};
use crate::typed_array_methods::{elem, lemma_write_elem, overwrite, same_outside, spec_array_usable};
use crate::typed_array_ops::{spec_current_length, spec_out_of_bounds};
use crate::typed_array_search::{lemma_element_inside, validate};
use vstd::prelude::*;
use vstd::relations::{sorted_by, total_ordering};

verus! {

/// `a` comes no later than `b` in `sort()` order: by number, `-0` before
/// `+0`; a place only one pattern has is broken by the patterns themselves.
pub open spec fn float_sort_leq(kind: TypedArrayKind) -> spec_fn(nat, nat) -> bool {
    |a: nat, b: nat| fp_rank(kind, a) < fp_rank(kind, b) || (fp_rank(kind, a) == fp_rank(kind, b) && a <= b)
}

/// The pattern is not a NaN.
pub open spec fn is_number(kind: TypedArrayKind) -> spec_fn(nat) -> bool {
    |u: nat| !fp_nan(kind, u)
}

/// The pattern is a NaN.
pub open spec fn is_nan(kind: TypedArrayKind) -> spec_fn(nat) -> bool {
    |u: nat| fp_nan(kind, u)
}

/// The patterns that are not NaNs, in ascending order.
pub open spec fn spec_sorted_numbers(kind: TypedArrayKind, s: Seq<nat>) -> Seq<nat> {
    s.filter(is_number(kind)).sort_by(float_sort_leq(kind))
}

/// The NaN patterns, in their order.
pub open spec fn spec_nans(kind: TypedArrayKind, s: Seq<nat>) -> Seq<nat> {
    s.filter(is_nan(kind))
}

/// `w` is what an element holding the NaN pattern `u` may hold after it is
/// read as a Number and stored back.
pub open spec fn nan_stored(kind: TypedArrayKind, u: nat, w: nat) -> bool {
    match kind {
        TypedArrayKind::Float16 => w == (u / 0x8000) * 0x8000 + 0x7E00,
        TypedArrayKind::Float32 => w < 0x1_0000_0000 && fp_nan(kind, w),
        _ => w == u,
    }
}

/// A vector of patterns as numbers.
pub open spec fn nats(v: Seq<u64>) -> Seq<nat> {
    v.map_values(|x: u64| x as nat)
}

proof fn lemma_total(kind: TypedArrayKind)
    ensures
        total_ordering(float_sort_leq(kind)),
{
    let leq = float_sort_leq(kind);
    assert(vstd::relations::reflexive(leq));
    assert(vstd::relations::antisymmetric(leq));
    assert(vstd::relations::transitive(leq));
    assert(vstd::relations::strongly_connected(leq));
}

/// The place of a pattern in the order of the bits.
fn bit_rank(kind: TypedArrayKind, u: u64) -> (r: i128)
    requires
        fp_kind(kind),
        u < 2 * sign_unit(kind),
    ensures
        r == fp_bit_rank(kind, u as nat),
{
    let su: u64 = match kind {
        TypedArrayKind::Float16 => 0x8000,
        TypedArrayKind::Float32 => 0x8000_0000,
        _ => 0x8000_0000_0000_0000,
    };
    let mag = u % su;
    if u >= su {
        -(mag as i128) - 1
    } else {
        mag as i128
    }
}

/// Whether `a` comes no later than `b` (`float_sort_leq`).
fn sort_leq(kind: TypedArrayKind, a: u64, b: u64) -> (r: bool)
    requires
        fp_kind(kind),
        a < 2 * sign_unit(kind),
        b < 2 * sign_unit(kind),
        !fp_nan(kind, a as nat),
        !fp_nan(kind, b as nat),
    ensures
        r == float_sort_leq(kind)(a as nat, b as nat),
{
    proof {
        lemma_rank_order(kind, a as nat, b as nat);
    }
    let ka = bit_rank(kind, a);
    let kb = bit_rank(kind, b);
    ka < kb || (ka == kb && a <= b)
}

proof fn lemma_swap_multiset(s: Seq<nat>, a: int, b: int)
    requires
        0 <= a < s.len(),
        0 <= b < s.len(),
    ensures
        s.update(a, s[b]).update(b, s[a]).to_multiset() == s.to_multiset(),
{
    broadcast use vstd::seq_lib::to_multiset_update;
    broadcast use vstd::multiset::group_multiset_axioms;
    broadcast use vstd::seq_lib::to_multiset_contains;

    let s1 = s.update(a, s[b]);
    assert(s1.to_multiset() == s.to_multiset().insert(s[b]).remove(s[a]));
    assert(s1.update(b, s[a]).to_multiset() == s1.to_multiset().insert(s[a]).remove(s1[b]));
    assert(s.contains(s[a]));
    assert(s.contains(s[b]));
    let m = s.to_multiset();
    assert(m.insert(s[b]).remove(s[a]).insert(s[a]).remove(s[b]) =~= m);
}

/// Sorts patterns that are not NaNs into `float_sort_leq` order
/// (insertion sort).
fn sort_numbers(kind: TypedArrayKind, v: &mut Vec<u64>)
    requires
        fp_kind(kind),
        forall|k: int| 0 <= k < old(v)@.len() ==> #[trigger] old(v)@[k] < 2 * sign_unit(kind) && !fp_nan(kind, old(v)@[k] as nat),
    ensures
        final(v)@.len() == old(v)@.len(),
        nats(final(v)@).to_multiset() == nats(old(v)@).to_multiset(),
        sorted_by(nats(final(v)@), float_sort_leq(kind)),
        forall|k: int| 0 <= k < final(v)@.len() ==> #[trigger] final(v)@[k] < 2 * sign_unit(kind) && !fp_nan(kind, final(v)@[k] as nat),
{
    let n = v.len();
    proof {
        lemma_total(kind);
    }
    if n == 0 {
        return;
    }
    let ghost leq = float_sort_leq(kind);
    let mut i: usize = 1;
    while i < n
        invariant
            fp_kind(kind),
            leq == float_sort_leq(kind),
            total_ordering(leq),
            v@.len() == n,
            1 <= i <= n,
            nats(v@).to_multiset() == nats(old(v)@).to_multiset(),
            forall|k: int| 0 <= k < n ==> #[trigger] v@[k] < 2 * sign_unit(kind) && !fp_nan(kind, v@[k] as nat),
            forall|a: int, b: int| 0 <= a < b < i ==> leq(v@[a] as nat, v@[b] as nat),
        decreases n - i,
    {
        let mut j: usize = i;
        while j > 0 && !sort_leq(kind, v[j - 1], v[j])
            invariant
                fp_kind(kind),
                leq == float_sort_leq(kind),
                total_ordering(leq),
                v@.len() == n,
                0 <= j <= i < n,
                nats(v@).to_multiset() == nats(old(v)@).to_multiset(),
                forall|k: int| 0 <= k < n ==> #[trigger] v@[k] < 2 * sign_unit(kind) && !fp_nan(kind, v@[k] as nat),
                forall|a: int, b: int| 0 <= a < b <= i && a != j && b != j ==> leq(v@[a] as nat, v@[b] as nat),
                forall|b: int| j < b <= i ==> leq(v@[j as int] as nat, v@[b] as nat),
            decreases j,
        {
            let x = v[j - 1];
            let y = v[j];
            let ghost before = nats(v@);
            v.set(j - 1, y);
            v.set(j, x);
            proof {
                lemma_swap_multiset(before, j - 1, j as int);
                assert(nats(v@) =~= before.update(j - 1, before[j as int]).update(j as int, before[j - 1]));
                assert(!leq(x as nat, y as nat));
                assert(leq(y as nat, x as nat));
            }
            j = j - 1;
        }
        i = i + 1;
    }
    proof {
        assert forall|a: int, b: int| 0 <= a < b < nats(v@).len() implies #[trigger] leq(nats(v@)[a], nats(v@)[b]) by {
            assert(leq(v@[a] as nat, v@[b] as nat));
        }
    }
}

/// Filtering one more element of `s`.
proof fn lemma_filter_take(s: Seq<nat>, p: spec_fn(nat) -> bool, k: int)
    requires
        0 <= k < s.len(),
    ensures
        s.take(k + 1).filter(p) == if p(s[k]) {
            s.take(k).filter(p).push(s[k])
        } else {
            s.take(k).filter(p)
        },
{
    reveal(Seq::filter);
    assert(s.take(k + 1).drop_last() =~= s.take(k));
    assert(s.take(k + 1).last() == s[k]);
}

impl JSTypedArray {
    /// The bit pattern of element `i`, which lies inside the buffer.
    fn element_pattern(&self, buffer: &JSArrayBuffer, i: usize) -> (r: u64)
        requires
            spec_array_usable(*self, *buffer),
            i < spec_current_length(*self, buffer.data@.len()),
        ensures
            r as nat == float_patterns(*self, buffer.data@)[i as int],
            r < pow256(spec_element_size(self.kind)),
    {
        let es = self.element_size();
        proof {
            lemma_element_inside(*self, buffer.data@.len(), i as nat);
            lemma_pow256_values();
        }
        assert(self.byte_offset + i * es + es <= buffer.data.len());
        let p = self.byte_offset + i * es;
        let u = read_uint(&buffer.data, p, es, true);
        proof {
            let b = elem(buffer.data@, self.byte_offset as int, es as int, i as int);
            assert(buffer.data@.subrange(p as int, p + es) == b);
            assert(spec_elements(*self, buffer.data@)[i as int] == b);
            lemma_le_value_bound(b);
        }
        u
    }
}

/// What a NaN pattern becomes when stored back (`nan_stored`).
fn store_nan(kind: TypedArrayKind, u: u64) -> (w: u64)
    requires
        fp_kind(kind),
        u < 2 * sign_unit(kind),
        fp_nan(kind, u as nat),
    ensures
        nan_stored(kind, u as nat, w as nat),
        w < 2 * sign_unit(kind),
{
    match kind {
        TypedArrayKind::Float16 => (u / 0x8000) * 0x8000 + 0x7E00,
        _ => u,
    }
}

/// The floating-point kinds' patterns fit in twice their sign bit.
proof fn lemma_width(kind: TypedArrayKind)
    requires
        spec_float_kind(kind),
    ensures
        pow256(spec_element_size(kind)) == 2 * sign_unit(kind),
        fp_kind(kind),
{
    lemma_pow256_values();
}

/// `%TypedArray%.prototype.sort()` without a comparator on a
/// floating-point kind: a TypeError for a detached or out-of-bounds
/// array; else the elements that are not NaNs come first, in ascending
/// order (`-0` before `+0`), then the NaNs in their order, each as a NaN
/// stored back.
pub fn typedarray_sort_float(ta: &JSTypedArray, buffer: &mut JSArrayBuffer) -> (r: Result<(), ErrorKind>)
    requires
        ta.wf(),
        spec_float_kind(ta.kind),
    ensures
        !spec_array_usable(*ta, *old(buffer)) ==> r == Err::<(), ErrorKind>(ErrorKind::TypeError)
            && *final(buffer) == *old(buffer),
        spec_array_usable(*ta, *old(buffer)) ==> {
            let n = spec_current_length(*ta, old(buffer).data@.len()) as int;
            let es = spec_element_size(ta.kind) as int;
            let before = float_patterns(*ta, old(buffer).data@);
            let after = float_patterns(*ta, final(buffer).data@);
            let nums = spec_sorted_numbers(ta.kind, before);
            let nans = spec_nans(ta.kind, before);
            &&& r is Ok
            &&& after.len() == before.len()
            &&& nums.len() + nans.len() == before.len()
            &&& after.subrange(0, nums.len() as int) == nums
            &&& forall|j: int| 0 <= j < nans.len() ==> nan_stored(ta.kind, nans[j], #[trigger] after[nums.len() + j])
            &&& same_outside(old(buffer).data@, final(buffer).data@, ta.byte_offset as int, ta.byte_offset + n * es)
        },
        final(buffer).max_byte_length == old(buffer).max_byte_length,
        final(buffer).shared == old(buffer).shared,
        final(buffer).detached == old(buffer).detached,
{
    let n = match validate(ta, buffer) {
        Ok(n) => n,
        Err(e) => return Err(e),
    };
    let kind = ta.kind;
    let es = ta.element_size();
    let ghost old_data = buffer.data@;
    let ghost before = float_patterns(*ta, old_data);
    proof {
        lemma_width(kind);
        assert(before.len() == n);
    }
    // split the patterns into numbers and NaNs, keeping their order
    let mut nums: Vec<u64> = Vec::new();
    let mut nans: Vec<u64> = Vec::new();
    let mut k: usize = 0;
    while k < n
        invariant
            spec_float_kind(kind),
            kind == ta.kind,
            fp_kind(kind),
            pow256(spec_element_size(kind)) == 2 * sign_unit(kind),
            spec_array_usable(*ta, *buffer),
            old_data == buffer.data@,
            n == spec_current_length(*ta, old_data.len()),
            before == float_patterns(*ta, old_data),
            before.len() == n,
            k <= n,
            nats(nums@) == before.take(k as int).filter(is_number(kind)),
            nats(nans@) == before.take(k as int).filter(is_nan(kind)),
            nums@.len() + nans@.len() == k,
            forall|j: int| 0 <= j < nums@.len() ==> #[trigger] nums@[j] < 2 * sign_unit(kind) && !fp_nan(kind, nums@[j] as nat),
            forall|j: int| 0 <= j < nans@.len() ==> #[trigger] nans@[j] < 2 * sign_unit(kind) && fp_nan(kind, nans@[j] as nat),
        decreases n - k,
    {
        let u = ta.element_pattern(buffer, k);
        let u_nan = match kind {
            TypedArrayKind::Float16 => (u / 0x400) % 0x20 == 0x1F && u % 0x400 != 0,
            TypedArrayKind::Float32 => (u / 0x80_0000) % 0x100 == 0xFF && u % 0x80_0000 != 0,
            _ => (u / 0x10_0000_0000_0000) % 2048 == 2047 && u % 0x10_0000_0000_0000 != 0,
        };
        proof {
            lemma_filter_take(before, is_number(kind), k as int);
            lemma_filter_take(before, is_nan(kind), k as int);
            assert(u_nan == fp_nan(kind, u as nat));
        }
        if u_nan {
            nans.push(u);
            assert(nats(nans@) =~= before.take(k as int).filter(is_nan(kind)).push(u as nat));
        } else {
            nums.push(u);
            assert(nats(nums@) =~= before.take(k as int).filter(is_number(kind)).push(u as nat));
        }
        k = k + 1;
    }
    proof {
        assert(before.take(n as int) =~= before);
    }
    let ghost unsorted = nums@;
    sort_numbers(kind, &mut nums);
    let m = nums.len();
    proof {
        let leq = float_sort_leq(kind);
        lemma_total(kind);
        let filtered = before.filter(is_number(kind));
        filtered.lemma_sort_by_ensures(leq);
        vstd::seq_lib::lemma_sorted_unique(nats(nums@), filtered.sort_by(leq), leq);
        assert(nats(nums@) == spec_sorted_numbers(kind, before));
    }
    // the stored values: the sorted numbers, then the NaNs as stored back
    let mut out: Vec<u64> = Vec::new();
    let mut j: usize = 0;
    while j < m
        invariant
            j <= m,
            m == nums@.len(),
            out@ == nums@.take(j as int),
        decreases m - j,
    {
        out.push(nums[j]);
        j = j + 1;
        assert(out@ =~= nums@.take(j as int));
    }
    let mut q: usize = 0;
    while q < nans.len()
        invariant
            fp_kind(kind),
            q <= nans@.len(),
            m == nums@.len(),
            out@.len() == m + q,
            out@.subrange(0, m as int) == nums@,
            forall|j: int| 0 <= j < nans@.len() ==> #[trigger] nans@[j] < 2 * sign_unit(kind) && fp_nan(kind, nans@[j] as nat),
            forall|j: int| 0 <= j < q ==> nan_stored(kind, nans@[j] as nat, #[trigger] out@[m + j] as nat),
            forall|j: int| 0 <= j < out@.len() ==> #[trigger] out@[j] < 2 * sign_unit(kind),
            forall|j: int| 0 <= j < m ==> #[trigger] nums@[j] < 2 * sign_unit(kind),
        decreases nans@.len() - q,
    {
        let w = store_nan(kind, nans[q]);
        let ghost prev = out@;
        out.push(w);
        assert(out@.subrange(0, m as int) =~= prev.subrange(0, m as int));
        q = q + 1;
    }
    // write the stored values back, element by element
    let ghost bo = ta.byte_offset as int;
    let dlen = buffer.data.len();
    proof {
        if n > 0 {
            lemma_element_inside(*ta, dlen as nat, (n - 1) as nat);
        }
        assert(bo + n * es <= dlen) by (nonlinear_arith)
            requires
                n > 0 ==> bo + (n - 1) * es + es <= dlen,
                bo <= dlen,
                bo >= 0,
                es > 0,
        ;
    }
    let mut i: usize = 0;
    while i < n
        invariant
            ta.wf(),
            kind == ta.kind,
            es == spec_element_size(kind),
            1 <= es <= 8,
            pow256(es as nat) == 2 * sign_unit(kind),
            bo == ta.byte_offset,
            i <= n,
            out@.len() == n,
            buffer.data@.len() == dlen,
            dlen == old_data.len(),
            n == spec_current_length(*ta, old_data.len()),
            !spec_out_of_bounds(*ta, old_data.len()),
            bo + n * es <= dlen,
            forall|j: int| 0 <= j < i ==> #[trigger] elem(buffer.data@, bo, es as int, j) == encode(out@[j] as nat, es as nat, true),
            same_outside(old_data, buffer.data@, bo, bo + n * es),
            buffer.max_byte_length == old(buffer).max_byte_length,
            buffer.shared == old(buffer).shared,
            buffer.detached == old(buffer).detached,
            old_data == old(buffer).data@,
        decreases n - i,
    {
        proof {
            lemma_element_inside(*ta, old_data.len(), i as nat);
        }
        let p = ta.byte_offset + i * es;
        let ghost prev = buffer.data@;
        write_uint(&mut buffer.data, p, es, out[i], true);
        proof {
            let x = encode(out@[i as int] as nat, es as nat, true);
            lemma_write_elem(prev, bo, es as int, n as int, i as int, x);
            assert(buffer.data@ == overwrite(prev, p as int, x));
            assert forall|j: int| 0 <= j < i + 1 implies #[trigger] elem(buffer.data@, bo, es as int, j) == encode(
                out@[j] as nat,
                es as nat,
                true,
            ) by {
                assert(elem(buffer.data@, bo, es as int, j) == if j == i {
                    x
                } else {
                    elem(prev, bo, es as int, j)
                });
            }
            assert forall|k2: int| 0 <= k2 < old_data.len() && !(bo <= k2 < bo + n * es) implies old_data[k2]
                == buffer.data@[k2] by {
                assert(prev[k2] == old_data[k2]);
                assert(!(p <= k2 < p + es)) by {
                    assert(bo <= p && p + es <= bo + n * es) by {
                        assert(i * es + es <= n * es) by (nonlinear_arith)
                            requires
                                i < n,
                                es > 0,
                        ;
                    }
                }
            }
        }
        i = i + 1;
    }
    proof {
        let after = float_patterns(*ta, buffer.data@);
        assert(spec_current_length(*ta, buffer.data@.len()) == n);
        assert forall|j: int| 0 <= j < n implies after[j] == out@[j] as nat by {
            assert(spec_elements(*ta, buffer.data@)[j] == elem(buffer.data@, bo, es as int, j));
            lemma_decode_encode(out@[j] as nat, es as nat, true);
            vstd::arithmetic::div_mod::lemma_small_mod(out@[j] as nat, pow256(es as nat));
        }
        assert(after.subrange(0, m as int) =~= nats(nums@));
        assert forall|j: int| 0 <= j < nans@.len() implies nan_stored(
            kind,
            spec_nans(kind, before)[j],
            #[trigger] after[m + j],
        ) by {
            assert(spec_nans(kind, before)[j] == nats(nans@)[j]);
            assert(out@[m + j] < 2 * sign_unit(kind));
        }
    }
    Ok(())
}

/// What a float `sort` puts first: the patterns that are not NaNs, each as
/// often as before, in ascending numeric order (`-0` before `+0`).
pub proof fn law_float_sort_order(kind: TypedArrayKind, s: Seq<nat>)
    ensures
        ({
            let nums = spec_sorted_numbers(kind, s);
            &&& nums.to_multiset() == s.filter(is_number(kind)).to_multiset()
            &&& forall|i: int, j: int| 0 <= i < j < nums.len() ==> fp_rank(kind, nums[i]) <= fp_rank(kind, nums[j])
        }),
{
    lemma_total(kind);
    let leq = float_sort_leq(kind);
    let f = s.filter(is_number(kind));
    f.lemma_sort_by_ensures(leq);
    let nums = f.sort_by(leq);
    assert forall|i: int, j: int| 0 <= i < j < nums.len() implies fp_rank(kind, nums[i]) <= fp_rank(kind, nums[j]) by {
        assert(leq(nums[i], nums[j]));
    }
}

} // verus!

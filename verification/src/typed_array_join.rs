//! `%TypedArray%.prototype.join` and `toString` on the integer kinds:
//! every element written in decimal, the separator between them.
use crate::error::ErrorKind;
use crate::typed_array::{JSArrayBuffer, JSTypedArray};
use crate::typed_array_methods::spec_array_usable;
use crate::typed_array_search::{int_elements, read_elements_checked, spec_int_kind};
use crate::utf16::append_all;
use vstd::prelude::*;

verus! {

/// The decimal digits of `n`, most significant first, as UTF-16 units.
pub open spec fn decimal_digits(n: nat) -> Seq<u16>
    decreases n,
{
    if n < 10 {
        seq![(48 + n) as u16]
    } else {
        decimal_digits(n / 10).push((48 + n % 10) as u16)
    }
}

/// The decimal text of a whole number, with a minus sign when negative.
pub open spec fn decimal_text(n: int) -> Seq<u16> {
    if n < 0 {
        seq![45u16] + decimal_digits((-n) as nat)
    } else {
        decimal_digits(n as nat)
    }
}

/// The texts of `parts` with `sep` between each two.
pub open spec fn joined(parts: Seq<Seq<u16>>, sep: Seq<u16>) -> Seq<u16>
    decreases parts.len(),
{
    if parts.len() == 0 {
        Seq::empty()
    } else if parts.len() == 1 {
        parts[0]
    } else {
        joined(parts.drop_last(), sep) + sep + parts.last()
    }
}

/// The separator `join` uses: "," when none is given.
pub open spec fn spec_separator(sep: Option<Seq<u16>>) -> Seq<u16> {
    match sep {
        None => seq![44u16],
        Some(s) => s,
    }
}

/// The decimal digits of `n`.
fn digits_of(n: u128) -> (r: Vec<u16>)
    ensures
        r@ == decimal_digits(n as nat),
    decreases n,
{
    if n < 10 {
        let mut v: Vec<u16> = Vec::new();
        v.push((48 + n) as u16);
        v
    } else {
        let mut v = digits_of(n / 10);
        v.push((48 + n % 10) as u16);
        v
    }
}

/// The decimal text of `n`.
pub fn decimal_of(n: i128) -> (r: Vec<u16>)
    requires
        n > i128::MIN,
    ensures
        r@ == decimal_text(n as int),
{
    if n < 0 {
        let mut v: Vec<u16> = Vec::new();
        v.push(45);
        let d = digits_of((-n) as u128);
        append_all(&mut v, d.as_slice());
        v
    } else {
        digits_of(n as u128)
    }
}

/// `join(separator)` on an integer TypedArray: `sep` is the separator
/// after ToString, `None` when it is absent or undefined.
pub fn typedarray_join(ta: &JSTypedArray, buffer: &JSArrayBuffer, sep: Option<&[u16]>) -> (r: Result<
    Vec<u16>,
    ErrorKind,
>)
    requires
        ta.wf(),
        spec_int_kind(ta.kind),
    ensures
        !spec_array_usable(*ta, *buffer) ==> r == Err::<Vec<u16>, ErrorKind>(ErrorKind::TypeError),
        spec_array_usable(*ta, *buffer) ==> (r matches Ok(v) && v@ == joined(
            int_elements(*ta, buffer.data@).map_values(|e: int| decimal_text(e)),
            spec_separator(
                match sep {
                    None => None,
                    Some(s) => Some(s@),
                },
            ),
        )),
{
    let vals = match read_elements_checked(ta, buffer) {
        Ok(v) => v,
        Err(e) => return Err(e),
    };
    let ghost s = int_elements(*ta, buffer.data@);
    let ghost sp = spec_separator(
        match sep {
            None => None,
            Some(s) => Some(s@),
        },
    );
    let comma: [u16; 1] = [44];
    let separator: &[u16] = match sep {
        None => &comma,
        Some(s) => s,
    };
    assert(separator@ == sp);
    let ghost texts = s.map_values(|e: int| decimal_text(e));
    let mut out: Vec<u16> = Vec::new();
    let mut i: usize = 0;
    while i < vals.len()
        invariant
            i <= vals@.len(),
            vals@.len() == s.len(),
            forall|k: int| 0 <= k < vals@.len() ==> (#[trigger] vals@[k]) as int == s[k],
            forall|k: int| 0 <= k < vals@.len() ==> vals@[k] > i128::MIN,
            texts == s.map_values(|e: int| decimal_text(e)),
            separator@ == sp,
            out@ == joined(texts.take(i as int), sp),
        decreases vals.len() - i,
    {
        let d = decimal_of(vals[i]);
        let ghost before = out@;
        if i > 0 {
            append_all(&mut out, separator);
        }
        append_all(&mut out, d.as_slice());
        proof {
            let t = texts.take(i + 1);
            assert(t.drop_last() =~= texts.take(i as int));
            assert(t.last() == decimal_text(s[i as int]));
            if i == 0 {
                assert(t.len() == 1);
                assert(out@ =~= t[0]);
            } else {
                assert(out@ =~= joined(t.drop_last(), sp) + sp + t.last());
            }
        }
        i = i + 1;
    }
    proof {
        assert(texts.take(vals@.len() as int) =~= texts);
    }
    Ok(out)
}

} // verus!

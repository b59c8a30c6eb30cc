//! String constructors and code-point level methods: `String.fromCharCode`,
//! `String.fromCodePoint`, `String.raw`, `toWellFormed`, the string
//! iterator, `localeCompare` and `normalize`.
use crate::error::ErrorKind;
use crate::string_methods::code_point_at;
use crate::utf16::{append_all, is_high_surrogate, is_low_surrogate};
use vstd::prelude::*;

verus! {

/// ToUint16 of an integral number.
pub open spec fn to_uint16(n: int) -> u16 {
    (n % 65536) as u16
}

/// `String.fromCharCode(...codes)` where each code is the integral part of
/// its argument (NaN and ±∞ passed as 0).
pub fn string_from_char_code(codes: &Vec<i64>) -> (r: Vec<u16>)
    ensures
        r@ == Seq::new(codes@.len(), |i: int| to_uint16(codes@[i] as int)),
{
    let mut out: Vec<u16> = Vec::new();
    let mut i: usize = 0;
    while i < codes.len()
        invariant
            i <= codes@.len(),
            out@ == Seq::new(i as nat, |k: int| to_uint16(codes@[k] as int)),
        decreases codes.len() - i,
    {
        let n = codes[i];
        let m: i64 = n % 65536;
        let u: u16 = if m < 0 {
            (m + 65536) as u16
        } else {
            m as u16
        };
        assert(u == to_uint16(n as int)) by {
            assert(n as int % 65536 == if m < 0 { m + 65536 } else { m as int });
        }
        out.push(u);
        i = i + 1;
        assert(out@ =~= Seq::new(i as nat, |k: int| to_uint16(codes@[k] as int)));
    }
    out
}

/// UTF-16 encoding of one code point in `[0, 0x10FFFF]`; code points below
/// 0x10000 (surrogates included) are a single unit.
pub open spec fn spec_encode_code_point(cp: int) -> Seq<u16> {
    if cp <= 0xFFFF {
        seq![cp as u16]
    } else {
        seq![(0xD800 + (cp - 0x10000) / 0x400) as u16, (0xDC00 + (cp - 0x10000) % 0x400) as u16]
    }
}

/// Whether an argument of `fromCodePoint` is a valid code point; `None`
/// stands for a value that is not an integral number.
pub open spec fn valid_code_point(c: Option<i64>) -> bool {
    c is Some && 0 <= c->0 <= 0x10FFFF
}

pub open spec fn spec_from_code_points(cps: Seq<Option<i64>>) -> Seq<u16>
    decreases cps.len(),
{
    if cps.len() == 0 {
        Seq::empty()
    } else {
        spec_from_code_points(cps.drop_last()) + spec_encode_code_point(cps.last()->0 as int)
    }
}

/// `String.fromCodePoint(...codePoints)`: `None` stands for an argument that
/// is NaN, infinite or not integral. Any invalid argument is a RangeError.
pub fn string_from_code_point(code_points: &Vec<Option<i64>>) -> (r: Result<Vec<u16>, ErrorKind>)
    ensures
        (forall|i: int| 0 <= i < code_points@.len() ==> valid_code_point(#[trigger] code_points@[i]))
            ==> r is Ok && r->Ok_0@ == spec_from_code_points(code_points@),
        !(forall|i: int|
            0 <= i < code_points@.len() ==> valid_code_point(#[trigger] code_points@[i])) ==> r
            == Err::<Vec<u16>, ErrorKind>(ErrorKind::RangeError),
{
    let mut out: Vec<u16> = Vec::new();
    let mut i: usize = 0;
    while i < code_points.len()
        invariant
            i <= code_points@.len(),
            forall|k: int| 0 <= k < i ==> valid_code_point(#[trigger] code_points@[k]),
            out@ == spec_from_code_points(code_points@.subrange(0, i as int)),
        decreases code_points.len() - i,
    {
        let cp = match code_points[i] {
            Some(c) => c,
            None => {
                assert(!valid_code_point(code_points@[i as int]));
                return Err(ErrorKind::RangeError);
            },
        };
        if cp < 0 || cp > 0x10FFFF {
            assert(!valid_code_point(code_points@[i as int]));
            return Err(ErrorKind::RangeError);
        }
        let ghost before = out@;
        if cp <= 0xFFFF {
            out.push(cp as u16);
        } else {
            let v: i64 = cp - 0x10000;
            out.push((0xD800 + v / 0x400) as u16);
            out.push((0xDC00 + v % 0x400) as u16);
        }
        assert(out@ =~= before + spec_encode_code_point(cp as int));
        i = i + 1;
        assert(code_points@.subrange(0, i as int).drop_last() =~= code_points@.subrange(
            0,
            i - 1,
        ));
    }
    assert(code_points@.subrange(0, code_points@.len() as int) =~= code_points@);
    Ok(out)
}

/// The result of `String.raw`: the first `literals.len()` literal segments
/// interleaved with the substitutions that exist between them.
pub open spec fn spec_raw(literals: Seq<Vec<u16>>, substitutions: Seq<Vec<u16>>, n: nat) -> Seq<u16>
    decreases n,
{
    if n == 0 {
        Seq::empty()
    } else {
        let prev = spec_raw(literals, substitutions, (n - 1) as nat);
        let with_sub = if n - 1 > 0 && n - 2 < substitutions.len() {
            prev + substitutions[n - 2]@
        } else {
            prev
        };
        with_sub + literals[n - 1]@
    }
}

/// `String.raw(template, ...substitutions)` once the `literalCount` raw
/// segments of the template (`literals`) and the substitutions have been
/// converted to strings.
pub fn string_raw(literals: &Vec<Vec<u16>>, substitutions: &Vec<Vec<u16>>) -> (r: Vec<u16>)
    ensures
        r@ == spec_raw(literals@, substitutions@, literals@.len()),
{
    let mut out: Vec<u16> = Vec::new();
    let mut i: usize = 0;
    while i < literals.len()
        invariant
            i <= literals@.len(),
            out@ == spec_raw(literals@, substitutions@, i as nat),
        decreases literals.len() - i,
    {
        if i > 0 && i - 1 < substitutions.len() {
            append_all(&mut out, substitutions[i - 1].as_slice());
        }
        append_all(&mut out, literals[i].as_slice());
        i = i + 1;
    }
    out
}

/// Unit `i` of `s` is a surrogate that is not part of a pair.
pub open spec fn is_lone_surrogate(s: Seq<u16>, i: int) -> bool {
    ||| is_high_surrogate(s[i]) && !(i + 1 < s.len() && is_low_surrogate(s[i + 1]))
    ||| is_low_surrogate(s[i]) && !(i > 0 && is_high_surrogate(s[i - 1]))
}

pub open spec fn spec_to_well_formed(s: Seq<u16>) -> Seq<u16> {
    Seq::new(s.len(), |i: int| if is_lone_surrogate(s, i) { 0xFFFDu16 } else { s[i] })
}

/// `String.prototype.toWellFormed()`: every lone surrogate becomes U+FFFD.
pub fn string_to_well_formed_method(s: &[u16]) -> (r: Vec<u16>)
    ensures
        r@ == spec_to_well_formed(s@),
{
    let mut res: Vec<u16> = Vec::new();
    let mut i: usize = 0;
    while i < s.len()
        invariant
            i <= s@.len(),
            res@ == spec_to_well_formed(s@).subrange(0, i as int),
        decreases s.len() - i,
    {
        let c = s[i];
        let lone = if 0xD800 <= c && c <= 0xDBFF {
            !(i + 1 < s.len() && 0xDC00 <= s[i + 1] && s[i + 1] <= 0xDFFF)
        } else if 0xDC00 <= c && c <= 0xDFFF {
            !(i > 0 && 0xD800 <= s[i - 1] && s[i - 1] <= 0xDBFF)
        } else {
            false
        };
        if lone {
            res.push(0xFFFD);
        } else {
            res.push(c);
        }
        i = i + 1;
        assert(res@ =~= spec_to_well_formed(s@).subrange(0, i as int));
    }
    assert(spec_to_well_formed(s@).subrange(0, s@.len() as int) =~= spec_to_well_formed(s@));
    res
}

/// `%StringIteratorPrototype%.next()` on the string `s` at index `index`:
/// `None` when done, otherwise the next code point's units and the new index.
pub fn handle_string_iterator_next(s: &[u16], index: usize) -> (r: Option<(Vec<u16>, usize)>)
    ensures
        index >= s@.len() ==> r is None,
        index < s@.len() ==> r is Some && ({
            let (unit, next) = r->0;
            if is_high_surrogate(s@[index as int]) && index + 1 < s@.len() && is_low_surrogate(
                s@[index + 1],
            ) {
                unit@ == s@.subrange(index as int, index + 2) && next == index + 2
            } else {
                unit@ == seq![s@[index as int]] && next == index + 1
            }
        }),
{
    if index >= s.len() {
        return None;
    }
    let c1 = s[index];
    let mut unit: Vec<u16> = Vec::new();
    unit.push(c1);
    if 0xD800 <= c1 && c1 <= 0xDBFF && index + 1 < s.len() {
        let c2 = s[index + 1];
        if 0xDC00 <= c2 && c2 <= 0xDFFF {
            unit.push(c2);
            assert(unit@ =~= s@.subrange(index as int, index + 2));
            return Some((unit, index + 2));
        }
    }
    assert(unit@ =~= seq![s@[index as int]]);
    Some((unit, index + 1))
}

/// The code points of `s` from index `i`, lone surrogates decoded as U+FFFD.
pub open spec fn decode_lossy_from(s: Seq<u16>, i: int) -> Seq<u32>
    decreases s.len() - i,
{
    if i < 0 || i >= s.len() {
        Seq::empty()
    } else if is_high_surrogate(s[i]) && i + 1 < s.len() && is_low_surrogate(s[i + 1]) {
        seq![code_point_at(s, i) as u32] + decode_lossy_from(s, i + 2)
    } else if is_high_surrogate(s[i]) || is_low_surrogate(s[i]) {
        seq![0xFFFDu32] + decode_lossy_from(s, i + 1)
    } else {
        seq![s[i] as u32] + decode_lossy_from(s, i + 1)
    }
}

/// Lexicographic comparison: -1, 0 or 1.
pub open spec fn lex_order(a: Seq<u32>, b: Seq<u32>) -> int
    decreases a.len(),
{
    if a.len() == 0 && b.len() == 0 {
        0
    } else if a.len() == 0 {
        -1
    } else if b.len() == 0 {
        1
    } else if a[0] < b[0] {
        -1
    } else if a[0] > b[0] {
        1
    } else {
        lex_order(a.drop_first(), b.drop_first())
    }
}

pub(crate) fn decode_lossy(s: &[u16]) -> (r: Vec<u32>)
    ensures
        r@ == decode_lossy_from(s@, 0),
{
    let mut out: Vec<u32> = Vec::new();
    let mut i: usize = 0;
    while i < s.len()
        invariant
            i <= s@.len(),
            out@ + decode_lossy_from(s@, i as int) == decode_lossy_from(s@, 0),
        decreases s.len() - i,
    {
        let c = s[i];
        let ghost old_out = out@;
        if 0xD800 <= c && c <= 0xDBFF && i + 1 < s.len() && 0xDC00 <= s[i + 1] && s[i + 1]
            <= 0xDFFF {
            let cp: u32 = 0x10000 + ((c as u32 - 0xD800) * 0x400) + (s[i + 1] as u32 - 0xDC00);
            out.push(cp);
            assert(decode_lossy_from(s@, i as int) == seq![cp] + decode_lossy_from(
                s@,
                i + 2,
            ));
            assert(out@ + decode_lossy_from(s@, i + 2) =~= old_out + decode_lossy_from(
                s@,
                i as int,
            ));
            i = i + 2;
        } else {
            let d: u32 = if 0xD800 <= c && c <= 0xDFFF {
                0xFFFD
            } else {
                c as u32
            };
            out.push(d);
            assert(decode_lossy_from(s@, i as int) == seq![d] + decode_lossy_from(
                s@,
                i + 1,
            ));
            assert(out@ + decode_lossy_from(s@, i + 1) =~= old_out + decode_lossy_from(
                s@,
                i as int,
            ));
            i = i + 1;
        }
    }
    assert(out@ =~= out@ + decode_lossy_from(s@, i as int));
    out
}

/// `String.prototype.localeCompare(that)`: compares the two strings code
/// point by code point (lone surrogates read as U+FFFD), which orders them
/// as their UTF-8 encodings are ordered.
pub fn string_locale_compare_method(s: &[u16], that: &[u16]) -> (r: i32)
    ensures
        r as int == lex_order(decode_lossy_from(s@, 0), decode_lossy_from(that@, 0)),
{
    let a = decode_lossy(s);
    let b = decode_lossy(that);
    let mut i: usize = 0;
    assert(a@.subrange(0, a@.len() as int) =~= a@);
    assert(b@.subrange(0, b@.len() as int) =~= b@);
    while i < a.len() && i < b.len()
        invariant
            a@ == decode_lossy_from(s@, 0),
            b@ == decode_lossy_from(that@, 0),
            i <= a@.len(),
            i <= b@.len(),
            lex_order(a@, b@) == lex_order(a@.subrange(i as int, a@.len() as int), b@.subrange(
                i as int,
                b@.len() as int,
            )),
        decreases a.len() - i,
    {
        let ghost sa = a@.subrange(i as int, a@.len() as int);
        let ghost sb = b@.subrange(i as int, b@.len() as int);
        assert(sa.len() > 0 && sb.len() > 0);
        assert(sa[0] == a@[i as int] && sb[0] == b@[i as int]);
        if a[i] < b[i] {
            return -1;
        }
        if a[i] > b[i] {
            return 1;
        }
        assert(sa.drop_first() =~= a@.subrange(i + 1, a@.len() as int));
        assert(sb.drop_first() =~= b@.subrange(i + 1, b@.len() as int));
        i = i + 1;
    }
    let ghost sa = a@.subrange(i as int, a@.len() as int);
    let ghost sb = b@.subrange(i as int, b@.len() as int);
    assert(sa.len() == a@.len() - i && sb.len() == b@.len() - i);
    if a.len() == b.len() {
        0
    } else if i == a.len() {
        -1
    } else {
        1
    }
}

} // verus!

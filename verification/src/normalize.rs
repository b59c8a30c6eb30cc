//! `String.prototype.normalize`: the form argument, the decoding of the
//! string, and the four Unicode normalization forms of
//! `unicode-normalization`.
use crate::error::ErrorKind;
use crate::string_build::{decode_lossy, decode_lossy_from};
use crate::string_replace::units_equal;
use crate::string_methods::code_point_at;
use crate::utf16::{encode_chars, is_high_surrogate, is_low_surrogate, utf16_encode};
use unicode_normalization::UnicodeNormalization;
use vstd::prelude::*;

verus! {

/// The normalization forms.
#[derive(Clone, Copy, Debug, PartialEq, Eq, Structural)]
pub enum NormalizationForm {
    Nfc,
    Nfd,
    Nfkc,
    Nfkd,
}

/// The text of Normalization Form C of `cs`.
pub uninterp spec fn nfc(cs: Seq<char>) -> Seq<char>;

/// The text of Normalization Form D of `cs`.
pub uninterp spec fn nfd(cs: Seq<char>) -> Seq<char>;

/// The text of Normalization Form KC of `cs`.
pub uninterp spec fn nfkc(cs: Seq<char>) -> Seq<char>;

/// The text of Normalization Form KD of `cs`.
pub uninterp spec fn nfkd(cs: Seq<char>) -> Seq<char>;

/// `UnicodeNormalization::nfc` over a sequence of characters.
#[verifier::external_body]
fn nfc_chars(cs: &Vec<char>) -> (r: Vec<char>)
    ensures
        r@ == nfc(cs@),
{
    cs.iter().copied().nfc().collect()
}

/// `UnicodeNormalization::nfd` over a sequence of characters.
#[verifier::external_body]
fn nfd_chars(cs: &Vec<char>) -> (r: Vec<char>)
    ensures
        r@ == nfd(cs@),
{
    cs.iter().copied().nfd().collect()
}

/// `UnicodeNormalization::nfkc` over a sequence of characters.
#[verifier::external_body]
fn nfkc_chars(cs: &Vec<char>) -> (r: Vec<char>)
    ensures
        r@ == nfkc(cs@),
{
    cs.iter().copied().nfkc().collect()
}

/// `UnicodeNormalization::nfkd` over a sequence of characters.
#[verifier::external_body]
fn nfkd_chars(cs: &Vec<char>) -> (r: Vec<char>)
    ensures
        r@ == nfkd(cs@),
{
    cs.iter().copied().nfkd().collect()
}

/// `char::from_u32`: the character with code point `n` when `n` is a
/// Unicode scalar value (not a surrogate, at most U+10FFFF), else `None`.
#[verifier::external_body]
fn char_from_u32(n: u32) -> (r: Option<char>)
    ensures
        r is Some <==> (n <= 0x10FFFF && !(0xD800 <= n <= 0xDFFF)),
        r is Some ==> r->0 as u32 == n,
{
    char::from_u32(n)
}

/// A Unicode scalar value.
pub open spec fn is_scalar(n: u32) -> bool {
    n <= 0x10FFFF && !(0xD800 <= n <= 0xDFFF)
}

/// The characters of `s`, each unpaired surrogate read as U+FFFD (what
/// `String::from_utf16_lossy` makes of it).
pub open spec fn lossy_chars(s: Seq<u16>) -> Seq<char> {
    decode_lossy_from(s, 0).map_values(|n: u32| n as char)
}

proof fn lemma_lossy_scalars(s: Seq<u16>, i: int)
    requires
        0 <= i,
    ensures
        forall|k: int|
            0 <= k < decode_lossy_from(s, i).len() ==> is_scalar(#[trigger] decode_lossy_from(s, i)[k]),
    decreases s.len() - i,
{
    if i < s.len() {
        let step: int = if is_high_surrogate(s[i]) && i + 1 < s.len() && is_low_surrogate(s[i + 1]) {
            2
        } else {
            1
        };
        lemma_lossy_scalars(s, i + step);
        let d = decode_lossy_from(s, i);
        let rest = decode_lossy_from(s, i + step);
        assert(d == seq![d[0]] + rest);
        if step == 2 {
            assert(code_point_at(s, i) == 0x10000 + (s[i] - 0xD800) * 0x400 + (s[i + 1] - 0xDC00));
        }
        assert forall|k: int| 0 <= k < d.len() implies is_scalar(#[trigger] d[k]) by {
            if k > 0 {
                assert(d[k] == rest[k - 1]);
            }
        }
    }
}

proof fn lemma_char_eq(c: char, d: char)
    requires
        c as u32 == d as u32,
    ensures
        c == d,
{
}

fn chars_of(cps: &Vec<u32>) -> (r: Vec<char>)
    requires
        forall|k: int| 0 <= k < cps@.len() ==> is_scalar(#[trigger] cps@[k]),
    ensures
        r@ == cps@.map_values(|n: u32| n as char),
{
    let mut out: Vec<char> = Vec::new();
    let mut i: usize = 0;
    while i < cps.len()
        invariant
            i <= cps@.len(),
            forall|k: int| 0 <= k < cps@.len() ==> is_scalar(#[trigger] cps@[k]),
            out@ == cps@.take(i as int).map_values(|n: u32| n as char),
        decreases cps.len() - i,
    {
        let n = cps[i];
        let c = match char_from_u32(n) {
            Some(c) => c,
            None => '\u{FFFD}',
        };
        out.push(c);
        proof {
            assert(is_scalar(cps@[i as int]));
            assert(c as u32 == n);
            assert((n as char) as u32 == n);
            lemma_char_eq(c, n as char);
            assert(c == n as char);
            assert(out@ =~= cps@.take(i + 1).map_values(|n: u32| n as char));
        }
        i = i + 1;
    }
    assert(cps@.take(i as int) =~= cps@);
    out
}

/// The characters of `s`, unpaired surrogates read as U+FFFD.
pub(crate) fn lossy_char_vec(s: &[u16]) -> (r: Vec<char>)
    ensures
        r@ == lossy_chars(s@),
{
    let cps = decode_lossy(s);
    proof {
        lemma_lossy_scalars(s@, 0);
    }
    chars_of(&cps)
}

/// The form a `normalize(form)` call names; `None` (an absent or undefined
/// argument) is NFC, and any other name is a RangeError.
pub open spec fn spec_form(form: Option<Seq<u16>>) -> Result<NormalizationForm, ErrorKind> {
    match form {
        None => Ok(NormalizationForm::Nfc),
        Some(f) => if f == seq![78u16, 70u16, 67u16] {
            Ok(NormalizationForm::Nfc)
        } else if f == seq![78u16, 70u16, 68u16] {
            Ok(NormalizationForm::Nfd)
        } else if f == seq![78u16, 70u16, 75u16, 67u16] {
            Ok(NormalizationForm::Nfkc)
        } else if f == seq![78u16, 70u16, 75u16, 68u16] {
            Ok(NormalizationForm::Nfkd)
        } else {
            Err(ErrorKind::RangeError)
        },
    }
}

/// Reads the form argument of `normalize` (after ToString).
pub fn normalization_form(form: Option<&[u16]>) -> (r: Result<NormalizationForm, ErrorKind>)
    ensures
        r == spec_form(
            match form {
                None => None,
                Some(f) => Some(f@),
            },
        ),
{
    let f = match form {
        None => return Ok(NormalizationForm::Nfc),
        Some(f) => f,
    };
    let nfc_name = name_units(67, 0);
    let nfd_name = name_units(68, 0);
    let nfkc_name = name_units(75, 67);
    let nfkd_name = name_units(75, 68);
    if units_equal(f, nfc_name.as_slice()) {
        Ok(NormalizationForm::Nfc)
    } else if units_equal(f, nfd_name.as_slice()) {
        Ok(NormalizationForm::Nfd)
    } else if units_equal(f, nfkc_name.as_slice()) {
        Ok(NormalizationForm::Nfkc)
    } else if units_equal(f, nfkd_name.as_slice()) {
        Ok(NormalizationForm::Nfkd)
    } else {
        Err(ErrorKind::RangeError)
    }
}

/// The normalization of `cs` in `form`.
pub open spec fn normalized(form: NormalizationForm, cs: Seq<char>) -> Seq<char> {
    match form {
        NormalizationForm::Nfc => nfc(cs),
        NormalizationForm::Nfd => nfd(cs),
        NormalizationForm::Nfkc => nfkc(cs),
        NormalizationForm::Nfkd => nfkd(cs),
    }
}

/// "NF" followed by `a`, and by `b` unless it is 0.
fn name_units(a: u16, b: u16) -> (r: Vec<u16>)
    ensures
        r@ == if b == 0 {
            seq![78u16, 70u16, a]
        } else {
            seq![78u16, 70u16, a, b]
        },
{
    let mut v: Vec<u16> = Vec::new();
    v.push(78);
    v.push(70);
    v.push(a);
    if b != 0 {
        v.push(b);
    }
    proof {
        if b == 0 {
            assert(v@ =~= seq![78u16, 70u16, a]);
        } else {
            assert(v@ =~= seq![78u16, 70u16, a, b]);
        }
    }
    v
}

/// `String.prototype.normalize(form)`: the string read as characters
/// (unpaired surrogates as U+FFFD), normalized, and encoded back to UTF-16.
pub fn string_normalize_method(s: &[u16], form: Option<&[u16]>) -> (r: Result<Vec<u16>, ErrorKind>)
    ensures
        match spec_form(
            match form {
                None => None,
                Some(f) => Some(f@),
            },
        ) {
            Err(e) => r == Err::<Vec<u16>, ErrorKind>(e),
            Ok(f) => r matches Ok(v) && v@ == utf16_encode(normalized(f, lossy_chars(s@))),
        },
{
    let f = match normalization_form(form) {
        Ok(f) => f,
        Err(e) => return Err(e),
    };
    let cs = lossy_char_vec(s);
    let out = match f {
        NormalizationForm::Nfc => nfc_chars(&cs),
        NormalizationForm::Nfd => nfd_chars(&cs),
        NormalizationForm::Nfkc => nfkc_chars(&cs),
        NormalizationForm::Nfkd => nfkd_chars(&cs),
    };
    Ok(encode_chars(&out))
}

} // verus!

//! Primitive operations on UTF-16 code-unit sequences: sub-ranges, searching
//! and the surrogate-pair classification that the string builtins share.
use vstd::prelude::*;

verus! {

/// `pat` occurs in `s` starting at index `i`.
pub open spec fn matches_at(s: Seq<u16>, pat: Seq<u16>, i: int) -> bool {
    &&& 0 <= i
    &&& i + pat.len() <= s.len()
    &&& s.subrange(i, i + pat.len()) == pat
}

/// Index of the first occurrence of `pat` in `s` at or after `from`, or -1.
pub open spec fn first_match(s: Seq<u16>, pat: Seq<u16>, from: int) -> int
    decreases s.len() + 1 - from,
{
    if from < 0 || from + pat.len() > s.len() {
        -1
    } else if matches_at(s, pat, from) {
        from
    } else {
        first_match(s, pat, from + 1)
    }
}

/// Index of the last occurrence of `pat` in `s` that starts at or before `upto`, or -1.
pub open spec fn last_match(s: Seq<u16>, pat: Seq<u16>, upto: int) -> int
    decreases upto + 1,
{
    if upto < 0 {
        -1
    } else if matches_at(s, pat, upto) {
        upto
    } else {
        last_match(s, pat, upto - 1)
    }
}

pub open spec fn is_high_surrogate(c: u16) -> bool {
    0xD800 <= c && c <= 0xDBFF
}

pub open spec fn is_low_surrogate(c: u16) -> bool {
    0xDC00 <= c && c <= 0xDFFF
}

/// The code point encoded by a surrogate pair.
pub open spec fn pair_code_point(hi: u16, lo: u16) -> int {
    0x10000 + (hi - 0xD800) * 0x400 + (lo - 0xDC00)
}

/// `x` clamped to the range `[lo, hi]`.
pub open spec fn clamp(x: int, lo: int, hi: int) -> int {
    if x < lo {
        lo
    } else if x > hi {
        hi
    } else {
        x
    }
}

/// Properties of `first_match` used throughout: its result is a match, and
/// nothing between `from` and the result matches.
pub proof fn lemma_first_match(s: Seq<u16>, pat: Seq<u16>, from: int)
    requires
        0 <= from,
    ensures
        first_match(s, pat, from) == -1 || (from <= first_match(s, pat, from) && matches_at(
            s,
            pat,
            first_match(s, pat, from),
        )),
        forall|k: int|
            from <= k && (first_match(s, pat, from) == -1 || k < first_match(s, pat, from))
                ==> !#[trigger] matches_at(s, pat, k),
    decreases s.len() + 1 - from,
{
    if from + pat.len() > s.len() {
    } else if matches_at(s, pat, from) {
    } else {
        lemma_first_match(s, pat, from + 1);
    }
}

/// A match found past `from` is found by `first_match` no later than there.
pub proof fn lemma_first_match_le(s: Seq<u16>, pat: Seq<u16>, from: int, k: int)
    requires
        0 <= from <= k,
        matches_at(s, pat, k),
    ensures
        first_match(s, pat, from) != -1,
        first_match(s, pat, from) <= k,
    decreases k - from,
{
    if matches_at(s, pat, from) {
    } else {
        lemma_first_match_le(s, pat, from + 1, k);
    }
}

pub proof fn lemma_last_match(s: Seq<u16>, pat: Seq<u16>, upto: int)
    ensures
        last_match(s, pat, upto) == -1 || (last_match(s, pat, upto) <= upto && matches_at(
            s,
            pat,
            last_match(s, pat, upto),
        )),
        forall|k: int|
            k <= upto && last_match(s, pat, upto) < k ==> !#[trigger] matches_at(s, pat, k),
    decreases upto + 1,
{
    if upto < 0 {
    } else if matches_at(s, pat, upto) {
    } else {
        lemma_last_match(s, pat, upto - 1);
    }
}

/// Whether `pat` occurs in `s` at index `i`; false when it does not fit.
pub fn matches_at_exec(s: &[u16], pat: &[u16], i: usize) -> (r: bool)
    ensures
        r == matches_at(s@, pat@, i as int),
{
    if pat.len() > s.len() || i > s.len() - pat.len() {
        return false;
    }
    let mut k: usize = 0;
    while k < pat.len()
        invariant
            k <= pat.len(),
            i + pat.len() <= s.len(),
            forall|j: int| 0 <= j < k ==> s@[i + j] == pat@[j],
        decreases pat.len() - k,
    {
        if s[i + k] != pat[k] {
            assert(s@.subrange(i as int, i + pat.len())[k as int] != pat@[k as int]);
            return false;
        }
        k = k + 1;
    }
    assert(s@.subrange(i as int, i + pat.len()) =~= pat@);
    true
}

/// First occurrence of `pat` in `s` at or after `from`.
pub fn find_from(s: &[u16], pat: &[u16], from: usize) -> (r: Option<usize>)
    ensures
        match r {
            Some(k) => k as int == first_match(s@, pat@, from as int),
            None => first_match(s@, pat@, from as int) == -1,
        },
{
    if pat.len() > s.len() || from > s.len() - pat.len() {
        return None;
    }
    let last = s.len() - pat.len();
    let mut i = from;
    while i <= last
        invariant
            from <= i,
            last + pat.len() == s.len(),
            first_match(s@, pat@, from as int) == first_match(s@, pat@, i as int),
        decreases last + 1 - i,
    {
        if matches_at_exec(s, pat, i) {
            return Some(i);
        }
        if i == last {
            assert(first_match(s@, pat@, i + 1) == -1);
            return None;
        }
        i = i + 1;
    }
    None
}

/// Last occurrence of `pat` in `s` that starts at or before `upto`.
pub fn rfind_upto(s: &[u16], pat: &[u16], upto: usize) -> (r: Option<usize>)
    ensures
        match r {
            Some(k) => k as int == last_match(s@, pat@, upto as int),
            None => last_match(s@, pat@, upto as int) == -1,
        },
{
    let mut i = upto;
    loop
        invariant
            i <= upto,
            last_match(s@, pat@, upto as int) == last_match(s@, pat@, i as int),
        decreases i,
    {
        if matches_at_exec(s, pat, i) {
            return Some(i);
        }
        if i == 0 {
            assert(last_match(s@, pat@, -1) == -1);
            return None;
        }
        i = i - 1;
    }
}

/// A fresh vector holding `s[from..to]`.
pub fn copy_range(s: &[u16], from: usize, to: usize) -> (r: Vec<u16>)
    requires
        from <= to <= s@.len(),
    ensures
        r@ == s@.subrange(from as int, to as int),
{
    let mut r: Vec<u16> = Vec::new();
    let mut i = from;
    while i < to
        invariant
            from <= i <= to <= s@.len(),
            r@ == s@.subrange(from as int, i as int),
        decreases to - i,
    {
        r.push(s[i]);
        i = i + 1;
        assert(r@ =~= s@.subrange(from as int, i as int));
    }
    r
}

/// Appends `s[from..to]` to `out`.
pub fn append_range(out: &mut Vec<u16>, s: &[u16], from: usize, to: usize)
    requires
        from <= to <= s@.len(),
    ensures
        final(out)@ == old(out)@ + s@.subrange(from as int, to as int),
{
    let ghost start = out@;
    let mut i = from;
    while i < to
        invariant
            from <= i <= to <= s@.len(),
            out@ == start + s@.subrange(from as int, i as int),
        decreases to - i,
    {
        out.push(s[i]);
        i = i + 1;
        assert(out@ =~= start + s@.subrange(from as int, i as int));
    }
}

/// Appends all of `s` to `out`.
pub fn append_all(out: &mut Vec<u16>, s: &[u16])
    ensures
        final(out)@ == old(out)@ + s@,
{
    append_range(out, s, 0, s.len());
    assert(s@.subrange(0, s@.len() as int) =~= s@);
}

/// UTF-16 encoding of a sequence of characters.
pub open spec fn utf16_encode(cs: Seq<char>) -> Seq<u16>
    decreases cs.len(),
{
    if cs.len() == 0 {
        Seq::empty()
    } else {
        let n = cs.last() as u32;
        utf16_encode(cs.drop_last()) + if n < 0x10000 {
            seq![n as u16]
        } else {
            seq![(0xD800 + (n - 0x10000) / 0x400) as u16, (0xDC00 + (n - 0x10000) % 0x400) as u16]
        }
    }
}

/// The UTF-16 code units of `cs`.
pub fn encode_chars(cs: &Vec<char>) -> (r: Vec<u16>)
    ensures
        r@ == utf16_encode(cs@),
{
    let mut out: Vec<u16> = Vec::new();
    let mut i: usize = 0;
    while i < cs.len()
        invariant
            i <= cs@.len(),
            out@ == utf16_encode(cs@.take(i as int)),
        decreases cs.len() - i,
    {
        assert(cs@.take(i + 1).drop_last() =~= cs@.take(i as int));
        let n = cs[i] as u32;
        if n < 0x10000 {
            out.push(n as u16);
        } else {
            out.push((0xD800 + (n - 0x10000) / 0x400) as u16);
            out.push((0xDC00 + (n - 0x10000) % 0x400) as u16);
        }
        proof {
            assert(cs@.take(i + 1).last() == cs@[i as int]);
            assert(out@ =~= utf16_encode(cs@.take(i + 1)));
        }
        i = i + 1;
    }
    assert(cs@.take(i as int) =~= cs@);
    out
}

} // verus!

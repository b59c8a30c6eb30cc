//! Index-based `String.prototype` methods over UTF-16 code units.
//!
//! Integer arguments are the results of ToIntegerOrInfinity; `i64::MIN` and
//! `i64::MAX` stand for −∞ and +∞ (every clamp below treats them as such).
use crate::error::ErrorKind;
use crate::utf16::{
    append_all, clamp, copy_range, find_from, first_match, is_high_surrogate, is_low_surrogate,
    last_match, matches_at, matches_at_exec, pair_code_point, rfind_upto,
};
use vstd::prelude::*;

verus! {

pub open spec fn spec_substring(s: Seq<u16>, start: int, end: Option<int>) -> Seq<u16> {
    let len = s.len() as int;
    let a = clamp(start, 0, len);
    let b = match end {
        Some(e) => clamp(e, 0, len),
        None => len,
    };
    if a <= b {
        s.subrange(a, b)
    } else {
        s.subrange(b, a)
    }
}

/// Start index of `substr`: a negative start counts from the end.
pub open spec fn substr_start(len: int, start: int) -> int {
    if start < 0 {
        if len + start < 0 {
            0
        } else {
            len + start
        }
    } else {
        start
    }
}

pub open spec fn spec_substr(s: Seq<u16>, start: int, length: Option<int>) -> Seq<u16> {
    let len = s.len() as int;
    let a = substr_start(len, start);
    let b = match length {
        None => len,
        Some(n) => if n < 0 {
            if a < len { a } else { len }
        } else if a + n < len {
            a + n
        } else {
            len
        },
    };
    if a < b {
        s.subrange(a, b)
    } else {
        Seq::empty()
    }
}

/// A relative index as `slice` reads it: negative values count from the end.
pub open spec fn relative_index(len: int, k: int) -> int {
    if k < 0 {
        if len + k < 0 {
            0
        } else {
            len + k
        }
    } else if k < len {
        k
    } else {
        len
    }
}

pub open spec fn spec_slice(s: Seq<u16>, start: int, end: Option<int>) -> Seq<u16> {
    let len = s.len() as int;
    let from = relative_index(len, start);
    let to = match end {
        Some(e) => relative_index(len, e),
        None => len,
    };
    if from >= to {
        Seq::empty()
    } else {
        s.subrange(from, to)
    }
}

/// An optional integer argument as a mathematical integer.
pub open spec fn opt_int(o: Option<i64>) -> Option<int> {
    match o {
        Some(v) => Some(v as int),
        None => None,
    }
}

/// An optional string argument as its sequence of units.
pub open spec fn opt_units(o: Option<&[u16]>) -> Option<Seq<u16>> {
    match o {
        Some(v) => Some(v@),
        None => None,
    }
}

fn clamp_index(x: i64, len: usize) -> (r: usize)
    ensures
        r as int == clamp(x as int, 0, len as int),
{
    if x < 0 {
        0
    } else if x as u64 >= len as u64 {
        len
    } else {
        x as usize
    }
}

fn relative_index_exec(len: usize, k: i64) -> (r: usize)
    requires
        len <= i64::MAX,
    ensures
        r as int == relative_index(len as int, k as int),
{
    if k < 0 {
        let sum: i64 = len as i64 + k;
        if sum < 0 {
            0
        } else {
            sum as usize
        }
    } else if (k as u64) < len as u64 {
        k as usize
    } else {
        len
    }
}

/// `String.prototype.substring(start, end)`; `end` is `None` when undefined.
pub fn string_substring_method(s: &[u16], start: i64, end: Option<i64>) -> (r: Vec<u16>)
    ensures
        r@ == spec_substring(s@, start as int, opt_int(end)),
{
    let len = s.len();
    let a = clamp_index(start, len);
    let b = match end {
        Some(e) => clamp_index(e, len),
        None => len,
    };
    if a <= b {
        copy_range(s, a, b)
    } else {
        copy_range(s, b, a)
    }
}

/// `String.prototype.substr(start, length)`; `length` is `None` when undefined.
pub fn string_substr_method(s: &[u16], start: i64, length: Option<i64>) -> (r: Vec<u16>)
    requires
        s@.len() <= i64::MAX,
    ensures
        r@ == spec_substr(s@, start as int, opt_int(length)),
{
    let len = s.len();
    let a: u64 = if start < 0 {
        let sum: i64 = len as i64 + start;
        if sum < 0 {
            0
        } else {
            sum as u64
        }
    } else {
        start as u64
    };
    let b: u64 = match length {
        None => len as u64,
        Some(n) => {
            if n < 0 {
                if a < len as u64 {
                    a
                } else {
                    len as u64
                }
            } else if a < len as u64 && (n as u64) < len as u64 - a {
                a + n as u64
            } else {
                len as u64
            }
        },
    };
    if a < b {
        copy_range(s, a as usize, b as usize)
    } else {
        Vec::new()
    }
}

/// `String.prototype.slice(start, end)`; `end` is `None` when undefined.
pub fn string_slice_method(s: &[u16], start: i64, end: Option<i64>) -> (r: Vec<u16>)
    requires
        s@.len() <= i64::MAX,
    ensures
        r@ == spec_slice(s@, start as int, opt_int(end)),
{
    let len = s.len();
    let from = relative_index_exec(len, start);
    let to = match end {
        Some(e) => relative_index_exec(len, e),
        None => len,
    };
    if from >= to {
        Vec::new()
    } else {
        copy_range(s, from, to)
    }
}

/// `String.prototype.indexOf(search, position)`: the first occurrence of
/// `search` at or after the clamped position, or -1.
pub fn string_indexof_method(s: &[u16], search: &[u16], position: i64) -> (r: i64)
    requires
        s@.len() <= i64::MAX,
    ensures
        r as int == first_match(s@, search@, clamp(position as int, 0, s@.len() as int)),
{
    let from = clamp_index(position, s.len());
    proof {
        crate::utf16::lemma_first_match(s@, search@, from as int);
    }
    match find_from(s, search, from) {
        Some(k) => k as i64,
        None => -1,
    }
}

/// The position `lastIndexOf` searches back from: undefined/NaN means the end.
pub open spec fn last_index_position(len: int, position: Option<int>) -> int {
    match position {
        None => len,
        Some(p) => clamp(p, 0, len),
    }
}

/// `String.prototype.lastIndexOf(search, position)`; `position` is `None`
/// when it is undefined or NaN.
pub fn string_lastindexof_method(s: &[u16], search: &[u16], position: Option<i64>) -> (r: i64)
    requires
        s@.len() <= i64::MAX,
    ensures
        r as int == last_match(
            s@,
            search@,
            if last_index_position(s@.len() as int, opt_int(position))
                <= s@.len() - search@.len() {
                last_index_position(s@.len() as int, opt_int(position))
            } else {
                s@.len() - search@.len()
            },
        ),
{
    let len = s.len();
    let pos = match position {
        None => len,
        Some(p) => clamp_index(p, len),
    };
    if search.len() > len {
        assert(last_match(s@, search@, len - search@.len()) == -1);
        return -1;
    }
    let upto = if pos <= len - search.len() {
        pos
    } else {
        len - search.len()
    };
    proof {
        crate::utf16::lemma_last_match(s@, search@, upto as int);
    }
    match rfind_upto(s, search, upto) {
        Some(k) => k as i64,
        None => -1,
    }
}

/// `String.prototype.includes(search, position)`; a RegExp search value is a TypeError.
pub fn string_includes_method(s: &[u16], search: &[u16], position: i64, search_is_regexp: bool) -> (r:
    Result<bool, ErrorKind>)
    ensures
        search_is_regexp ==> r == Err::<bool, ErrorKind>(ErrorKind::TypeError),
        !search_is_regexp ==> r == Ok::<bool, ErrorKind>(
            first_match(s@, search@, clamp(position as int, 0, s@.len() as int)) != -1,
        ),
{
    if search_is_regexp {
        return Err(ErrorKind::TypeError);
    }
    let from = clamp_index(position, s.len());
    Ok(find_from(s, search, from).is_some())
}

/// `String.prototype.startsWith(search, position)`.
pub fn string_starts_with_method(
    s: &[u16],
    search: &[u16],
    position: Option<i64>,
    search_is_regexp: bool,
) -> (r: Result<bool, ErrorKind>)
    ensures
        search_is_regexp ==> r == Err::<bool, ErrorKind>(ErrorKind::TypeError),
        !search_is_regexp ==> r == Ok::<bool, ErrorKind>(
            matches_at(
                s@,
                search@,
                match position {
                    Some(p) => clamp(p as int, 0, s@.len() as int),
                    None => 0,
                },
            ),
        ),
{
    if search_is_regexp {
        return Err(ErrorKind::TypeError);
    }
    let pos = match position {
        Some(p) => clamp_index(p, s.len()),
        None => 0,
    };
    Ok(matches_at_exec(s, search, pos))
}

/// `String.prototype.endsWith(search, endPosition)`.
pub fn string_ends_with_method(
    s: &[u16],
    search: &[u16],
    end_position: Option<i64>,
    search_is_regexp: bool,
) -> (r: Result<bool, ErrorKind>)
    ensures
        search_is_regexp ==> r == Err::<bool, ErrorKind>(ErrorKind::TypeError),
        !search_is_regexp ==> r == Ok::<bool, ErrorKind>(
            {
                let end = match end_position {
                    Some(p) => clamp(p as int, 0, s@.len() as int),
                    None => s@.len() as int,
                };
                search@.len() <= end && matches_at(s@, search@, end - search@.len())
            },
        ),
{
    if search_is_regexp {
        return Err(ErrorKind::TypeError);
    }
    let end = match end_position {
        Some(p) => clamp_index(p, s.len()),
        None => s.len(),
    };
    if search.len() > end {
        Ok(false)
    } else {
        Ok(matches_at_exec(s, search, end - search.len()))
    }
}

/// `String.prototype.charAt(pos)`: the unit at `pos` as a string, or "".
pub fn string_charat_method(s: &[u16], pos: i64) -> (r: Vec<u16>)
    ensures
        r@ == (if 0 <= pos < s@.len() {
            seq![s@[pos as int]]
        } else {
            Seq::<u16>::empty()
        }),
{
    let mut r = Vec::new();
    if pos >= 0 && (pos as u64) < s.len() as u64 {
        r.push(s[pos as usize]);
        assert(r@ =~= seq![s@[pos as int]]);
    }
    r
}

/// `String.prototype.charCodeAt(pos)`: `None` stands for NaN.
pub fn string_char_code_at_method(s: &[u16], pos: i64) -> (r: Option<u16>)
    ensures
        r == (if 0 <= pos < s@.len() {
            Some(s@[pos as int])
        } else {
            None::<u16>
        }),
{
    if pos >= 0 && (pos as u64) < s.len() as u64 {
        Some(s[pos as usize])
    } else {
        None
    }
}

/// `String.prototype.at(index)`: negative indices count from the end;
/// `None` stands for undefined.
pub fn string_at_method(s: &[u16], index: i64) -> (r: Option<u16>)
    requires
        s@.len() <= i64::MAX,
    ensures
        r == ({
            let k = if index >= 0 {
                index as int
            } else {
                s@.len() + index
            };
            if 0 <= k < s@.len() {
                Some(s@[k])
            } else {
                None::<u16>
            }
        }),
{
    let len = s.len() as i64;
    let k: i64 = if index >= 0 {
        index
    } else {
        len + index
    };
    if k < 0 || k >= len {
        None
    } else {
        Some(s[k as usize])
    }
}

/// The code point that starts at index `i`: a surrogate pair is combined,
/// any other unit stands for itself.
pub open spec fn code_point_at(s: Seq<u16>, i: int) -> int {
    if is_high_surrogate(s[i]) && i + 1 < s.len() && is_low_surrogate(s[i + 1]) {
        pair_code_point(s[i], s[i + 1])
    } else {
        s[i] as int
    }
}

/// `String.prototype.codePointAt(pos)`: `None` stands for undefined.
pub fn string_code_point_at_method(s: &[u16], pos: i64) -> (r: Option<u32>)
    ensures
        r == (if 0 <= pos < s@.len() {
            Some(code_point_at(s@, pos as int) as u32)
        } else {
            None::<u32>
        }),
{
    if pos < 0 || (pos as u64) >= s.len() as u64 {
        return None;
    }
    let idx = pos as usize;
    let first = s[idx];
    if 0xD800 <= first && first <= 0xDBFF && idx + 1 < s.len() {
        let second = s[idx + 1];
        if 0xDC00 <= second && second <= 0xDFFF {
            let code_point: u32 = 0x10000 + ((first as u32 - 0xD800) * 0x400) + (second as u32
                - 0xDC00);
            return Some(code_point);
        }
    }
    Some(first as u32)
}

/// `s` repeated `n` times.
pub open spec fn spec_repeat(s: Seq<u16>, n: nat) -> Seq<u16>
    decreases n,
{
    if n == 0 {
        Seq::empty()
    } else {
        spec_repeat(s, (n - 1) as nat) + s
    }
}

pub proof fn lemma_repeat_len(s: Seq<u16>, n: nat)
    ensures
        spec_repeat(s, n).len() == n * s.len(),
    decreases n,
{
    if n > 0 {
        lemma_repeat_len(s, (n - 1) as nat);
        let m = (n - 1) as nat;
        assert(spec_repeat(s, n) == spec_repeat(s, m) + s);
        assert(n * s.len() == m * s.len() + s.len()) by (nonlinear_arith)
            requires
                m + 1 == n,
        ;
    } else {
        assert(n * s.len() == 0) by (nonlinear_arith)
            requires
                n == 0,
        ;
    }
}

/// `String.prototype.repeat(count)`: a negative or infinite (`i64::MAX`)
/// count is a RangeError.
pub fn string_repeat_method(s: &[u16], count: i64) -> (r: Result<Vec<u16>, ErrorKind>)
    requires
        count < 0 || count == i64::MAX || count as int * s@.len() <= usize::MAX,
    ensures
        (count < 0 || count == i64::MAX) ==> r == Err::<Vec<u16>, ErrorKind>(ErrorKind::RangeError),
        !(count < 0 || count == i64::MAX) ==> r is Ok && r->Ok_0@ == spec_repeat(
            s@,
            count as nat,
        ),
{
    if count < 0 || count == i64::MAX {
        return Err(ErrorKind::RangeError);
    }
    let mut out: Vec<u16> = Vec::new();
    if s.len() == 0 {
        proof {
            lemma_repeat_len(s@, count as nat);
        }
        assert(out@ =~= spec_repeat(s@, count as nat));
        return Ok(out);
    }
    let mut i: i64 = 0;
    while i < count
        invariant
            0 <= i <= count,
            out@ == spec_repeat(s@, i as nat),
        decreases count - i,
    {
        append_all(&mut out, s);
        i = i + 1;
    }
    Ok(out)
}

/// The first `n` units of `fill` repeated end to end.
pub open spec fn spec_cycle(fill: Seq<u16>, n: nat) -> Seq<u16> {
    Seq::new(n, |i: int| fill[i % (fill.len() as int)])
}

/// The padding `padStart`/`padEnd` produce for a string of length `len`,
/// or `None` when no padding is added.
pub open spec fn spec_padding(len: int, max_length: int, fill: Option<Seq<u16>>) -> Option<Seq<u16>> {
    let f = match fill {
        Some(f) => f,
        None => seq![0x0020u16],
    };
    if max_length <= len || f.len() == 0 {
        None
    } else {
        Some(spec_cycle(f, (max_length - len) as nat))
    }
}

fn make_padding(fill: &[u16], n: usize) -> (r: Vec<u16>)
    requires
        fill@.len() > 0,
    ensures
        r@ == spec_cycle(fill@, n as nat),
{
    let mut r: Vec<u16> = Vec::new();
    let mut i: usize = 0;
    while i < n
        invariant
            i <= n,
            fill@.len() > 0,
            r@ == spec_cycle(fill@, i as nat),
        decreases n - i,
    {
        r.push(fill[i % fill.len()]);
        i = i + 1;
        assert(r@ =~= spec_cycle(fill@, i as nat));
    }
    r
}

/// `String.prototype.padStart(maxLength, fillString)`; `fill` is `None`
/// when the fill string is undefined.
pub fn string_pad_start_method(s: &[u16], max_length: i64, fill: Option<&[u16]>) -> (r: Vec<u16>)
    requires
        max_length <= usize::MAX,
    ensures
        r@ == match spec_padding(s@.len() as int, max_length as int, opt_units(fill)) {
            Some(p) => p + s@,
            None => s@,
        },
{
    let space: [u16; 1] = [0x0020];
    let f: &[u16] = match fill {
        Some(f) => f,
        None => &space,
    };
    assert(fill is None ==> f@ =~= seq![0x0020u16]);
    if max_length < 0 || max_length as u64 <= s.len() as u64 || f.len() == 0 {
        return copy_range(s, 0, s.len());
    }
    let mut out = make_padding(f, max_length as usize - s.len());
    append_all(&mut out, s);
    out
}

/// `String.prototype.padEnd(maxLength, fillString)`.
pub fn string_pad_end_method(s: &[u16], max_length: i64, fill: Option<&[u16]>) -> (r: Vec<u16>)
    requires
        max_length <= usize::MAX,
    ensures
        r@ == match spec_padding(s@.len() as int, max_length as int, opt_units(fill)) {
            Some(p) => s@ + p,
            None => s@,
        },
{
    let space: [u16; 1] = [0x0020];
    let f: &[u16] = match fill {
        Some(f) => f,
        None => &space,
    };
    assert(fill is None ==> f@ =~= seq![0x0020u16]);
    if max_length < 0 || max_length as u64 <= s.len() as u64 || f.len() == 0 {
        return copy_range(s, 0, s.len());
    }
    let pad = make_padding(f, max_length as usize - s.len());
    let mut out = copy_range(s, 0, s.len());
    append_all(&mut out, &pad);
    out
}

/// All the strings of `parts` joined end to end.
pub open spec fn flatten(parts: Seq<Vec<u16>>) -> Seq<u16>
    decreases parts.len(),
{
    if parts.len() == 0 {
        Seq::empty()
    } else {
        flatten(parts.drop_last()) + parts.last()@
    }
}

/// `String.prototype.concat(...args)` with every argument already converted to a string.
pub fn string_concat_method(s: &[u16], args: &Vec<Vec<u16>>) -> (r: Vec<u16>)
    ensures
        r@ == s@ + flatten(args@),
{
    let mut out = copy_range(s, 0, s.len());
    let mut i: usize = 0;
    while i < args.len()
        invariant
            i <= args@.len(),
            out@ == s@ + flatten(args@.subrange(0, i as int)),
        decreases args.len() - i,
    {
        append_all(&mut out, args[i].as_slice());
        i = i + 1;
        assert(args@.subrange(0, i as int).drop_last() =~= args@.subrange(0, i - 1));
    }
    assert(args@.subrange(0, args@.len() as int) =~= args@);
    out
}


/// `substring` does not care in which order its bounds come:
/// `s.substring(a, b)` and `s.substring(b, a)` are the same string.
pub proof fn law_substring_symmetric(s: Seq<u16>, a: int, b: int)
    ensures
        spec_substring(s, a, Some(b)) == spec_substring(s, b, Some(a)),
{
}

/// What `padStart` and `padEnd` add brings the string to exactly
/// `max_length` units, and repeats the fill string from its start; the
/// string itself is kept whole.
pub proof fn law_padding_length(len: int, max_length: int, fill: Option<Seq<u16>>)
    requires
        0 <= len,
    ensures
        spec_padding(len, max_length, fill) matches Some(p) ==> {
            let f = match fill {
                Some(f) => f,
                None => seq![0x0020u16],
            };
            &&& p.len() + len == max_length
            &&& forall|i: int| 0 <= i < p.len() ==> #[trigger] p[i] == f[i % f.len() as int]
        },
{
}

/// `slice`, `substring` and `substr` with in-range arguments: for
/// `0 <= a <= b <= len`, `slice(a, b)` and `substring(a, b)` are the units
/// from `a` up to (not including) `b`, `substring(b, a)` the same, and
/// `substr(a, b - a)` too; without an end they run to the end of the
/// string; `slice(-k)` and `substr(-k)` are the last `k` units, and
/// `substring(-k, b)` starts at 0.
pub proof fn law_string_ranges(s: Seq<u16>, a: int, b: int, k: int)
    requires
        0 <= a <= b <= s.len(),
        0 < k <= s.len(),
    ensures
        spec_slice(s, a, Some(b)) == s.subrange(a, b),
        spec_slice(s, a, None) == s.subrange(a, s.len() as int),
        spec_slice(s, -k, None) == s.subrange(s.len() - k, s.len() as int),
        spec_substring(s, a, Some(b)) == s.subrange(a, b),
        spec_substring(s, b, Some(a)) == s.subrange(a, b),
        spec_substring(s, a, None) == s.subrange(a, s.len() as int),
        spec_substring(s, -k, Some(b)) == s.subrange(0, b),
        spec_substr(s, a, Some(b - a)) == s.subrange(a, b),
        spec_substr(s, a, None) == s.subrange(a, s.len() as int),
        spec_substr(s, -k, None) == s.subrange(s.len() - k, s.len() as int),
        spec_slice(s, b, Some(a)).len() == 0 || a == b,
{
    assert(s.subrange(a, a).len() == 0);
}

/// `indexOf(p, from)` is the first place at or after `from` where `p`
/// occurs, or -1 when it occurs nowhere from there.
pub proof fn law_index_of_finds_first(s: Seq<u16>, p: Seq<u16>, from: int)
    requires
        0 <= from,
    ensures
        first_match(s, p, from) != -1 ==> {
            let r = first_match(s, p, from);
            &&& from <= r && r + p.len() <= s.len()
            &&& s.subrange(r, r + p.len()) == p
            &&& forall|k: int| from <= k < r && k + p.len() <= s.len() ==> #[trigger] s.subrange(k, k + p.len()) != p
        },
        first_match(s, p, from) == -1 ==> forall|k: int|
            from <= k && k + p.len() <= s.len() ==> #[trigger] s.subrange(k, k + p.len()) != p,
{
    crate::utf16::lemma_first_match(s, p, from);
    assert forall|k: int| from <= k && k + p.len() <= s.len() && (first_match(s, p, from) == -1
        || k < first_match(s, p, from)) implies #[trigger] s.subrange(k, k + p.len()) != p by {
        assert(!crate::utf16::matches_at(s, p, k));
    }
}

/// `lastIndexOf(p)` searching back from `upto` is the last place at or
/// before `upto` where `p` occurs, or -1 when it occurs nowhere there.
pub proof fn law_last_index_of_finds_last(s: Seq<u16>, p: Seq<u16>, upto: int)
    ensures
        last_match(s, p, upto) != -1 ==> {
            let r = last_match(s, p, upto);
            &&& 0 <= r <= upto && r + p.len() <= s.len()
            &&& s.subrange(r, r + p.len()) == p
            &&& forall|k: int| r < k <= upto && k + p.len() <= s.len() ==> #[trigger] s.subrange(k, k + p.len()) != p
        },
        last_match(s, p, upto) == -1 ==> forall|k: int|
            0 <= k <= upto && k + p.len() <= s.len() ==> #[trigger] s.subrange(k, k + p.len()) != p,
{
    crate::utf16::lemma_last_match(s, p, upto);
    assert forall|k: int| 0 <= k <= upto && k + p.len() <= s.len() && last_match(s, p, upto) < k implies #[trigger] s.subrange(k, k + p.len()) != p by {
        assert(!crate::utf16::matches_at(s, p, k));
    }
}

/// The position arguments of `indexOf` and `lastIndexOf`: a position in
/// `0..=len` is taken as it is, a negative one as 0 and a larger one as
/// `len`; `lastIndexOf` without a position (or with NaN) searches back from
/// the end.
pub proof fn law_search_positions(len: int, p: int)
    requires
        0 <= len,
    ensures
        0 <= p <= len ==> clamp(p, 0, len) == p && last_index_position(len, Some(p)) == p,
        p < 0 ==> clamp(p, 0, len) == 0 && last_index_position(len, Some(p)) == 0,
        p > len ==> clamp(p, 0, len) == len && last_index_position(len, Some(p)) == len,
        last_index_position(len, None) == len,
{
}

} // verus!

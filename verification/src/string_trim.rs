//! `String.prototype.trim`, `trimStart` and `trimEnd` over UTF-16 code units.
use vstd::prelude::*;

verus! {

/// ECMAScript WhiteSpace or LineTerminator code unit.
pub open spec fn spec_is_es_whitespace(ch: u16) -> bool {
    ||| ch == 0x0009 || ch == 0x000A || ch == 0x000B || ch == 0x000C || ch == 0x000D
    ||| ch == 0x0020 || ch == 0x00A0 || ch == 0x1680
    ||| (0x2000 <= ch && ch <= 0x200A)
    ||| ch == 0x2028 || ch == 0x2029 || ch == 0x202F || ch == 0x205F || ch == 0x3000
    ||| ch == 0xFEFF
}

/// Index of the first non-white-space unit at or after `i` (or `s.len()`).
pub open spec fn first_non_ws(s: Seq<u16>, i: nat) -> nat
    decreases s.len() - i,
{
    if i >= s.len() {
        s.len()
    } else if !spec_is_es_whitespace(s[i as int]) {
        i
    } else {
        first_non_ws(s, i + 1)
    }
}

/// Length of the prefix of `s[..j]` that ends in a non-white-space unit (0 if none).
pub open spec fn trim_end_len(s: Seq<u16>, j: nat) -> nat
    decreases j,
{
    if j == 0 {
        0
    } else if !spec_is_es_whitespace(s[j - 1]) {
        j
    } else {
        trim_end_len(s, (j - 1) as nat)
    }
}

pub open spec fn spec_trim_start(s: Seq<u16>) -> Seq<u16> {
    s.subrange(first_non_ws(s, 0) as int, s.len() as int)
}

pub open spec fn spec_trim_end(s: Seq<u16>) -> Seq<u16> {
    s.subrange(0, trim_end_len(s, s.len()) as int)
}

pub open spec fn spec_trim(s: Seq<u16>) -> Seq<u16> {
    let a = first_non_ws(s, 0);
    let b = trim_end_len(s, s.len());
    if b < a {
        s.subrange(a as int, a as int)
    } else {
        s.subrange(a as int, b as int)
    }
}

pub proof fn lemma_first_non_ws(s: Seq<u16>, i: nat)
    requires
        i <= s.len(),
    ensures
        i <= first_non_ws(s, i) <= s.len(),
        first_non_ws(s, i) < s.len() ==> !spec_is_es_whitespace(s[first_non_ws(s, i) as int]),
        forall|k: int| i <= k < first_non_ws(s, i) ==> spec_is_es_whitespace(#[trigger] s[k]),
    decreases s.len() - i,
{
    if i < s.len() && spec_is_es_whitespace(s[i as int]) {
        lemma_first_non_ws(s, i + 1);
    }
}

pub proof fn lemma_trim_end_len(s: Seq<u16>, j: nat)
    requires
        j <= s.len(),
    ensures
        trim_end_len(s, j) <= j,
        trim_end_len(s, j) > 0 ==> !spec_is_es_whitespace(s[trim_end_len(s, j) - 1]),
        forall|k: int| trim_end_len(s, j) <= k < j ==> spec_is_es_whitespace(#[trigger] s[k]),
    decreases j,
{
    if j > 0 && spec_is_es_whitespace(s[j - 1]) {
        lemma_trim_end_len(s, (j - 1) as nat);
    }
}

pub fn is_es_whitespace(ch: u16) -> (r: bool)
    ensures
        r == spec_is_es_whitespace(ch),
{
    ch == 0x0009 || ch == 0x000A || ch == 0x000B || ch == 0x000C || ch == 0x000D || ch == 0x0020
        || ch == 0x00A0 || ch == 0x1680 || (0x2000 <= ch && ch <= 0x200A) || ch == 0x2028 || ch
        == 0x2029 || ch == 0x202F || ch == 0x205F || ch == 0x3000 || ch == 0xFEFF
}

fn first_non_ws_index(s: &[u16]) -> (r: usize)
    ensures
        r == first_non_ws(s@, 0),
{
    let mut i: usize = 0;
    while i < s.len()
        invariant
            i <= s@.len(),
            first_non_ws(s@, 0) == first_non_ws(s@, i as nat),
        decreases s.len() - i,
    {
        if !is_es_whitespace(s[i]) {
            return i;
        }
        i = i + 1;
    }
    i
}

fn trimmed_end_len(s: &[u16]) -> (r: usize)
    ensures
        r == trim_end_len(s@, s@.len()),
{
    let mut j: usize = s.len();
    while j > 0
        invariant
            j <= s@.len(),
            trim_end_len(s@, s@.len()) == trim_end_len(s@, j as nat),
        decreases j,
    {
        if !is_es_whitespace(s[j - 1]) {
            return j;
        }
        j = j - 1;
    }
    0
}

/// `String.prototype.trim`: removes leading and trailing white space.
pub fn es_trim(s: &[u16]) -> (r: Vec<u16>)
    ensures
        r@ == spec_trim(s@),
{
    let a = first_non_ws_index(s);
    let b = trimmed_end_len(s);
    proof {
        lemma_first_non_ws(s@, 0);
        lemma_trim_end_len(s@, s@.len());
    }
    if b < a {
        Vec::new()
    } else {
        crate::utf16::copy_range(s, a, b)
    }
}

/// `String.prototype.trimStart`: removes leading white space.
pub fn es_trim_start(s: &[u16]) -> (r: Vec<u16>)
    ensures
        r@ == spec_trim_start(s@),
{
    let a = first_non_ws_index(s);
    proof {
        lemma_first_non_ws(s@, 0);
    }
    crate::utf16::copy_range(s, a, s.len())
}

/// `String.prototype.trimEnd`: removes trailing white space.
pub fn es_trim_end(s: &[u16]) -> (r: Vec<u16>)
    ensures
        r@ == spec_trim_end(s@),
{
    let b = trimmed_end_len(s);
    proof {
        lemma_trim_end_len(s@, s@.len());
    }
    crate::utf16::copy_range(s, 0, b)
}


/// A space separator (Unicode category Zs) in UTF-16.
pub open spec fn space_separator_unit(c: u16) -> bool {
    c == 0x0020 || c == 0x00A0 || c == 0x1680 || (0x2000 <= c && c <= 0x200A) || c == 0x202F
        || c == 0x205F || c == 0x3000
}

/// The ECMAScript WhiteSpace production: TAB, VT, FF, ZWNBSP and the space
/// separators.
pub open spec fn white_space_production(c: u16) -> bool {
    c == 0x0009 || c == 0x000B || c == 0x000C || c == 0xFEFF || space_separator_unit(c)
}

/// The ECMAScript LineTerminator production: LF, CR, LS and PS.
pub open spec fn line_terminator_production(c: u16) -> bool {
    c == 0x000A || c == 0x000D || c == 0x2028 || c == 0x2029
}

/// The units that the string methods treat as white space are exactly those
/// that the WhiteSpace and LineTerminator productions name.
pub proof fn law_white_space_is_the_grammar(c: u16)
    ensures
        spec_is_es_whitespace(c) <==> white_space_production(c) || line_terminator_production(c),
{
}

/// `trim` removes exactly the units of the WhiteSpace and LineTerminator
/// productions from both ends: what it returns is the piece of `s` from `a`
/// to `b`, every unit before `a` and from `b` on is such a unit, and the
/// piece neither starts nor ends with one. `trimStart` and `trimEnd` keep
/// the rest from `a`, and the part up to `b`.
pub proof fn law_trim_strips_grammar_white_space(s: Seq<u16>)
    ensures
        ({
            let a = first_non_ws(s, 0) as int;
            let b = trim_end_len(s, s.len()) as int;
            &&& 0 <= a <= s.len() && 0 <= b <= s.len()
            &&& spec_trim(s) == (if a < b {
                s.subrange(a, b)
            } else {
                Seq::<u16>::empty()
            })
            &&& spec_trim_start(s) == s.subrange(a, s.len() as int)
            &&& spec_trim_end(s) == s.subrange(0, b)
            &&& forall|k: int|
                0 <= k < a ==> white_space_production(#[trigger] s[k]) || line_terminator_production(
                    s[k],
                )
            &&& forall|k: int|
                b <= k < s.len() ==> white_space_production(#[trigger] s[k])
                    || line_terminator_production(s[k])
            &&& a < s.len() ==> !white_space_production(s[a]) && !line_terminator_production(s[a])
            &&& b > 0 ==> !white_space_production(s[b - 1]) && !line_terminator_production(s[b - 1])
            &&& a >= b ==> forall|k: int|
                0 <= k < s.len() ==> white_space_production(#[trigger] s[k])
                    || line_terminator_production(s[k])
        }),
{
    lemma_first_non_ws(s, 0);
    lemma_trim_end_len(s, s.len());
    let a = first_non_ws(s, 0) as int;
    let b = trim_end_len(s, s.len()) as int;
    assert forall|c: u16| spec_is_es_whitespace(c) <==> white_space_production(c)
        || line_terminator_production(c) by {
        law_white_space_is_the_grammar(c);
    }
    if a >= b {
        assert(s.subrange(a, a) =~= Seq::<u16>::empty());
        assert forall|k: int| 0 <= k < s.len() implies white_space_production(#[trigger] s[k])
            || line_terminator_production(s[k]) by {
            if k >= a {
                assert(spec_is_es_whitespace(s[k]));
            }
        }
    }
}

/// Trimming is idempotent: what `trim`, `trimStart` or `trimEnd` returns
/// has no white space left at the end(s) it trims, so trimming it again
/// gives it back unchanged.
pub proof fn law_trim_idempotent(s: Seq<u16>)
    ensures
        spec_trim(spec_trim(s)) == spec_trim(s),
        spec_trim_start(spec_trim_start(s)) == spec_trim_start(s),
        spec_trim_end(spec_trim_end(s)) == spec_trim_end(s),
{
    lemma_first_non_ws(s, 0);
    lemma_trim_end_len(s, s.len());
    let a = first_non_ws(s, 0);
    let b = trim_end_len(s, s.len());
    let t = spec_trim(s);
    if a < b {
        assert(t[0] == s[a as int]);
        assert(t[t.len() - 1] == s[b - 1]);
        assert(first_non_ws(t, 0) == 0);
        assert(trim_end_len(t, t.len()) == t.len());
    } else {
        assert(t.len() == 0);
        assert(first_non_ws(t, 0) == 0);
        assert(trim_end_len(t, t.len()) == 0);
    }
    assert(spec_trim(t) =~= t);
    let u = spec_trim_start(s);
    if u.len() > 0 {
        assert(u[0] == s[a as int]);
    }
    assert(first_non_ws(u, 0) == 0);
    assert(spec_trim_start(u) =~= u);
    let v = spec_trim_end(s);
    if v.len() > 0 {
        assert(v[v.len() - 1] == s[b - 1]);
    }
    assert(trim_end_len(v, v.len()) == v.len());
    assert(spec_trim_end(v) =~= v);
}

} // verus!

//! Regular expressions: the pattern handed to the `regress` engine, the
//! successive matches a replace uses, and `String.prototype.replace` with a
//! regular expression and a string replacement (or, for a replacement
//! function, the splice of the texts it returned).
use crate::string_replace::{expand_from, expand_replacement_tokens, ReplaceContext, SubstitutionView};
use crate::utf16::{
    append_range, copy_range, encode_chars, is_high_surrogate, is_low_surrogate, pair_code_point,
    utf16_encode,
};
use vstd::prelude::*;

verus! {

#[verifier::external_type_specification]
#[verifier::external_body]
pub struct ExRegex(regress::Regex);

// ---------------------------------------------------------------------------
// The pattern as code points.

/// A surrogate pair at `i`.
pub open spec fn pair_at(p: Seq<u16>, i: int) -> bool {
    0 <= i && i + 1 < p.len() && is_high_surrogate(p[i]) && is_low_surrogate(p[i + 1])
}

/// The code points of a group name from `i` up to and including its `>`:
/// surrogate pairs are joined so that the name is a valid identifier.
pub open spec fn name_part(p: Seq<u16>, i: int) -> Seq<u32>
    decreases p.len() - i,
{
    if i < 0 || i >= p.len() {
        Seq::empty()
    } else if p[i] == 62 {
        seq![62u32]
    } else if pair_at(p, i) {
        seq![pair_code_point(p[i], p[i + 1]) as u32] + name_part(p, i + 2)
    } else {
        seq![p[i] as u32] + name_part(p, i + 1)
    }
}

/// The position after the group name that starts at `i`.
pub open spec fn name_end(p: Seq<u16>, i: int) -> int
    decreases p.len() - i,
{
    if i < 0 || i >= p.len() {
        i
    } else if p[i] == 62 {
        i + 1
    } else if pair_at(p, i) {
        name_end(p, i + 2)
    } else {
        name_end(p, i + 1)
    }
}

/// `(?<` opens a named group here (and not a lookbehind).
pub open spec fn named_group_at(p: Seq<u16>, i: int) -> bool {
    &&& 0 <= i && i + 3 <= p.len()
    &&& p[i] == 40 && p[i + 1] == 63 && p[i + 2] == 60
    &&& !(i + 3 < p.len() && (p[i + 3] == 61 || p[i + 3] == 33))
}

/// `(?<=` or `(?<!` starts here.
pub open spec fn lookbehind_at(p: Seq<u16>, i: int) -> bool {
    &&& 0 <= i && i + 3 < p.len()
    &&& p[i] == 40 && p[i + 1] == 63 && p[i + 2] == 60
    &&& (p[i + 3] == 61 || p[i + 3] == 33)
}

/// `\k<` starts a named backreference here.
pub open spec fn backref_at(p: Seq<u16>, i: int) -> bool {
    0 <= i && i + 3 <= p.len() && p[i] == 92 && p[i + 1] == 107 && p[i + 2] == 60
}

/// The code points handed to the engine for a pattern without the `u` or
/// `v` flag, from position `i`: code units pass one for one (an escape with
/// the unit after it), except inside group names.
pub open spec fn preprocess_from(p: Seq<u16>, i: int) -> Seq<u32>
    decreases p.len() - i,
{
    if i < 0 || i >= p.len() {
        Seq::empty()
    } else if lookbehind_at(p, i) {
        seq![40u32] + preprocess_from(p, i + 1)
    } else if named_group_at(p, i) || backref_at(p, i) {
        let head = if named_group_at(p, i) {
            seq![40u32, 63u32, 60u32]
        } else {
            seq![92u32, 107u32, 60u32]
        };
        let e = name_end(p, i + 3);
        if i < e <= p.len() {
            head + name_part(p, i + 3) + preprocess_from(p, e)
        } else {
            Seq::empty()
        }
    } else if p[i] == 92 && i + 1 < p.len() {
        seq![92u32, p[i + 1] as u32] + preprocess_from(p, i + 2)
    } else {
        seq![p[i] as u32] + preprocess_from(p, i + 1)
    }
}

proof fn lemma_name_end(p: Seq<u16>, i: int)
    requires
        0 <= i <= p.len(),
    ensures
        i <= name_end(p, i) <= p.len(),
    decreases p.len() - i,
{
    if i < p.len() && p[i] != 62 {
        if pair_at(p, i) {
            lemma_name_end(p, i + 2);
        } else {
            lemma_name_end(p, i + 1);
        }
    }
}

/// Appends the group name starting at `i`; returns the position after it.
fn copy_name(p: &[u16], i: usize, out: &mut Vec<u32>) -> (e: usize)
    requires
        i <= p@.len(),
    ensures
        e as int == name_end(p@, i as int),
        final(out)@ == old(out)@ + name_part(p@, i as int),
{
    let n = p.len();
    let mut j = i;
    proof {
        lemma_name_end(p@, i as int);
    }
    while j < n && p[j] != 62
        invariant
            n == p@.len(),
            i <= j <= n,
            name_end(p@, j as int) == name_end(p@, i as int),
            out@ + name_part(p@, j as int) == old(out)@ + name_part(p@, i as int),
        decreases n - j,
    {
        let ghost o = out@;
        if j + 1 < n && 0xD800 <= p[j] && p[j] <= 0xDBFF && 0xDC00 <= p[j + 1] && p[j + 1] <= 0xDFFF {
            let cp = 0x10000 + ((p[j] as u32 - 0xD800) * 1024) + (p[j + 1] as u32 - 0xDC00);
            out.push(cp);
            proof {
                assert(pair_at(p@, j as int));
                assert(cp == pair_code_point(p@[j as int], p@[j + 1]) as u32);
                assert(out@ + name_part(p@, j + 2) =~= o + name_part(p@, j as int));
            }
            j = j + 2;
        } else {
            out.push(p[j] as u32);
            proof {
                assert(!pair_at(p@, j as int));
                assert(out@ + name_part(p@, j + 1) =~= o + name_part(p@, j as int));
            }
            j = j + 1;
        }
    }
    if j < n {
        let ghost o = out@;
        out.push(62);
        proof {
            assert(name_part(p@, j as int) =~= seq![62u32]);
            assert(out@ =~= o + name_part(p@, j as int));
        }
        return j + 1;
    }
    proof {
        assert(name_part(p@, j as int) =~= Seq::<u32>::empty());
        assert(out@ =~= old(out)@ + name_part(p@, i as int));
    }
    j
}

/// The code points the engine reads for a pattern without the `u` or `v`
/// flag: code units one for one, but surrogate pairs inside group names
/// (`(?<name>` and `\k<name>`) joined into code points.
pub fn preprocess_pattern_non_unicode(pattern: &[u16]) -> (r: Vec<u32>)
    ensures
        r@ == preprocess_from(pattern@, 0),
{
    let n = pattern.len();
    let mut out: Vec<u32> = Vec::new();
    let mut i: usize = 0;
    while i < n
        invariant
            n == pattern@.len(),
            i <= n,
            out@ + preprocess_from(pattern@, i as int) == preprocess_from(pattern@, 0),
        decreases n - i,
    {
        let ghost o = out@;
        let ghost p = pattern@;
        if n - i >= 3 && pattern[i] == 40 && pattern[i + 1] == 63 && pattern[i + 2] == 60 {
            if n - i > 3 && (pattern[i + 3] == 61 || pattern[i + 3] == 33) {
                out.push(40);
                proof {
                    assert(lookbehind_at(p, i as int));
                    assert(out@ + preprocess_from(p, i + 1) =~= o + preprocess_from(p, i as int));
                }
                i = i + 1;
            } else {
                out.push(40);
                out.push(63);
                out.push(60);
                let ghost h = out@;
                let e = copy_name(pattern, i + 3, &mut out);
                proof {
                    assert(named_group_at(p, i as int));
                    assert(!lookbehind_at(p, i as int));
                    lemma_name_end(p, i + 3);
                    assert(out@ + preprocess_from(p, e as int) =~= o + preprocess_from(p, i as int));
                }
                i = e;
            }
        } else if n - i >= 3 && pattern[i] == 92 && pattern[i + 1] == 107 && pattern[i + 2] == 60 {
            out.push(92);
            out.push(107);
            out.push(60);
            let e = copy_name(pattern, i + 3, &mut out);
            proof {
                assert(backref_at(p, i as int));
                assert(!named_group_at(p, i as int) && !lookbehind_at(p, i as int));
                lemma_name_end(p, i + 3);
                assert(out@ + preprocess_from(p, e as int) =~= o + preprocess_from(p, i as int));
            }
            i = e;
        } else if pattern[i] == 92 && i + 1 < n {
            out.push(92);
            out.push(pattern[i + 1] as u32);
            proof {
                assert(!named_group_at(p, i as int) && !lookbehind_at(p, i as int) && !backref_at(
                    p,
                    i as int,
                ));
                assert(out@ + preprocess_from(p, i + 2) =~= o + preprocess_from(p, i as int));
            }
            i = i + 2;
        } else {
            out.push(pattern[i] as u32);
            proof {
                assert(!named_group_at(p, i as int) && !lookbehind_at(p, i as int) && !backref_at(
                    p,
                    i as int,
                ));
                assert(out@ + preprocess_from(p, i + 1) =~= o + preprocess_from(p, i as int));
            }
            i = i + 1;
        }
    }
    assert(out@ =~= out@ + preprocess_from(pattern@, i as int));
    out
}

/// The code points of a pattern with the `u` or `v` flag: surrogate pairs
/// joined, lone surrogates kept as they are.
pub open spec fn code_points_from(p: Seq<u16>, i: int) -> Seq<u32>
    decreases p.len() - i,
{
    if i < 0 || i >= p.len() {
        Seq::empty()
    } else if pair_at(p, i) {
        seq![pair_code_point(p[i], p[i + 1]) as u32] + code_points_from(p, i + 2)
    } else {
        seq![p[i] as u32] + code_points_from(p, i + 1)
    }
}

fn decode_code_points(p: &[u16]) -> (r: Vec<u32>)
    ensures
        r@ == code_points_from(p@, 0),
{
    let n = p.len();
    let mut out: Vec<u32> = Vec::new();
    let mut j: usize = 0;
    while j < n
        invariant
            n == p@.len(),
            j <= n,
            out@ + code_points_from(p@, j as int) == code_points_from(p@, 0),
        decreases n - j,
    {
        let ghost o = out@;
        if j + 1 < n && 0xD800 <= p[j] && p[j] <= 0xDBFF && 0xDC00 <= p[j + 1] && p[j + 1] <= 0xDFFF {
            let cp = 0x10000 + ((p[j] as u32 - 0xD800) * 1024) + (p[j + 1] as u32 - 0xDC00);
            out.push(cp);
            proof {
                assert(pair_at(p@, j as int));
                assert(out@ + code_points_from(p@, j + 2) =~= o + code_points_from(p@, j as int));
            }
            j = j + 2;
        } else {
            out.push(p[j] as u32);
            proof {
                assert(!pair_at(p@, j as int));
                assert(out@ + code_points_from(p@, j + 1) =~= o + code_points_from(p@, j as int));
            }
            j = j + 1;
        }
    }
    assert(out@ =~= out@ + code_points_from(p@, j as int));
    out
}

/// The flags ask for a Unicode pattern (`u` or `v`).
pub open spec fn unicode_flags(flags: Seq<char>) -> bool {
    flags.contains('u') || flags.contains('v')
}

fn has_unicode_flag(flags: &str) -> (r: bool)
    ensures
        r == unicode_flags(flags@),
{
    let cs = crate::repl::collect_chars(flags);
    let mut i: usize = 0;
    while i < cs.len()
        invariant
            cs@ == flags@,
            i <= cs@.len(),
            forall|k: int| 0 <= k < i ==> cs@[k] != 'u' && cs@[k] != 'v',
        decreases cs.len() - i,
    {
        if cs[i] == 'u' || cs[i] == 'v' {
            proof {
                if cs@[i as int] == 'u' {
                    assert(flags@.contains('u'));
                } else {
                    assert(flags@.contains('v'));
                }
            }
            return true;
        }
        i = i + 1;
    }
    proof {
        if flags@.contains('u') {
            let w = choose|w: int| 0 <= w < flags@.len() && flags@[w] == 'u';
            assert(cs@[w] != 'u');
        }
        if flags@.contains('v') {
            let w = choose|w: int| 0 <= w < flags@.len() && flags@[w] == 'v';
            assert(cs@[w] != 'v');
        }
    }
    false
}

/// The code points the engine compiles for `pattern` under `flags`.
pub open spec fn regex_source(pattern: Seq<u16>, flags: Seq<char>) -> Seq<u32> {
    if unicode_flags(flags) {
        code_points_from(pattern, 0)
    } else {
        preprocess_from(pattern, 0)
    }
}

/// The error message `regress` gives for a pattern (as code points) and
/// flags that it does not accept; `None` when it compiles them.
pub uninterp spec fn regex_compile_error(pattern: Seq<u32>, flags: Seq<char>) -> Option<Seq<char>>;

/// A compiled regular expression, with the code points and the flags it
/// was compiled from. Only `create_regex_from_utf16` makes one.
pub struct CompiledRegex {
    engine: regress::Regex,
    source: Ghost<Seq<u32>>,
    flags: Ghost<Seq<char>>,
}

impl CompiledRegex {
    /// The code points the engine compiled.
    pub closed spec fn source(&self) -> Seq<u32> {
        self.source@
    }

    /// The flag letters the engine compiled with.
    pub closed spec fn flags(&self) -> Seq<char> {
        self.flags@
    }
}

/// `Regex::from_unicode` with the flag letters, its error turned into its
/// message: it fails exactly when `regex_compile_error` names an error.
#[verifier::external_body]
fn compile_code_points(pattern: &Vec<u32>, flags: &str) -> (r: Result<regress::Regex, String>)
    ensures
        match regex_compile_error(pattern@, flags@) {
            None => r is Ok,
            Some(m) => r is Err && r->Err_0@ == m,
        },
{
    regress::Regex::from_unicode(pattern.iter().copied(), flags).map_err(|e| e.to_string())
}

/// Compiles a UTF-16 pattern: with the `u` or `v` flag as code points, else
/// as code units (see `preprocess_pattern_non_unicode`).
pub fn create_regex_from_utf16(pattern: &[u16], flags: &str) -> (r: Result<CompiledRegex, String>)
    ensures
        match regex_compile_error(regex_source(pattern@, flags@), flags@) {
            None => r matches Ok(re) && re.source() == regex_source(pattern@, flags@) && re.flags()
                == flags@,
            Some(m) => r is Err && r->Err_0@ == m,
        },
{
    let cps = if has_unicode_flag(flags) {
        decode_code_points(pattern)
    } else {
        preprocess_pattern_non_unicode(pattern)
    };
    match compile_code_points(&cps, flags) {
        Ok(engine) => Ok(CompiledRegex { engine, source: Ghost(cps@), flags: Ghost(flags@) }),
        Err(e) => Err(e),
    }
}

// ---------------------------------------------------------------------------
// Replacing matches.

/// A match as the engine reports it: the matched range, the range of each
/// capture group (`None` when it did not take part), and the named groups.
pub struct RegexMatch {
    pub start: usize,
    pub end: usize,
    pub captures: Vec<Option<(usize, usize)>>,
    pub names: Vec<(String, Option<(usize, usize)>)>,
}

/// A match as plain values.
pub struct MatchSpan {
    pub start: usize,
    pub end: usize,
    pub captures: Seq<Option<(usize, usize)>>,
    pub names: Seq<(Seq<char>, Option<(usize, usize)>)>,
}

impl View for RegexMatch {
    type V = MatchSpan;

    open spec fn view(&self) -> MatchSpan {
        MatchSpan {
            start: self.start,
            end: self.end,
            captures: self.captures@,
            names: self.names@.map_values(
                |e: (String, Option<(usize, usize)>)| (e.0@, e.1),
            ),
        }
    }
}

/// The matches of a list, as plain values.
pub open spec fn spans(ms: Seq<RegexMatch>) -> Seq<MatchSpan> {
    ms.map_values(|m: RegexMatch| m@)
}

/// The first match that `regress` finds in `text` at or after `start`
/// (`Regex::find_from_utf16(text, start).next()`) for the regular
/// expression compiled from `source` and `flags`; `None` when there is none.
pub uninterp spec fn regex_find(source: Seq<u32>, flags: Seq<char>, text: Seq<u16>, start: nat) -> Option<MatchSpan>;

/// `Regex::find_from_utf16(text, start).next()`: the first match at or
/// after `start`, as `regex_find` names it; it lies inside `text`.
#[verifier::external_body]
fn find_match(re: &CompiledRegex, text: &[u16], start: usize) -> (r: Option<RegexMatch>)
    ensures
        match r {
            None => regex_find(re.source(), re.flags(), text@, start as nat) is None,
            Some(m) => regex_find(re.source(), re.flags(), text@, start as nat) == Some(m@),
        },
        r matches Some(m) ==> start <= m.start <= m.end <= text@.len(),
{
    re.engine.find_from_utf16(text, start).next().map(
        |m| RegexMatch {
            start: m.range.start,
            end: m.range.end,
            captures: m.captures.iter().map(|c| c.as_ref().map(|g| (g.start, g.end))).collect(),
            names: m.named_groups().map(|(n, g)| (n.to_string(), g.map(|g| (g.start, g.end)))).collect(),
        },
    )
}

fn utf16_of(s: &str) -> (r: Vec<u16>)
    ensures
        r@ == utf16_encode(s@),
{
    let cs = crate::repl::collect_chars(s);
    encode_chars(&cs)
}

/// The text of a group's range, when it is a range of `s`.
pub open spec fn range_text(s: Seq<u16>, g: Option<(usize, usize)>) -> Option<Seq<u16>> {
    match g {
        Some((a, b)) => if a <= b <= s.len() {
            Some(s.subrange(a as int, b as int))
        } else {
            None
        },
        None => None,
    }
}

/// What GetSubstitution reads of match `m` in `s`. A name used by two
/// groups reads the later one.
pub open spec fn match_view(s: Seq<u16>, m: MatchSpan) -> SubstitutionView {
    SubstitutionView {
        matched: s.subrange(m.start as int, m.end as int),
        captures: m.captures.map_values(|g: Option<(usize, usize)>| range_text(s, g)),
        named: if m.names.len() == 0 {
            None
        } else {
            Some(
                m.names.map_values(
                    |e: (Seq<char>, Option<(usize, usize)>)| (utf16_encode(e.0), range_text(s, e.1)),
                ).reverse(),
            )
        },
        before: s.subrange(0, m.start as int),
        after: s.subrange(m.end as int, s.len() as int),
    }
}

/// In a replacement template, `$\`` stands for the part of the subject
/// before the match and `$'` for the part after it: wherever either pair
/// stands in `r`, its expansion for match `m` of `s` is that text followed
/// by the expansion of the rest of the template; the whole template `$\``
/// gives `s` up to the match, and `$'` gives `s` from the match's end.
pub proof fn law_dollar_backtick_is_before_dollar_quote_is_after(
    s: Seq<u16>,
    m: MatchSpan,
    r: Seq<u16>,
    i: int,
)
    requires
        m.start <= m.end <= s.len(),
        0 <= i,
        i + 1 < r.len(),
        r[i] == 0x24,
    ensures
        r[i + 1] == 0x60 ==> expand_from(r, i, match_view(s, m)) == s.subrange(0, m.start as int)
            + expand_from(r, i + 2, match_view(s, m)),
        r[i + 1] == 0x27 ==> expand_from(r, i, match_view(s, m)) == s.subrange(
            m.end as int,
            s.len() as int,
        ) + expand_from(r, i + 2, match_view(s, m)),
        expand_from(seq![0x24u16, 0x60u16], 0, match_view(s, m)) == s.subrange(0, m.start as int),
        expand_from(seq![0x24u16, 0x27u16], 0, match_view(s, m)) == s.subrange(
            m.end as int,
            s.len() as int,
        ),
{
    let ctx = match_view(s, m);
    let b = seq![0x24u16, 0x60u16];
    let q = seq![0x24u16, 0x27u16];
    assert(expand_from(b, 2, ctx) =~= Seq::<u16>::empty());
    assert(expand_from(q, 2, ctx) =~= Seq::<u16>::empty());
    assert(s.subrange(0, m.start as int) + Seq::<u16>::empty() =~= s.subrange(0, m.start as int));
    assert(s.subrange(m.end as int, s.len() as int) + Seq::<u16>::empty() =~= s.subrange(
        m.end as int,
        s.len() as int,
    ));
}

/// The other replacement patterns, for match `m` of `s`: `$&` stands for
/// the matched text, `$$` for one `$`, a `$` at the end of the template for
/// itself, any unit other than `$` for itself, and `$d` (a digit `d` from 1
/// up to the number of groups, not followed by another digit) for the text
/// of group `d`, or nothing when the group did not take part.
pub proof fn law_replacement_patterns(s: Seq<u16>, m: MatchSpan, r: Seq<u16>, i: int)
    requires
        m.start <= m.end <= s.len(),
        0 <= i < r.len(),
    ensures
        r[i] != 0x24 ==> expand_from(r, i, match_view(s, m)) == seq![r[i]] + expand_from(
            r,
            i + 1,
            match_view(s, m),
        ),
        r[i] == 0x24 && i + 1 == r.len() ==> expand_from(r, i, match_view(s, m)) == seq![0x24u16],
        r[i] == 0x24 && i + 1 < r.len() && r[i + 1] == 0x26 ==> expand_from(r, i, match_view(s, m))
            == s.subrange(m.start as int, m.end as int) + expand_from(r, i + 2, match_view(s, m)),
        r[i] == 0x24 && i + 1 < r.len() && r[i + 1] == 0x24 ==> expand_from(r, i, match_view(s, m))
            == seq![0x24u16] + expand_from(r, i + 2, match_view(s, m)),
        r[i] == 0x24 && i + 1 < r.len() && 0x31 <= r[i + 1] <= 0x39 && r[i + 1] - 0x30
            <= m.captures.len() && (i + 2 >= r.len() || !(0x30 <= r[i + 2] <= 0x39)) ==> expand_from(
            r,
            i,
            match_view(s, m),
        ) == (match m.captures[r[i + 1] - 0x31] {
            Some((a, b)) => if a <= b <= s.len() {
                s.subrange(a as int, b as int)
            } else {
                Seq::<u16>::empty()
            },
            None => Seq::<u16>::empty(),
        }) + expand_from(r, i + 2, match_view(s, m)),
{
}

fn range_copy(s: &[u16], g: &Option<(usize, usize)>) -> (r: Option<Vec<u16>>)
    ensures
        match range_text(s@, *g) {
            None => r is None,
            Some(t) => r matches Some(v) && v@ == t,
        },
{
    match g {
        Some((a, b)) => {
            if *a <= *b && *b <= s.len() {
                Some(copy_range(s, *a, *b))
            } else {
                None
            }
        },
        None => None,
    }
}

/// The captures of match `m` in `s`.
pub fn match_context(s: &[u16], m: &RegexMatch) -> (r: ReplaceContext)
    requires
        m.start <= m.end <= s@.len(),
    ensures
        r.view() == match_view(s@, m@),
{
    let mut captures: Vec<Option<Vec<u16>>> = Vec::new();
    let mut i: usize = 0;
    while i < m.captures.len()
        invariant
            i <= m.captures@.len(),
            captures@.len() == i,
            forall|k: int|
                0 <= k < i ==> crate::string_replace::opt_units_view(#[trigger] captures@[k])
                    == range_text(s@, m.captures@[k]),
        decreases m.captures.len() - i,
    {
        let c = range_copy(s, &m.captures[i]);
        captures.push(c);
        i = i + 1;
    }
    let named = if m.names.len() == 0 {
        None
    } else {
        let mut list: Vec<(Vec<u16>, Option<Vec<u16>>)> = Vec::new();
        let n = m.names.len();
        let mut j: usize = n;
        while j > 0
            invariant
                j <= n,
                n == m.names@.len(),
                list@.len() == n - j,
                forall|k: int|
                    0 <= k < n - j ==> (#[trigger] list@[k]).0@ == utf16_encode(
                        m.names@[n - 1 - k].0@,
                    ) && crate::string_replace::opt_units_view(list@[k].1) == range_text(
                        s@,
                        m.names@[n - 1 - k].1,
                    ),
            decreases j,
        {
            j = j - 1;
            let name = utf16_of(m.names[j].0.as_str());
            let text = range_copy(s, &m.names[j].1);
            list.push((name, text));
        }
        Some(list)
    };
    let matched = copy_range(s, m.start, m.end);
    let before = copy_range(s, 0, m.start);
    let after = copy_range(s, m.end, s.len());
    let ctx = ReplaceContext { matched, captures, named, before, after };
    proof {
        let v = ctx.view();
        let w = match_view(s@, m@);
        assert(v.captures =~= w.captures);
        if m.names@.len() > 0 {
            let a = crate::string_replace::named_view(ctx.named->0@);
            let b = m@.names.map_values(
                |e: (Seq<char>, Option<(usize, usize)>)| (utf16_encode(e.0), range_text(s@, e.1)),
            ).reverse();
            assert(a =~= b);
        }
    }
    ctx
}

/// Where the search resumes after match `m`: past an empty match by one.
pub open spec fn next_search(m: MatchSpan) -> int {
    if m.start == m.end {
        m.end + 1
    } else {
        m.end as int
    }
}

/// The matches that a replace uses, searching `s` from `from`: the first
/// match there, and with `global` the matches after it, each search
/// resuming where the last match ended (one unit further after an empty
/// match) until none is found or the text is passed. (The engine's matches
/// always lie between the search's start and the end of the text; the
/// search stops on one that does not.)
pub open spec fn regex_matches(
    source: Seq<u32>,
    flags: Seq<char>,
    s: Seq<u16>,
    from: int,
    global: bool,
) -> Seq<MatchSpan>
    decreases s.len() + 1 - from,
{
    if from < 0 || from > s.len() {
        Seq::empty()
    } else {
        match regex_find(source, flags, s, from as nat) {
            None => Seq::empty(),
            Some(m) => if !(from <= m.start <= m.end <= s.len()) {
                Seq::empty()
            } else if !global {
                seq![m]
            } else {
                seq![m] + regex_matches(source, flags, s, next_search(m), global)
            },
        }
    }
}

/// Matches in order inside a text of `len` units, none overlapping the next.
pub open spec fn spans_in_order(ms: Seq<MatchSpan>, len: int) -> bool {
    &&& forall|i: int| 0 <= i < ms.len() ==> (#[trigger] ms[i]).start <= ms[i].end <= len
    &&& forall|i: int| 0 < i < ms.len() ==> ms[i - 1].end <= (#[trigger] ms[i]).start
}

/// The matches of a replace are in order, and start at or after `from`.
pub proof fn lemma_regex_matches_in_order(
    source: Seq<u32>,
    flags: Seq<char>,
    s: Seq<u16>,
    from: int,
    global: bool,
)
    ensures
        spans_in_order(regex_matches(source, flags, s, from, global), s.len() as int),
        forall|i: int|
            0 <= i < regex_matches(source, flags, s, from, global).len() ==> from <= (#[trigger] regex_matches(
                source,
                flags,
                s,
                from,
                global,
            )[i]).start,
    decreases s.len() + 1 - from,
{
    if 0 <= from <= s.len() {
        match regex_find(source, flags, s, from as nat) {
            None => {},
            Some(m) => {
                if from <= m.start <= m.end <= s.len() && global {
                    let rest = regex_matches(source, flags, s, next_search(m), global);
                    lemma_regex_matches_in_order(source, flags, s, next_search(m), global);
                    let all = regex_matches(source, flags, s, from, global);
                    assert(all =~= seq![m] + rest);
                    assert forall|i: int| 0 < i < all.len() implies all[i - 1].end <= (
                    #[trigger] all[i]).start by {
                        if i > 1 {
                            assert(all[i - 1] == rest[i - 2] && all[i] == rest[i - 1]);
                        } else {
                            assert(all[i] == rest[0]);
                        }
                    }
                    assert forall|i: int| 0 <= i < all.len() implies from <= (
                    #[trigger] all[i]).start by {
                        if i > 0 {
                            assert(all[i] == rest[i - 1]);
                        }
                    }
                }
            },
        }
    }
}

pub open spec fn last_end(ms: Seq<MatchSpan>) -> int {
    if ms.len() == 0 {
        0
    } else {
        ms.last().end as int
    }
}

/// The output up to the end of the last match: the text between matches
/// kept, each match replaced by the expansion of `repl`.
pub open spec fn replaced_upto(s: Seq<u16>, repl: Seq<u16>, ms: Seq<MatchSpan>) -> Seq<u16>
    decreases ms.len(),
{
    if ms.len() == 0 {
        Seq::empty()
    } else {
        let p = ms.drop_last();
        let m = ms.last();
        replaced_upto(s, repl, p) + s.subrange(last_end(p), m.start as int) + expand_from(
            repl,
            0,
            match_view(s, m),
        )
    }
}

/// `s` with the matches `ms` replaced.
pub open spec fn replaced(s: Seq<u16>, repl: Seq<u16>, ms: Seq<MatchSpan>) -> Seq<u16> {
    replaced_upto(s, repl, ms) + s.subrange(last_end(ms), s.len() as int)
}

/// The matches of `re` in `s` that a replace uses: the first one, or with
/// `global` all of them, resuming one unit further after an empty match.
pub fn find_all_matches(re: &CompiledRegex, s: &[u16], global: bool) -> (r: Vec<RegexMatch>)
    ensures
        spans(r@) == regex_matches(re.source(), re.flags(), s@, 0, global),
{
    let n = s.len();
    let ghost src = re.source();
    let ghost fl = re.flags();
    let mut found: Vec<RegexMatch> = Vec::new();
    let mut offset: usize = 0;
    loop
        invariant_except_break
            offset <= n + 1,
            spans(found@) + regex_matches(src, fl, s@, offset as int, global) == regex_matches(
                src,
                fl,
                s@,
                0,
                global,
            ),
        invariant
            n == s@.len(),
            src == re.source(),
            fl == re.flags(),
        ensures
            spans(found@) == regex_matches(src, fl, s@, 0, global),
        decreases n + 1 - offset,
    {
        if offset > n {
            assert(spans(found@) + Seq::<MatchSpan>::empty() =~= spans(found@));
            break;
        }
        let m = match find_match(re, s, offset) {
            None => {
                assert(spans(found@) + Seq::<MatchSpan>::empty() =~= spans(found@));
                break;
            },
            Some(m) => m,
        };
        let ghost before = found@;
        let ghost mv = m@;
        let start = m.start;
        let end = m.end;
        found.push(m);
        assert(spans(found@) =~= spans(before).push(mv));
        if !global {
            assert(spans(before) + seq![mv] =~= spans(found@));
            break;
        }
        if start == end && end >= n {
            assert(regex_matches(src, fl, s@, next_search(mv), global) =~= Seq::<MatchSpan>::empty());
            assert(spans(before) + (seq![mv] + Seq::<MatchSpan>::empty()) =~= spans(found@));
            break;
        }
        let ghost rest = regex_matches(src, fl, s@, next_search(mv), global);
        assert(spans(before) + (seq![mv] + rest) =~= spans(found@) + rest);
        offset = if start == end {
            end + 1
        } else {
            end
        };
    }
    found
}

/// `s` with each of the matches `ms` replaced by the expansion of the
/// template `repl` for it.
pub fn replace_matches(s: &[u16], repl: &[u16], ms: &Vec<RegexMatch>) -> (r: Vec<u16>)
    requires
        spans_in_order(spans(ms@), s@.len() as int),
    ensures
        r@ == replaced(s@, repl@, spans(ms@)),
{
    let n = s.len();
    let mut out: Vec<u16> = Vec::new();
    let mut last_pos: usize = 0;
    let mut i: usize = 0;
    while i < ms.len()
        invariant
            n == s@.len(),
            i <= ms@.len(),
            spans_in_order(spans(ms@), n as int),
            last_pos == last_end(spans(ms@).take(i as int)),
            last_pos <= n,
            i > 0 ==> last_pos <= ms@[i - 1].end,
            out@ == replaced_upto(s@, repl@, spans(ms@).take(i as int)),
        decreases ms.len() - i,
    {
        let ghost all = spans(ms@);
        let m = &ms[i];
        assert(all[i as int] == m@);
        if i > 0 {
            assert(all[i - 1] == ms@[i - 1]@);
        }
        let ctx = match_context(s, m);
        append_range(&mut out, s, last_pos, m.start);
        let text = expand_replacement_tokens(repl, &ctx);
        crate::utf16::append_all(&mut out, text.as_slice());
        last_pos = m.end;
        proof {
            let t = all.take(i + 1);
            assert(t.drop_last() =~= all.take(i as int));
            assert(t.last() == m@);
        }
        i = i + 1;
    }
    assert(spans(ms@).take(i as int) =~= spans(ms@));
    append_range(&mut out, s, last_pos, n);
    out
}

/// The output up to the end of the last match, each match replaced by the
/// text given for it.
pub open spec fn spliced_upto(s: Seq<u16>, ms: Seq<MatchSpan>, texts: Seq<Seq<u16>>) -> Seq<u16>
    decreases ms.len(),
{
    if ms.len() == 0 {
        Seq::empty()
    } else {
        let p = ms.drop_last();
        spliced_upto(s, p, texts) + s.subrange(last_end(p), ms.last().start as int) + texts[ms.len()
            - 1]
    }
}

/// `s` with match `ms[i]` replaced by `texts[i]`, for each `i`.
pub open spec fn spliced(s: Seq<u16>, ms: Seq<MatchSpan>, texts: Seq<Seq<u16>>) -> Seq<u16> {
    spliced_upto(s, ms, texts) + s.subrange(last_end(ms), s.len() as int)
}

/// `s` with each match replaced by the text given for it, as a replace
/// with a function does with what the function returned for each match
/// (called with the match's text, its captures (see `match_context`), its
/// start and `s`).
pub fn splice_replacements(s: &[u16], ms: &Vec<RegexMatch>, texts: &Vec<Vec<u16>>) -> (r: Vec<u16>)
    requires
        spans_in_order(spans(ms@), s@.len() as int),
        texts@.len() == ms@.len(),
    ensures
        r@ == spliced(s@, spans(ms@), texts@.map_values(|t: Vec<u16>| t@)),
{
    let n = s.len();
    let ghost tv = texts@.map_values(|t: Vec<u16>| t@);
    let mut out: Vec<u16> = Vec::new();
    let mut last_pos: usize = 0;
    let mut i: usize = 0;
    while i < ms.len()
        invariant
            n == s@.len(),
            i <= ms@.len(),
            texts@.len() == ms@.len(),
            tv == texts@.map_values(|t: Vec<u16>| t@),
            spans_in_order(spans(ms@), n as int),
            last_pos == last_end(spans(ms@).take(i as int)),
            last_pos <= n,
            i > 0 ==> last_pos <= ms@[i - 1].end,
            out@ == spliced_upto(s@, spans(ms@).take(i as int), tv),
        decreases ms.len() - i,
    {
        let ghost all = spans(ms@);
        let m = &ms[i];
        assert(all[i as int] == m@);
        if i > 0 {
            assert(all[i - 1] == ms@[i - 1]@);
        }
        append_range(&mut out, s, last_pos, m.start);
        crate::utf16::append_all(&mut out, texts[i].as_slice());
        last_pos = m.end;
        proof {
            let t = all.take(i + 1);
            assert(t.drop_last() =~= all.take(i as int));
            assert(t.last() == m@);
            assert(tv[t.len() - 1] == texts@[i as int]@);
        }
        i = i + 1;
    }
    assert(spans(ms@).take(i as int) =~= spans(ms@));
    append_range(&mut out, s, last_pos, n);
    out
}

/// Replacing by a template is splicing in, for each match, the template's
/// expansion for that match.
pub proof fn law_replace_is_splice_of_expansions(s: Seq<u16>, repl: Seq<u16>, ms: Seq<MatchSpan>)
    ensures
        replaced(s, repl, ms) == spliced(
            s,
            ms,
            ms.map_values(|m: MatchSpan| expand_from(repl, 0, match_view(s, m))),
        ),
{
    lemma_upto_is_splice(s, repl, ms);
}

proof fn lemma_upto_is_splice(s: Seq<u16>, repl: Seq<u16>, ms: Seq<MatchSpan>)
    ensures
        replaced_upto(s, repl, ms) == spliced_upto(
            s,
            ms,
            ms.map_values(|m: MatchSpan| expand_from(repl, 0, match_view(s, m))),
        ),
    decreases ms.len(),
{
    if ms.len() > 0 {
        let p = ms.drop_last();
        lemma_upto_is_splice(s, repl, p);
        let texts = ms.map_values(|m: MatchSpan| expand_from(repl, 0, match_view(s, m)));
        let ptexts = p.map_values(|m: MatchSpan| expand_from(repl, 0, match_view(s, m)));
        lemma_splice_prefix_texts(s, p, ptexts, texts);
    }
}

/// `spliced_upto` reads only the first `ms.len()` texts.
proof fn lemma_splice_prefix_texts(s: Seq<u16>, ms: Seq<MatchSpan>, a: Seq<Seq<u16>>, b: Seq<Seq<u16>>)
    requires
        a.len() >= ms.len(),
        b.len() >= ms.len(),
        forall|i: int| 0 <= i < ms.len() ==> a[i] == b[i],
    ensures
        spliced_upto(s, ms, a) == spliced_upto(s, ms, b),
    decreases ms.len(),
{
    if ms.len() > 0 {
        lemma_splice_prefix_texts(s, ms.drop_last(), a, b);
    }
}

/// Replaces the first match of `re` in `s` (every match when `global`,
/// resuming one unit further after an empty match) by the expansion of the
/// template `repl`.
pub fn regex_replace(re: &CompiledRegex, s: &[u16], repl: &[u16], global: bool) -> (r: Vec<u16>)
    ensures
        r@ == replaced(s@, repl@, regex_matches(re.source(), re.flags(), s@, 0, global)),
{
    let ms = find_all_matches(re, s, global);
    proof {
        lemma_regex_matches_in_order(re.source(), re.flags(), s@, 0, global);
    }
    replace_matches(s, repl, &ms)
}

/// The flags ask for every match (`g`).
pub open spec fn global_flag(flags: Seq<char>) -> bool {
    flags.contains('g')
}

fn has_global_flag(flags: &str) -> (r: bool)
    ensures
        r == global_flag(flags@),
{
    let cs = crate::repl::collect_chars(flags);
    let mut i: usize = 0;
    while i < cs.len()
        invariant
            cs@ == flags@,
            i <= cs@.len(),
            forall|k: int| 0 <= k < i ==> cs@[k] != 'g',
        decreases cs.len() - i,
    {
        if cs[i] == 'g' {
            proof {
                assert(flags@.contains('g'));
            }
            return true;
        }
        i = i + 1;
    }
    proof {
        if flags@.contains('g') {
            let w = choose|w: int| 0 <= w < flags@.len() && flags@[w] == 'g';
            assert(cs@[w] != 'g');
        }
    }
    false
}

/// `String.prototype.replace(regexp, replacement)` for a regular
/// expression with its own `exec` and a string replacement: compiles the
/// pattern (its error message on a SyntaxError) and replaces the first
/// match, or every match with the `g` flag.
pub fn string_replace_regex(s: &[u16], pattern: &[u16], flags: &str, repl: &[u16]) -> (r: Result<
    Vec<u16>,
    String,
>)
    ensures
        match regex_compile_error(regex_source(pattern@, flags@), flags@) {
            Some(m) => r is Err && r->Err_0@ == m,
            None => r matches Ok(v) && v@ == replaced(
                s@,
                repl@,
                regex_matches(regex_source(pattern@, flags@), flags@, s@, 0, global_flag(flags@)),
            ),
        },
{
    let re = match create_regex_from_utf16(pattern, flags) {
        Ok(re) => re,
        Err(e) => return Err(e),
    };
    let global = has_global_flag(flags);
    Ok(regex_replace(&re, s, repl, global))
}

} // verus!

//! `String.prototype.replace`, `replaceAll` and `split` with string search
//! values, and the expansion of `$` patterns in replacement strings
//! (GetSubstitution).
use crate::error::ErrorKind;
use crate::utf16::{append_all, append_range, copy_range, find_from, first_match, lemma_first_match};
use vstd::prelude::*;

verus! {

/// The captures of one match, as GetSubstitution reads them.
pub struct ReplaceContext {
    /// The matched substring.
    pub matched: Vec<u16>,
    /// Positional captures `$1`, `$2`, …; `None` for a group that did not participate.
    pub captures: Vec<Option<Vec<u16>>>,
    /// Named captures (`$<name>`), or `None` when the pattern has no named groups.
    pub named: Option<Vec<(Vec<u16>, Option<Vec<u16>>)>>,
    /// The part of the subject before the match.
    pub before: Vec<u16>,
    /// The part of the subject after the match.
    pub after: Vec<u16>,
}

pub open spec fn opt_units_view(o: Option<Vec<u16>>) -> Option<Seq<u16>> {
    match o {
        Some(v) => Some(v@),
        None => None,
    }
}

/// What GetSubstitution reads of one match, as mathematical sequences.
pub struct SubstitutionView {
    pub matched: Seq<u16>,
    pub captures: Seq<Option<Seq<u16>>>,
    pub named: Option<Seq<(Seq<u16>, Option<Seq<u16>>)>>,
    pub before: Seq<u16>,
    pub after: Seq<u16>,
}

pub open spec fn captures_view(c: Seq<Option<Vec<u16>>>) -> Seq<Option<Seq<u16>>> {
    c.map_values(|o: Option<Vec<u16>>| opt_units_view(o))
}

pub open spec fn named_view(n: Seq<(Vec<u16>, Option<Vec<u16>>)>) -> Seq<(Seq<u16>, Option<Seq<u16>>)> {
    n.map_values(|e: (Vec<u16>, Option<Vec<u16>>)| (e.0@, opt_units_view(e.1)))
}

impl ReplaceContext {
    pub open spec fn view(&self) -> SubstitutionView {
        SubstitutionView {
            matched: self.matched@,
            captures: captures_view(self.captures@),
            named: match self.named {
                Some(n) => Some(named_view(n@)),
                None => None,
            },
            before: self.before@,
            after: self.after@,
        }
    }
}

/// The capture a `$n` reference reads (empty for a non-participating group).
pub open spec fn capture_text(captures: Seq<Option<Seq<u16>>>, n: int) -> Seq<u16> {
    match captures[n - 1] {
        Some(c) => c,
        None => Seq::empty(),
    }
}

/// The text a `$<name>` reference reads: the value of the first named group
/// called `name`, or nothing when there is none or it did not participate.
pub open spec fn named_text(named: Seq<(Seq<u16>, Option<Seq<u16>>)>, name: Seq<u16>) -> Seq<u16>
    decreases named.len(),
{
    if named.len() == 0 {
        Seq::empty()
    } else if named[0].0 == name {
        match named[0].1 {
            Some(v) => v,
            None => Seq::empty(),
        }
    } else {
        named_text(named.drop_first(), name)
    }
}

/// Index of the first unit `u` at or after `j`, or -1.
pub open spec fn unit_index_from(r: Seq<u16>, u: u16, j: int) -> int
    decreases r.len() - j,
{
    if j < 0 || j >= r.len() {
        -1
    } else if r[j] == u {
        j
    } else {
        unit_index_from(r, u, j + 1)
    }
}

pub open spec fn is_digit(c: u16) -> bool {
    0x30 <= c && c <= 0x39
}

/// The expansion of the replacement template `r` from index `i` on.
pub open spec fn expand_from(r: Seq<u16>, i: int, ctx: SubstitutionView) -> Seq<u16>
    decreases r.len() - i, 1int,
{
    if i < 0 || i >= r.len() {
        Seq::empty()
    } else if r[i] != 0x24 {
        seq![r[i]] + expand_from(r, i + 1, ctx)
    } else if i + 1 >= r.len() {
        seq![0x24u16]
    } else {
        let n = r[i + 1];
        if n == 0x26 {
            ctx.matched + expand_from(r, i + 2, ctx)
        } else if n == 0x60 {
            ctx.before + expand_from(r, i + 2, ctx)
        } else if n == 0x27 {
            ctx.after + expand_from(r, i + 2, ctx)
        } else if n == 0x24 {
            seq![0x24u16] + expand_from(r, i + 2, ctx)
        } else if n == 0x3C {
            match ctx.named {
                None => seq![0x24u16, 0x3Cu16] + expand_from(r, i + 2, ctx),
                Some(named) => {
                    let k = unit_index_from(r, 0x3E, i + 2);
                    if k < i + 2 || k >= r.len() {
                        seq![0x24u16, 0x3Cu16] + r.subrange(i + 2, r.len() as int)
                    } else {
                        named_text(named, r.subrange(i + 2, k)) + expand_from(r, k + 1, ctx)
                    }
                },
            }
        } else if is_digit(n) {
            let d1 = n - 0x30;
            let count = ctx.captures.len();
            if i + 2 < r.len() && is_digit(r[i + 2]) && 1 <= d1 * 10 + (r[i + 2] - 0x30) <= count {
                capture_text(ctx.captures, d1 * 10 + (r[i + 2] - 0x30)) + expand_from(
                    r,
                    i + 3,
                    ctx,
                )
            } else if 1 <= d1 <= count {
                capture_text(ctx.captures, d1) + expand_from(r, i + 2, ctx)
            } else {
                seq![0x24u16, n] + expand_from(r, i + 2, ctx)
            }
        } else {
            seq![0x24u16] + expand_from(r, i + 1, ctx)
        }
    }
}

proof fn lemma_unit_index_from(r: Seq<u16>, u: u16, j: int)
    requires
        0 <= j,
    ensures
        unit_index_from(r, u, j) == -1 || (j <= unit_index_from(r, u, j) < r.len() && r[unit_index_from(
            r,
            u,
            j,
        )] == u),
    decreases r.len() - j,
{
    if j < r.len() && r[j] != u {
        lemma_unit_index_from(r, u, j + 1);
    }
}

fn find_unit(r: &[u16], u: u16, j: usize) -> (k: Option<usize>)
    ensures
        match k {
            Some(k) => k as int == unit_index_from(r@, u, j as int),
            None => unit_index_from(r@, u, j as int) == -1,
        },
{
    let mut i = j;
    while i < r.len()
        invariant
            j <= i,
            unit_index_from(r@, u, j as int) == unit_index_from(r@, u, i as int),
        decreases r.len() - i,
    {
        if r[i] == u {
            return Some(i);
        }
        i = i + 1;
    }
    None
}

fn named_lookup(named: &Vec<(Vec<u16>, Option<Vec<u16>>)>, name: &[u16]) -> (r: Vec<u16>)
    ensures
        r@ == named_text(named_view(named@), name@),
{
    let ghost nv = named_view(named@);
    let mut i: usize = 0;
    assert(nv.subrange(0, nv.len() as int) =~= nv);
    while i < named.len()
        invariant
            i <= named@.len(),
            nv == named_view(named@),
            named_text(nv, name@) == named_text(nv.subrange(i as int, nv.len() as int), name@),
        decreases named.len() - i,
    {
        let ghost rest = nv.subrange(i as int, nv.len() as int);
        assert(rest[0] == nv[i as int]);
        if units_equal(named[i].0.as_slice(), name) {
            return match &named[i].1 {
                Some(v) => copy_range(v.as_slice(), 0, v.len()),
                None => Vec::new(),
            };
        }
        assert(rest.drop_first() =~= nv.subrange(i + 1, nv.len() as int));
        i = i + 1;
    }
    Vec::new()
}

/// Whether two unit sequences are equal.
pub fn units_equal(a: &[u16], b: &[u16]) -> (r: bool)
    ensures
        r == (a@ == b@),
{
    if a.len() != b.len() {
        return false;
    }
    let mut i: usize = 0;
    while i < a.len()
        invariant
            i <= a@.len(),
            a@.len() == b@.len(),
            forall|k: int| 0 <= k < i ==> a@[k] == b@[k],
        decreases a.len() - i,
    {
        if a[i] != b[i] {
            return false;
        }
        i = i + 1;
    }
    assert(a@ =~= b@);
    true
}

fn append_capture(out: &mut Vec<u16>, captures: &Vec<Option<Vec<u16>>>, n: usize)
    requires
        1 <= n <= captures@.len(),
    ensures
        final(out)@ == old(out)@ + capture_text(captures_view(captures@), n as int),
{
    match &captures[n - 1] {
        Some(c) => append_all(out, c.as_slice()),
        None => {
            assert(old(out)@ + Seq::<u16>::empty() =~= old(out)@);
        },
    }
}

/// GetSubstitution: expands `$&`, `` $` ``, `$'`, `$$`, `$n`, `$nn` and
/// `$<name>` in the replacement template `repl`.
pub fn expand_replacement_tokens(repl: &[u16], ctx: &ReplaceContext) -> (r: Vec<u16>)
    ensures
        r@ == expand_from(repl@, 0, ctx.view()),
{
    let mut out: Vec<u16> = Vec::new();
    let mut i: usize = 0;
    let len = repl.len();
    assert(out@ + expand_from(repl@, 0, ctx.view()) =~= expand_from(repl@, 0, ctx.view()));
    while i < len
        invariant
            len == repl@.len(),
            i <= len,
            out@ + expand_from(repl@, i as int, ctx.view()) == expand_from(repl@, 0, ctx.view()),
        decreases len - i,
    {
        let ghost o = out@;
        let ch = repl[i];
        if ch != 0x24 {
            out.push(ch);
            assert(out@ + expand_from(repl@, i + 1, ctx.view()) =~= o + expand_from(repl@, i as int, ctx.view()));
            i = i + 1;
        } else if i + 1 >= len {
            out.push(0x24);
            assert(out@ + expand_from(repl@, i + 1, ctx.view()) =~= o + expand_from(repl@, i as int, ctx.view()));
            i = i + 1;
        } else {
            let n = repl[i + 1];
            if n == 0x26 {
                append_all(&mut out, ctx.matched.as_slice());
                assert(out@ + expand_from(repl@, i + 2, ctx.view()) =~= o + expand_from(repl@, i as int, ctx.view()));
                i = i + 2;
            } else if n == 0x60 {
                append_all(&mut out, ctx.before.as_slice());
                assert(out@ + expand_from(repl@, i + 2, ctx.view()) =~= o + expand_from(repl@, i as int, ctx.view()));
                i = i + 2;
            } else if n == 0x27 {
                append_all(&mut out, ctx.after.as_slice());
                assert(out@ + expand_from(repl@, i + 2, ctx.view()) =~= o + expand_from(repl@, i as int, ctx.view()));
                i = i + 2;
            } else if n == 0x24 {
                out.push(0x24);
                assert(out@ + expand_from(repl@, i + 2, ctx.view()) =~= o + expand_from(repl@, i as int, ctx.view()));
                i = i + 2;
            } else if n == 0x3C {
                match &ctx.named {
                    None => {
                        out.push(0x24);
                        out.push(0x3C);
                        assert(out@ + expand_from(repl@, i + 2, ctx.view()) =~= o + expand_from(
                            repl@,
                            i as int,
                            ctx.view(),
                        ));
                        i = i + 2;
                    },
                    Some(named) => {
                        proof {
                            lemma_unit_index_from(repl@, 0x3E, i + 2);
                        }
                        match find_unit(repl, 0x3E, i + 2) {
                            None => {
                                out.push(0x24);
                                out.push(0x3C);
                                append_range(&mut out, repl, i + 2, len);
                                assert(out@ + expand_from(repl@, len as int, ctx.view()) =~= o
                                    + expand_from(repl@, i as int, ctx.view()));
                                i = len;
                            },
                            Some(k) => {
                                let name = copy_range(repl, i + 2, k);
                                let text = named_lookup(named, name.as_slice());
                                append_all(&mut out, text.as_slice());
                                assert(out@ + expand_from(repl@, k + 1, ctx.view()) =~= o
                                    + expand_from(repl@, i as int, ctx.view()));
                                i = k + 1;
                            },
                        }
                    },
                }
            } else if 0x30 <= n && n <= 0x39 {
                let d1: usize = (n - 0x30) as usize;
                let count = ctx.captures.len();
                if i + 2 < len && 0x30 <= repl[i + 2] && repl[i + 2] <= 0x39 && 1 <= d1 * 10
                    + (repl[i + 2] - 0x30) as usize && d1 * 10 + (repl[i + 2] - 0x30) as usize
                    <= count {
                    let nn = d1 * 10 + (repl[i + 2] - 0x30) as usize;
                    append_capture(&mut out, &ctx.captures, nn);
                    assert(out@ + expand_from(repl@, i + 3, ctx.view()) =~= o + expand_from(
                        repl@,
                        i as int,
                        ctx.view(),
                    ));
                    i = i + 3;
                } else if 1 <= d1 && d1 <= count {
                    append_capture(&mut out, &ctx.captures, d1);
                    assert(out@ + expand_from(repl@, i + 2, ctx.view()) =~= o + expand_from(
                        repl@,
                        i as int,
                        ctx.view(),
                    ));
                    i = i + 2;
                } else {
                    out.push(0x24);
                    out.push(n);
                    assert(out@ + expand_from(repl@, i + 2, ctx.view()) =~= o + expand_from(
                        repl@,
                        i as int,
                        ctx.view(),
                    ));
                    i = i + 2;
                }
            } else {
                out.push(0x24);
                assert(out@ + expand_from(repl@, i + 1, ctx.view()) =~= o + expand_from(repl@, i as int, ctx.view()));
                i = i + 1;
            }
        }
    }
    assert(out@ =~= out@ + expand_from(repl@, i as int, ctx.view()));
    out
}

/// `s` with its first occurrence of `search` replaced by `replacement`;
/// `s` unchanged when there is none.
pub open spec fn spec_replace_first(s: Seq<u16>, search: Seq<u16>, replacement: Seq<u16>) -> Seq<u16> {
    let k = first_match(s, search, 0);
    if k == -1 {
        s
    } else {
        s.subrange(0, k) + replacement + s.subrange(k + search.len(), s.len() as int)
    }
}

/// `String.prototype.replace(search, replacement)` with a string search
/// value and a string replacement, which is inserted as given.
pub fn string_replace_method(s: &[u16], search: &[u16], replacement: &[u16]) -> (r: Vec<u16>)
    ensures
        r@ == spec_replace_first(s@, search@, replacement@),
{
    proof {
        lemma_first_match(s@, search@, 0);
    }
    match find_from(s, search, 0) {
        None => copy_range(s, 0, s.len()),
        Some(k) => {
            let n = s.len();
            let mut out = copy_range(s, 0, k);
            append_all(&mut out, replacement);
            append_range(&mut out, s, k + search.len(), s.len());
            out
        },
    }
}

/// Every non-overlapping occurrence of `search` (non-empty) from `start`
/// on replaced by `replacement`.
pub open spec fn spec_replace_all_from(s: Seq<u16>, search: Seq<u16>, replacement: Seq<u16>, start: int) -> Seq<u16>
    decreases s.len() + 1 - start,
{
    let k = first_match(s, search, start);
    if search.len() == 0 || start < 0 || start > s.len() || k == -1 || k < start || k
        + search.len() > s.len() {
        s.subrange(if 0 <= start <= s.len() { start } else { s.len() as int }, s.len() as int)
    } else {
        s.subrange(start, k) + replacement + spec_replace_all_from(s, search, replacement, k + search.len())
    }
}

/// `String.prototype.replaceAll(search, replacement)` with a non-empty
/// string search value and a string replacement.
pub fn string_replace_all_method(s: &[u16], search: &[u16], replacement: &[u16]) -> (r: Vec<u16>)
    requires
        search@.len() > 0,
    ensures
        r@ == spec_replace_all_from(s@, search@, replacement@, 0),
{
    let mut out: Vec<u16> = Vec::new();
    let mut start: usize = 0;
    assert(out@ + spec_replace_all_from(s@, search@, replacement@, 0) =~= spec_replace_all_from(
        s@,
        search@,
        replacement@,
        0,
    ));
    loop
        invariant
            search@.len() > 0,
            start <= s@.len(),
            out@ + spec_replace_all_from(s@, search@, replacement@, start as int)
                == spec_replace_all_from(s@, search@, replacement@, 0),
        decreases s@.len() - start,
    {
        proof {
            lemma_first_match(s@, search@, start as int);
        }
        match find_from(s, search, start) {
            None => {
                append_range(&mut out, s, start, s.len());
                return out;
            },
            Some(k) => {
                let ghost o = out@;
                append_range(&mut out, s, start, k);
                append_all(&mut out, replacement);
                assert(out@ + spec_replace_all_from(s@, search@, replacement@, k + search@.len())
                    =~= o + spec_replace_all_from(s@, search@, replacement@, start as int));
                let n = s.len();
                assert(k + search@.len() <= n);
                start = k + search.len();
            },
        }
    }
}

/// The pieces `split` produces with a non-empty string separator, starting
/// at `start`, at most `limit` of them.
pub open spec fn spec_split_from(s: Seq<u16>, sep: Seq<u16>, start: int, limit: nat) -> Seq<Seq<u16>>
    decreases limit,
{
    if limit == 0 || start < 0 || start > s.len() {
        Seq::empty()
    } else {
        let k = first_match(s, sep, start);
        if k == -1 || k < start || k + sep.len() > s.len() {
            seq![s.subrange(start, s.len() as int)]
        } else {
            seq![s.subrange(start, k)] + spec_split_from(s, sep, k + sep.len(), (limit - 1) as nat)
        }
    }
}

/// The result of `String.prototype.split(separator, limit)` with a string
/// separator (`None` when undefined) and the limit as a 32-bit unsigned integer.
pub open spec fn spec_split(s: Seq<u16>, sep: Option<Seq<u16>>, limit: nat) -> Seq<Seq<u16>> {
    if limit == 0 {
        Seq::empty()
    } else {
        match sep {
            None => seq![s],
            Some(sep) => if sep.len() == 0 {
                Seq::new(
                    if s.len() < limit {
                        s.len()
                    } else {
                        limit
                    },
                    |i: int| seq![s[i]],
                )
            } else {
                spec_split_from(s, sep, 0, limit)
            },
        }
    }
}

pub open spec fn views(v: Seq<Vec<u16>>) -> Seq<Seq<u16>> {
    v.map_values(|x: Vec<u16>| x@)
}

/// `String.prototype.split(separator, limit)` with a string separator
/// (`None` when undefined).
pub fn string_split_method(s: &[u16], separator: Option<&[u16]>, limit: u32) -> (r: Vec<Vec<u16>>)
    ensures
        views(r@) == spec_split(
            s@,
            match separator {
                Some(p) => Some(p@),
                None => None,
            },
            limit as nat,
        ),
{
    let mut parts: Vec<Vec<u16>> = Vec::new();
    if limit == 0 {
        assert(views(parts@) =~= Seq::<Seq<u16>>::empty());
        return parts;
    }
    let sep = match separator {
        None => {
            parts.push(copy_range(s, 0, s.len()));
            assert(s@.subrange(0, s@.len() as int) =~= s@);
            assert(views(parts@)[0] == s@);
            assert(views(parts@) =~= seq![s@]);
            return parts;
        },
        Some(p) => p,
    };
    if sep.len() == 0 {
        let n: usize = if (s.len() as u64) < limit as u64 {
            s.len()
        } else {
            limit as usize
        };
        let mut i: usize = 0;
        while i < n
            invariant
                i <= n <= s@.len(),
                views(parts@) == Seq::new(i as nat, |k: int| seq![s@[k]]),
            decreases n - i,
        {
            let mut piece: Vec<u16> = Vec::new();
            piece.push(s[i]);
            assert(piece@ =~= seq![s@[i as int]]);
            let ghost before = parts@;
            parts.push(piece);
            assert(views(parts@) =~= views(before).push(seq![s@[i as int]]));
            i = i + 1;
            assert(views(parts@) =~= Seq::new(i as nat, |k: int| seq![s@[k]]));
        }
        return parts;
    }
    let mut start: usize = 0;
    let mut left: u32 = limit;
    assert(views(parts@) + spec_split_from(s@, sep@, 0, limit as nat) =~= spec_split_from(
        s@,
        sep@,
        0,
        limit as nat,
    ));
    while left > 0
        invariant
            sep@.len() > 0,
            limit > 0,
            separator is Some && separator->0@ == sep@,
            start <= s@.len(),
            views(parts@) + spec_split_from(s@, sep@, start as int, left as nat) == spec_split_from(
                s@,
                sep@,
                0,
                limit as nat,
            ),
        decreases left,
    {
        let ghost p = views(parts@);
        proof {
            lemma_first_match(s@, sep@, start as int);
        }
        match find_from(s, sep, start) {
            None => {
                let ghost prev = parts@;
                parts.push(copy_range(s, start, s.len()));
                assert(views(parts@) =~= views(prev).push(s@.subrange(start as int, s@.len() as int)));
                assert(spec_split_from(s@, sep@, start as int, left as nat) =~= seq![s@.subrange(start as int, s@.len() as int)]);
                assert(views(parts@) =~= p + spec_split_from(s@, sep@, start as int, left as nat));
                return parts;
            },
            Some(k) => {
                let ghost prev = parts@;
                parts.push(copy_range(s, start, k));
                assert(views(parts@) =~= views(prev).push(s@.subrange(start as int, k as int)));
                assert(views(parts@) + spec_split_from(s@, sep@, k + sep@.len(), (left - 1) as nat)
                    =~= p + spec_split_from(s@, sep@, start as int, left as nat));
                let n = s.len();
                assert(k + sep@.len() <= n);
                start = k + sep.len();
                left = left - 1;
            },
        }
    }
    assert(views(parts@) =~= views(parts@) + spec_split_from(s@, sep@, start as int, 0));
    parts
}

/// The pieces `parts` joined with `sep` between each two.
pub open spec fn joined(parts: Seq<Seq<u16>>, sep: Seq<u16>) -> Seq<u16>
    decreases parts.len(),
{
    if parts.len() == 0 {
        Seq::empty()
    } else if parts.len() == 1 {
        parts[0]
    } else {
        parts[0] + sep + joined(parts.drop_first(), sep)
    }
}

proof fn lemma_split_join_from(s: Seq<u16>, sep: Seq<u16>, r: Seq<u16>, start: int, limit: nat)
    requires
        sep.len() > 0,
        0 <= start <= s.len(),
        limit > s.len() - start,
    ensures
        joined(spec_split_from(s, sep, start, limit), r) == spec_replace_all_from(s, sep, r, start),
    decreases limit,
{
    lemma_first_match(s, sep, start);
    let k = first_match(s, sep, start);
    if k == -1 || k < start || k + sep.len() > s.len() {
        assert(spec_split_from(s, sep, start, limit) =~= seq![s.subrange(start, s.len() as int)]);
    } else {
        let next = k + sep.len();
        lemma_split_join_from(s, sep, r, next, (limit - 1) as nat);
        let rest = spec_split_from(s, sep, next, (limit - 1) as nat);
        assert(rest.len() > 0);
        let all = seq![s.subrange(start, k)] + rest;
        assert(spec_split_from(s, sep, start, limit) == all);
        assert(all.drop_first() =~= rest);
        assert(all.len() >= 2);
    }
}

proof fn lemma_replace_sep_by_itself(s: Seq<u16>, sep: Seq<u16>, start: int)
    requires
        sep.len() > 0,
        0 <= start <= s.len(),
    ensures
        spec_replace_all_from(s, sep, sep, start) == s.subrange(start, s.len() as int),
    decreases s.len() + 1 - start,
{
    lemma_first_match(s, sep, start);
    let k = first_match(s, sep, start);
    if !(k == -1 || k < start || k + sep.len() > s.len()) {
        lemma_replace_sep_by_itself(s, sep, k + sep.len());
        assert(s.subrange(start, k) + sep + s.subrange(k + sep.len(), s.len() as int) =~= s.subrange(
            start,
            s.len() as int,
        ));
    }
}

/// `replaceAll(sep, r)` is `split(sep)` joined with `r`: every occurrence
/// of a non-empty `sep` replaced, the text between them kept.
pub proof fn law_replace_all_is_split_then_join(s: Seq<u16>, sep: Seq<u16>, r: Seq<u16>)
    requires
        sep.len() > 0,
    ensures
        spec_replace_all_from(s, sep, r, 0) == joined(spec_split(s, Some(sep), (s.len() + 1) as nat), r),
{
    lemma_split_join_from(s, sep, r, 0, (s.len() + 1) as nat);
}

/// Splitting on a non-empty separator and joining the pieces with it gives
/// the string back, and replacing every occurrence of a string by itself
/// changes nothing.
pub proof fn law_split_then_join_gives_back(s: Seq<u16>, sep: Seq<u16>)
    requires
        sep.len() > 0,
    ensures
        joined(spec_split(s, Some(sep), (s.len() + 1) as nat), sep) == s,
        spec_replace_all_from(s, sep, sep, 0) == s,
{
    lemma_split_join_from(s, sep, sep, 0, (s.len() + 1) as nat);
    lemma_replace_sep_by_itself(s, sep, 0);
    assert(s.subrange(0, s.len() as int) =~= s);
}

/// `replace(search, r)` with a string search puts `r` in place of the
/// first occurrence of `search`, at `k`: the text before it and after it
/// is kept.
pub proof fn law_replace_first_occurrence(s: Seq<u16>, search: Seq<u16>, r: Seq<u16>, k: int)
    requires
        0 <= k,
        k + search.len() <= s.len(),
        s.subrange(k, k + search.len()) == search,
        forall|j: int| 0 <= j < k ==> #[trigger] s.subrange(j, j + search.len()) != search,
    ensures
        spec_replace_first(s, search, r) == s.subrange(0, k) + r + s.subrange(
            k + search.len(),
            s.len() as int,
        ),
{
    lemma_first_match(s, search, 0);
    let f = first_match(s, search, 0);
    assert(crate::utf16::matches_at(s, search, k));
    if f != -1 && f < k {
        assert(s.subrange(f, f + search.len()) != search);
    }
}

/// A string in which `search` does not occur comes back from
/// `replace(search, r)` unchanged.
pub proof fn law_replace_without_occurrence(s: Seq<u16>, search: Seq<u16>, r: Seq<u16>)
    requires
        forall|k: int|
            0 <= k && k + search.len() <= s.len() ==> #[trigger] s.subrange(k, k + search.len())
                != search,
    ensures
        spec_replace_first(s, search, r) == s,
{
    lemma_first_match(s, search, 0);
    let f = first_match(s, search, 0);
    if f != -1 {
        assert(s.subrange(f, f + search.len()) == search);
    }
}

} // verus!

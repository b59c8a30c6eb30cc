//! The REPL's test of whether a submission is complete: brackets and
//! template substitutions balanced, strings, comments and regular
//! expression literals closed. It is a scanner with a few heuristics, not a
//! parser. Also the way a string result of an evaluation is shown.
use crate::normalize::{lossy_char_vec, lossy_chars};
use vstd::prelude::*;
use vstd::std_specs::iter::IteratorSpec;

verus! {

/// The REPL front end. Evaluation needs the engine's virtual machine; what
/// stands here is its input test.
pub struct Repl;

/// Where the scanner is.
#[derive(Clone, Copy, Debug, PartialEq, Eq, Structural)]
pub enum ScanMode {
    Code,
    SingleQuoted,
    DoubleQuoted,
    Template,
    LineComment,
    BlockComment,
    Regex,
}

/// What the scanner waits for at the end of a template substitution
/// `${ ... }`: its `}` goes back into the template's text.
pub const SUBSTITUTION_END: char = '$';

/// The scanner's state: the closing brackets it waits for (innermost
/// last, `SUBSTITUTION_END` for an open `${`), where it is, whether the
/// next character is escaped, and the last character that was not white
/// space. Inside a substitution the scanner reads code, so brackets there
/// nest as anywhere else.
pub struct Scan {
    pub stack: Seq<char>,
    pub mode: ScanMode,
    pub escape: bool,
    pub prev: Option<char>,
}

/// The outcome of one step: an early answer, or the next state and the
/// position to read next.
pub enum ScanStep {
    Answer(bool),
    Next(Scan, int),
}

/// Characters with the Unicode White_Space property.
pub open spec fn is_white_space(c: char) -> bool {
    let n = c as u32;
    (0x09 <= n <= 0x0d) || n == 0x20 || n == 0x85 || n == 0xa0 || n == 0x1680 || (0x2000 <= n
        <= 0x200a) || n == 0x2028 || n == 0x2029 || n == 0x202f || n == 0x205f || n == 0x3000
}

/// Whether `c` has the Unicode White_Space property (what
/// `char::is_whitespace` answers).
pub fn char_is_white_space(c: char) -> (r: bool)
    ensures
        r == is_white_space(c),
{
    let n = c as u32;
    (0x09 <= n && n <= 0x0d) || n == 0x20 || n == 0x85 || n == 0xa0 || n == 0x1680 || (0x2000 <= n
        && n <= 0x200a) || n == 0x2028 || n == 0x2029 || n == 0x202f || n == 0x205f || n == 0x3000
}

pub open spec fn is_ascii_letter(c: char) -> bool {
    ('a' <= c && c <= 'z') || ('A' <= c && c <= 'Z')
}

/// A `/` may start a regular expression literal after these characters, or
/// at the start of the input.
pub open spec fn can_start_regex(prev: Option<char>) -> bool {
    match prev {
        None => true,
        Some(p) => p == '(' || p == ',' || p == '=' || p == ':' || p == '[' || p == '!' || p == '?'
            || p == '{' || p == '}' || p == ';' || p == '\n' || p == '\r' || p == '\t' || p == ' ',
    }
}

/// The position after the ASCII letters (regular expression flags) from `j`.
pub open spec fn skip_letters(cs: Seq<char>, j: int) -> int
    decreases cs.len() - j,
{
    if 0 <= j < cs.len() && is_ascii_letter(cs[j]) {
        skip_letters(cs, j + 1)
    } else {
        j
    }
}

pub open spec fn with_prev(st: Scan, c: char) -> Scan {
    Scan { stack: st.stack, mode: st.mode, escape: st.escape, prev: Some(c) }
}

pub open spec fn with_mode(st: Scan, m: ScanMode, c: char) -> Scan {
    Scan { stack: st.stack, mode: m, escape: st.escape, prev: Some(c) }
}

pub open spec fn escaped(st: Scan) -> Scan {
    Scan { stack: st.stack, mode: st.mode, escape: true, prev: st.prev }
}

/// A closing bracket: it must match the innermost open one, or the input
/// is taken as complete so that the evaluator reports the error.
pub open spec fn close_bracket(st: Scan, c: char, i: int) -> ScanStep {
    if st.stack.len() == 0 || st.stack.last() != c {
        ScanStep::Answer(true)
    } else {
        ScanStep::Next(
            Scan { stack: st.stack.drop_last(), mode: st.mode, escape: st.escape, prev: Some(c) },
            i + 1,
        )
    }
}

pub open spec fn open_bracket(st: Scan, closing: char, c: char, i: int) -> ScanStep {
    ScanStep::Next(
        Scan { stack: st.stack.push(closing), mode: st.mode, escape: st.escape, prev: Some(c) },
        i + 1,
    )
}

/// One step outside any literal or comment.
pub open spec fn code_step(cs: Seq<char>, i: int, st: Scan) -> ScanStep {
    let c = cs[i];
    let next = if i + 1 < cs.len() {
        Some(cs[i + 1])
    } else {
        None
    };
    if c == '\'' {
        ScanStep::Next(with_mode(st, ScanMode::SingleQuoted, c), i + 1)
    } else if c == '"' {
        ScanStep::Next(with_mode(st, ScanMode::DoubleQuoted, c), i + 1)
    } else if c == '`' {
        ScanStep::Next(with_mode(st, ScanMode::Template, c), i + 1)
    } else if c == '/' {
        if next == Some('/') {
            ScanStep::Next(with_mode(st, ScanMode::LineComment, '/'), i + 2)
        } else if next == Some('*') {
            ScanStep::Next(with_mode(st, ScanMode::BlockComment, '/'), i + 2)
        } else if can_start_regex(st.prev) {
            ScanStep::Next(with_mode(st, ScanMode::Regex, '/'), i + 1)
        } else {
            ScanStep::Next(with_prev(st, c), i + 1)
        }
    } else if c == '(' {
        open_bracket(st, ')', c, i)
    } else if c == '[' {
        open_bracket(st, ']', c, i)
    } else if c == '{' {
        open_bracket(st, '}', c, i)
    } else if c == '}' && st.stack.len() > 0 && st.stack.last() == SUBSTITUTION_END {
        ScanStep::Next(
            Scan {
                stack: st.stack.drop_last(),
                mode: ScanMode::Template,
                escape: st.escape,
                prev: Some(c),
            },
            i + 1,
        )
    } else if c == ')' || c == ']' || c == '}' {
        close_bracket(st, c, i)
    } else if is_white_space(c) {
        ScanStep::Next(st, i + 1)
    } else {
        ScanStep::Next(with_prev(st, c), i + 1)
    }
}

/// One step of the scanner at position `i`.
pub open spec fn scan_step(cs: Seq<char>, i: int, st: Scan) -> ScanStep {
    let c = cs[i];
    let next = if i + 1 < cs.len() {
        Some(cs[i + 1])
    } else {
        None
    };
    if st.escape {
        ScanStep::Next(Scan { stack: st.stack, mode: st.mode, escape: false, prev: st.prev }, i + 1)
    } else {
        match st.mode {
            ScanMode::LineComment => if c == '\n' || c == '\r' {
                ScanStep::Next(with_mode(st, ScanMode::Code, c), i + 1)
            } else {
                ScanStep::Next(with_prev(st, c), i + 1)
            },
            ScanMode::BlockComment => if c == '*' && next == Some('/') {
                ScanStep::Next(with_mode(st, ScanMode::Code, '/'), i + 2)
            } else {
                ScanStep::Next(with_prev(st, c), i + 1)
            },
            ScanMode::Regex => if c == '\\' {
                ScanStep::Next(escaped(st), i + 1)
            } else if c == '/' {
                ScanStep::Next(with_mode(st, ScanMode::Code, '/'), skip_letters(cs, i + 1))
            } else {
                ScanStep::Next(with_prev(st, c), i + 1)
            },
            ScanMode::SingleQuoted => if c == '\\' {
                ScanStep::Next(escaped(st), i + 1)
            } else if c == '\'' {
                ScanStep::Next(with_mode(st, ScanMode::Code, c), i + 1)
            } else {
                ScanStep::Next(with_prev(st, c), i + 1)
            },
            ScanMode::DoubleQuoted => if c == '\\' {
                ScanStep::Next(escaped(st), i + 1)
            } else if c == '"' {
                ScanStep::Next(with_mode(st, ScanMode::Code, c), i + 1)
            } else {
                ScanStep::Next(with_prev(st, c), i + 1)
            },
            ScanMode::Template => if c == '\\' {
                ScanStep::Next(escaped(st), i + 1)
            } else if c == '`' {
                ScanStep::Next(with_mode(st, ScanMode::Code, c), i + 1)
            } else if c == '$' && next == Some('{') {
                ScanStep::Next(
                    Scan {
                        stack: st.stack.push(SUBSTITUTION_END),
                        mode: ScanMode::Code,
                        escape: st.escape,
                        prev: Some('{'),
                    },
                    i + 2,
                )
            } else {
                ScanStep::Next(with_prev(st, c), i + 1)
            },
            ScanMode::Code => code_step(cs, i, st),
        }
    }
}

/// At the end of the input: complete unless a literal, a block comment or
/// a bracket is still open.
pub open spec fn complete_at_end(st: Scan) -> bool {
    (st.mode == ScanMode::Code || st.mode == ScanMode::LineComment) && st.stack.len() == 0
}

/// The scanner's answer from position `i` in state `st`.
pub open spec fn scan_from(cs: Seq<char>, i: int, st: Scan) -> bool
    decreases cs.len() - i,
{
    if i < 0 || i >= cs.len() {
        complete_at_end(st)
    } else {
        match scan_step(cs, i, st) {
            ScanStep::Answer(b) => b,
            ScanStep::Next(st2, j) => if i < j <= cs.len() {
                scan_from(cs, j, st2)
            } else {
                false
            },
        }
    }
}

pub open spec fn initial_scan() -> Scan {
    Scan { stack: Seq::empty(), mode: ScanMode::Code, escape: false, prev: None }
}

/// The REPL's answer for an input.
pub open spec fn spec_is_complete(src: Seq<char>) -> bool {
    scan_from(src, 0, initial_scan())
}

pub(crate) fn collect_chars(src: &str) -> (v: Vec<char>)
    ensures
        v@ == src@,
{
    broadcast use vstd::string::axiom_spec_iter;

    let mut v: Vec<char> = Vec::new();
    for c in it: src.chars()
        invariant
            v@ == it.seq().take(it.index()),
    {
        assert(it.seq().take(it.index() + 1) =~= it.seq().take(it.index()).push(c));
        v.push(c);
    }
    assert(v@ =~= src@);
    v
}

proof fn lemma_skip_letters(cs: Seq<char>, j: int)
    requires
        0 <= j,
    ensures
        j <= skip_letters(cs, j),
        skip_letters(cs, j) <= cs.len() || skip_letters(cs, j) == j,
    decreases cs.len() - j,
{
    if 0 <= j < cs.len() && is_ascii_letter(cs[j]) {
        lemma_skip_letters(cs, j + 1);
    }
}

impl Repl {
    /// Whether `src` is complete enough to evaluate.
    pub fn is_complete_input(src: &str) -> (r: bool)
        ensures
            r == spec_is_complete(src@),
    {
        let cs = collect_chars(src);
        let n = cs.len();
        let mut stack: Vec<char> = Vec::new();
        let mut mode = ScanMode::Code;
        let mut escape = false;
        let mut prev: Option<char> = None;
        let mut i: usize = 0;
        while i < n
            invariant
                n == cs@.len(),
                cs@ == src@,
                i <= n,
                scan_from(cs@, i as int, Scan { stack: stack@, mode, escape, prev })
                    == spec_is_complete(src@),
            decreases n - i,
        {
            let ghost st = Scan { stack: stack@, mode, escape, prev };
            let ghost before = scan_from(cs@, i as int, st);
            let c = cs[i];
            let next: Option<char> = if i + 1 < n {
                Some(cs[i + 1])
            } else {
                None
            };
            if escape {
                escape = false;
                i = i + 1;
                continue ;
            }
            match mode {
                ScanMode::LineComment => {
                    if c == '\n' || c == '\r' {
                        mode = ScanMode::Code;
                    }
                    prev = Some(c);
                    i = i + 1;
                },
                ScanMode::BlockComment => {
                    if c == '*' && next == Some('/') {
                        mode = ScanMode::Code;
                        prev = Some('/');
                        i = i + 2;
                    } else {
                        prev = Some(c);
                        i = i + 1;
                    }
                },
                ScanMode::Regex => {
                    if c == '\\' {
                        escape = true;
                        i = i + 1;
                    } else if c == '/' {
                        mode = ScanMode::Code;
                        prev = Some('/');
                        let mut j = i + 1;
                        proof {
                            lemma_skip_letters(cs@, j as int);
                        }
                        while j < n && (('a' <= cs[j] && cs[j] <= 'z') || ('A' <= cs[j] && cs[j]
                            <= 'Z'))
                            invariant
                                n == cs@.len(),
                                i < j <= n,
                                skip_letters(cs@, j as int) == skip_letters(cs@, i + 1),
                            decreases n - j,
                        {
                            j = j + 1;
                        }
                        i = j;
                    } else {
                        prev = Some(c);
                        i = i + 1;
                    }
                },
                ScanMode::SingleQuoted | ScanMode::DoubleQuoted => {
                    let quote = if mode == ScanMode::SingleQuoted {
                        '\''
                    } else {
                        '"'
                    };
                    if c == '\\' {
                        escape = true;
                    } else {
                        if c == quote {
                            mode = ScanMode::Code;
                        }
                        prev = Some(c);
                    }
                    i = i + 1;
                },
                ScanMode::Template => {
                    if c == '\\' {
                        escape = true;
                        i = i + 1;
                    } else if c == '`' {
                        mode = ScanMode::Code;
                        prev = Some('`');
                        i = i + 1;
                    } else if c == '$' && next == Some('{') {
                        stack.push(SUBSTITUTION_END);
                        mode = ScanMode::Code;
                        prev = Some('{');
                        i = i + 2;
                    } else {
                        prev = Some(c);
                        i = i + 1;
                    }
                },
                ScanMode::Code => {
                    if c == '\'' {
                        mode = ScanMode::SingleQuoted;
                        prev = Some(c);
                        i = i + 1;
                    } else if c == '"' {
                        mode = ScanMode::DoubleQuoted;
                        prev = Some(c);
                        i = i + 1;
                    } else if c == '`' {
                        mode = ScanMode::Template;
                        prev = Some(c);
                        i = i + 1;
                    } else if c == '/' {
                        if next == Some('/') {
                            mode = ScanMode::LineComment;
                            prev = Some('/');
                            i = i + 2;
                        } else if next == Some('*') {
                            mode = ScanMode::BlockComment;
                            prev = Some('/');
                            i = i + 2;
                        } else if regex_may_start(prev) {
                            mode = ScanMode::Regex;
                            prev = Some('/');
                            i = i + 1;
                        } else {
                            prev = Some(c);
                            i = i + 1;
                        }
                    } else if c == '(' {
                        stack.push(')');
                        prev = Some(c);
                        i = i + 1;
                    } else if c == '[' {
                        stack.push(']');
                        prev = Some(c);
                        i = i + 1;
                    } else if c == '{' {
                        stack.push('}');
                        prev = Some(c);
                        i = i + 1;
                    } else if c == '}' && stack.len() > 0 && stack[stack.len() - 1]
                        == SUBSTITUTION_END {
                        stack.pop();
                        mode = ScanMode::Template;
                        prev = Some(c);
                        i = i + 1;
                    } else if c == ')' || c == ']' || c == '}' {
                        match stack.pop() {
                            Some(expected) => {
                                if expected != c {
                                    return true;
                                }
                            },
                            None => {
                                return true;
                            },
                        }
                        prev = Some(c);
                        i = i + 1;
                    } else {
                        if !char_is_white_space(c) {
                            prev = Some(c);
                        }
                        i = i + 1;
                    }
                },
            }
            assert(scan_from(cs@, i as int, Scan { stack: stack@, mode, escape, prev }) == before);
        }
        (mode == ScanMode::Code || mode == ScanMode::LineComment) && stack.len() == 0
    }
}

fn regex_may_start(prev: Option<char>) -> (r: bool)
    ensures
        r == can_start_regex(prev),
{
    match prev {
        None => true,
        Some(p) => p == '(' || p == ',' || p == '=' || p == ':' || p == '[' || p == '!' || p == '?'
            || p == '{' || p == '}' || p == ';' || p == '\n' || p == '\r' || p == '\t' || p == ' ',
    }
}


/// The lowercase hexadecimal digit of `n` (below 16).
pub open spec fn hex_digit(n: u32) -> char {
    if n < 10 {
        (48 + n) as char
    } else {
        (87 + n) as char
    }
}

/// How JSON writes one character inside a string: `"` and `\` escaped,
/// the controls with a short form as `\b \t \n \f \r`, the other controls
/// as `\u00XX`, everything else as it is.
pub open spec fn json_escape(c: char) -> Seq<char> {
    let n = c as u32;
    if c == '"' {
        seq!['\\', '"']
    } else if c == '\\' {
        seq!['\\', '\\']
    } else if n == 8 {
        seq!['\\', 'b']
    } else if n == 9 {
        seq!['\\', 't']
    } else if n == 10 {
        seq!['\\', 'n']
    } else if n == 12 {
        seq!['\\', 'f']
    } else if n == 13 {
        seq!['\\', 'r']
    } else if n < 0x20 {
        seq!['\\', 'u', '0', '0', hex_digit(n / 16), hex_digit(n % 16)]
    } else {
        seq![c]
    }
}

/// The escaped characters of `cs`, in order.
pub open spec fn json_escaped(cs: Seq<char>) -> Seq<char>
    decreases cs.len(),
{
    if cs.len() == 0 {
        Seq::empty()
    } else {
        json_escaped(cs.drop_last()) + json_escape(cs.last())
    }
}

/// `cs` as a JSON string literal.
pub open spec fn json_quoted(cs: Seq<char>) -> Seq<char> {
    seq!['"'] + json_escaped(cs) + seq!['"']
}

/// `serde_json::to_string` of the string made of `cs`: the JSON string
/// literal. Serialising a `String` does not fail (it writes into a `Vec`,
/// and a string is neither a map nor a type whose `Serialize` can fail), so
/// the result is never `None`.
#[verifier::external_body]
fn json_string_literal(cs: &Vec<char>) -> (r: Option<String>)
    ensures
        r is Some,
        r.unwrap()@ == json_quoted(cs@),
{
    let s: String = cs.iter().collect();
    serde_json::to_string(&s).ok()
}

impl Repl {
    /// How the REPL shows a string result: as a JSON string literal, read
    /// from UTF-16 with unpaired surrogates as U+FFFD.
    pub fn format_string_result(s: &[u16]) -> (r: String)
        ensures
            r@ == json_quoted(lossy_chars(s@)),
    {
        let cs = lossy_char_vec(s);
        json_string_literal(&cs).unwrap()
    }
}

} // verus!

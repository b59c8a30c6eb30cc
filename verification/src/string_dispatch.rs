//! `String.prototype` methods by name, with their arguments already
//! converted (ToString, ToIntegerOrInfinity as `i64` with `i64::MIN` /
//! `i64::MAX` for −∞ / +∞).
use crate::error::ErrorKind;
use crate::normalize::{lossy_chars, normalized, spec_form, string_normalize_method};
use crate::string_build::{
    decode_lossy_from, lex_order, spec_to_well_formed, string_locale_compare_method,
    string_to_well_formed_method,
};
use crate::string_methods::{
    code_point_at, flatten, last_index_position, opt_int, opt_units, spec_padding, spec_repeat,
    spec_slice, spec_substr, spec_substring, string_at_method, string_char_code_at_method,
    string_charat_method, string_code_point_at_method, string_concat_method, string_ends_with_method,
    string_includes_method, string_indexof_method, string_lastindexof_method, string_pad_end_method,
    string_pad_start_method, string_repeat_method, string_slice_method, string_starts_with_method,
    string_substr_method, string_substring_method,
};
use crate::string_replace::{
    spec_replace_all_from, spec_replace_first, spec_split, string_replace_all_method,
    string_replace_method, string_split_method, views,
};
use crate::string_trim::{es_trim, es_trim_end, es_trim_start, spec_trim, spec_trim_end, spec_trim_start};
use crate::utf16::{clamp, copy_range, first_match, last_match, matches_at, utf16_encode};
use vstd::prelude::*;

verus! {

/// A `String.prototype` method and its converted arguments.
#[allow(inconsistent_fields)]
pub enum StringMethod {
    /// `toString` and `valueOf`.
    ToString,
    Substring { start: i64, end: Option<i64> },
    Substr { start: i64, length: Option<i64> },
    Slice { start: i64, end: Option<i64> },
    IndexOf { search: Vec<u16>, position: i64 },
    LastIndexOf { search: Vec<u16>, position: Option<i64> },
    Replace { search: Vec<u16>, replacement: Vec<u16> },
    ReplaceAll { search: Vec<u16>, replacement: Vec<u16> },
    Split { separator: Option<Vec<u16>>, limit: u32 },
    CharAt(i64),
    CharCodeAt(i64),
    Trim,
    TrimEnd,
    TrimStart,
    StartsWith { search: Vec<u16>, position: Option<i64>, search_is_regexp: bool },
    EndsWith { search: Vec<u16>, end_position: Option<i64>, search_is_regexp: bool },
    Includes { search: Vec<u16>, position: i64, search_is_regexp: bool },
    Repeat(i64),
    Concat(Vec<Vec<u16>>),
    PadStart { max_length: i64, fill: Option<Vec<u16>> },
    PadEnd { max_length: i64, fill: Option<Vec<u16>> },
    At(i64),
    CodePointAt(i64),
    Normalize(Option<Vec<u16>>),
    ToWellFormed,
    LocaleCompare(Vec<u16>),
}

/// What a `String.prototype` method answers.
pub enum StringMethodResult {
    Text(Vec<u16>),
    Index(i64),
    Boolean(bool),
    /// A code unit, or `None` for NaN / undefined.
    CodeUnit(Option<u16>),
    /// A code point, or `None` for undefined.
    CodePoint(Option<u32>),
    Parts(Vec<Vec<u16>>),
    Order(i32),
}

/// The answers as mathematical values.
pub enum StringAnswer {
    Text(Seq<u16>),
    Index(int),
    Boolean(bool),
    CodeUnit(Option<u16>),
    CodePoint(Option<u32>),
    Parts(Seq<Seq<u16>>),
    Order(int),
}

impl StringMethodResult {
    pub open spec fn view(&self) -> StringAnswer {
        match self {
            StringMethodResult::Text(t) => StringAnswer::Text(t@),
            StringMethodResult::Index(i) => StringAnswer::Index(*i as int),
            StringMethodResult::Boolean(b) => StringAnswer::Boolean(*b),
            StringMethodResult::CodeUnit(u) => StringAnswer::CodeUnit(*u),
            StringMethodResult::CodePoint(c) => StringAnswer::CodePoint(*c),
            StringMethodResult::Parts(p) => StringAnswer::Parts(views(p@)),
            StringMethodResult::Order(o) => StringAnswer::Order(*o as int),
        }
    }
}

pub open spec fn opt_view(o: Option<Vec<u16>>) -> Option<Seq<u16>> {
    match o {
        Some(v) => Some(v@),
        None => None,
    }
}

/// The inputs the methods accept: lengths that fit in memory, and a
/// non-empty search string for `replaceAll`, which never ends otherwise.
pub open spec fn string_method_accepts(s: Seq<u16>, m: StringMethod) -> bool {
    &&& s.len() <= i64::MAX
    &&& match m {
        StringMethod::ReplaceAll { search, .. } => search@.len() > 0,
        StringMethod::Repeat(count) => count < 0 || count == i64::MAX || count as int * s.len()
            <= usize::MAX,
        StringMethod::PadStart { max_length, .. } | StringMethod::PadEnd { max_length, .. } =>
            max_length <= usize::MAX,
        _ => true,
    }
}

/// The answer of `m` on `s`.
pub open spec fn spec_string_method(s: Seq<u16>, m: StringMethod) -> Result<StringAnswer, ErrorKind> {
    match m {
        StringMethod::ToString => Ok(StringAnswer::Text(s)),
        StringMethod::Substring { start, end } => Ok(
            StringAnswer::Text(spec_substring(s, start as int, opt_int(end))),
        ),
        StringMethod::Substr { start, length } => Ok(
            StringAnswer::Text(spec_substr(s, start as int, opt_int(length))),
        ),
        StringMethod::Slice { start, end } => Ok(
            StringAnswer::Text(spec_slice(s, start as int, opt_int(end))),
        ),
        StringMethod::IndexOf { search, position } => Ok(
            StringAnswer::Index(first_match(s, search@, clamp(position as int, 0, s.len() as int))),
        ),
        StringMethod::LastIndexOf { search, position } => {
            let p = last_index_position(s.len() as int, opt_int(position));
            Ok(
                StringAnswer::Index(
                    last_match(
                        s,
                        search@,
                        if p <= s.len() - search@.len() {
                            p
                        } else {
                            s.len() - search@.len()
                        },
                    ),
                ),
            )
        },
        StringMethod::Replace { search, replacement } => Ok(
            StringAnswer::Text(spec_replace_first(s, search@, replacement@)),
        ),
        StringMethod::ReplaceAll { search, replacement } => Ok(
            StringAnswer::Text(spec_replace_all_from(s, search@, replacement@, 0)),
        ),
        StringMethod::Split { separator, limit } => Ok(
            StringAnswer::Parts(spec_split(s, opt_view(separator), limit as nat)),
        ),
        StringMethod::CharAt(pos) => Ok(
            StringAnswer::Text(
                if 0 <= pos < s.len() {
                    seq![s[pos as int]]
                } else {
                    Seq::empty()
                },
            ),
        ),
        StringMethod::CharCodeAt(pos) => Ok(
            StringAnswer::CodeUnit(
                if 0 <= pos < s.len() {
                    Some(s[pos as int])
                } else {
                    None
                },
            ),
        ),
        StringMethod::Trim => Ok(StringAnswer::Text(spec_trim(s))),
        StringMethod::TrimEnd => Ok(StringAnswer::Text(spec_trim_end(s))),
        StringMethod::TrimStart => Ok(StringAnswer::Text(spec_trim_start(s))),
        StringMethod::StartsWith { search, position, search_is_regexp } => if search_is_regexp {
            Err(ErrorKind::TypeError)
        } else {
            Ok(
                StringAnswer::Boolean(
                    matches_at(
                        s,
                        search@,
                        match position {
                            Some(p) => clamp(p as int, 0, s.len() as int),
                            None => 0,
                        },
                    ),
                ),
            )
        },
        StringMethod::EndsWith { search, end_position, search_is_regexp } => if search_is_regexp {
            Err(ErrorKind::TypeError)
        } else {
            let end = match end_position {
                Some(p) => clamp(p as int, 0, s.len() as int),
                None => s.len() as int,
            };
            Ok(
                StringAnswer::Boolean(
                    search@.len() <= end && matches_at(s, search@, end - search@.len()),
                ),
            )
        },
        StringMethod::Includes { search, position, search_is_regexp } => if search_is_regexp {
            Err(ErrorKind::TypeError)
        } else {
            Ok(
                StringAnswer::Boolean(
                    first_match(s, search@, clamp(position as int, 0, s.len() as int)) != -1,
                ),
            )
        },
        StringMethod::Repeat(count) => if count < 0 || count == i64::MAX {
            Err(ErrorKind::RangeError)
        } else {
            Ok(StringAnswer::Text(spec_repeat(s, count as nat)))
        },
        StringMethod::Concat(args) => Ok(StringAnswer::Text(s + flatten(args@))),
        StringMethod::PadStart { max_length, fill } => Ok(
            StringAnswer::Text(
                match spec_padding(s.len() as int, max_length as int, opt_view(fill)) {
                    Some(p) => p + s,
                    None => s,
                },
            ),
        ),
        StringMethod::PadEnd { max_length, fill } => Ok(
            StringAnswer::Text(
                match spec_padding(s.len() as int, max_length as int, opt_view(fill)) {
                    Some(p) => s + p,
                    None => s,
                },
            ),
        ),
        StringMethod::At(index) => {
            let k = if index >= 0 {
                index as int
            } else {
                s.len() + index
            };
            Ok(
                StringAnswer::CodeUnit(
                    if 0 <= k < s.len() {
                        Some(s[k])
                    } else {
                        None
                    },
                ),
            )
        },
        StringMethod::CodePointAt(pos) => Ok(
            StringAnswer::CodePoint(
                if 0 <= pos < s.len() {
                    Some(code_point_at(s, pos as int) as u32)
                } else {
                    None
                },
            ),
        ),
        StringMethod::Normalize(form) => match spec_form(opt_view(form)) {
            Err(e) => Err(e),
            Ok(f) => Ok(StringAnswer::Text(utf16_encode(normalized(f, lossy_chars(s))))),
        },
        StringMethod::ToWellFormed => Ok(StringAnswer::Text(spec_to_well_formed(s))),
        StringMethod::LocaleCompare(that) => Ok(
            StringAnswer::Order(lex_order(decode_lossy_from(s, 0), decode_lossy_from(that@, 0))),
        ),
    }
}

/// Runs the `String.prototype` method `m` on `s`.
pub fn handle_string_method(s: &[u16], m: StringMethod) -> (r: Result<StringMethodResult, ErrorKind>)
    requires
        string_method_accepts(s@, m),
    ensures
        match spec_string_method(s@, m) {
            Err(e) => r is Err && r->Err_0 == e,
            Ok(a) => r matches Ok(v) && v.view() == a,
        },
{
    match m {
        StringMethod::ToString => {
            let t = copy_range(s, 0, s.len());
            assert(t@ =~= s@);
            Ok(StringMethodResult::Text(t))
        },
        StringMethod::Substring { start, end } => Ok(
            StringMethodResult::Text(string_substring_method(s, start, end)),
        ),
        StringMethod::Substr { start, length } => Ok(
            StringMethodResult::Text(string_substr_method(s, start, length)),
        ),
        StringMethod::Slice { start, end } => Ok(
            StringMethodResult::Text(string_slice_method(s, start, end)),
        ),
        StringMethod::IndexOf { search, position } => Ok(
            StringMethodResult::Index(string_indexof_method(s, search.as_slice(), position)),
        ),
        StringMethod::LastIndexOf { search, position } => Ok(
            StringMethodResult::Index(string_lastindexof_method(s, search.as_slice(), position)),
        ),
        StringMethod::Replace { search, replacement } => Ok(
            StringMethodResult::Text(
                string_replace_method(s, search.as_slice(), replacement.as_slice()),
            ),
        ),
        StringMethod::ReplaceAll { search, replacement } => Ok(
            StringMethodResult::Text(
                string_replace_all_method(s, search.as_slice(), replacement.as_slice()),
            ),
        ),
        StringMethod::Split { separator, limit } => {
            let parts = match &separator {
                Some(p) => string_split_method(s, Some(p.as_slice()), limit),
                None => string_split_method(s, None, limit),
            };
            Ok(StringMethodResult::Parts(parts))
        },
        StringMethod::CharAt(pos) => Ok(StringMethodResult::Text(string_charat_method(s, pos))),
        StringMethod::CharCodeAt(pos) => Ok(
            StringMethodResult::CodeUnit(string_char_code_at_method(s, pos)),
        ),
        StringMethod::Trim => Ok(StringMethodResult::Text(es_trim(s))),
        StringMethod::TrimEnd => Ok(StringMethodResult::Text(es_trim_end(s))),
        StringMethod::TrimStart => Ok(StringMethodResult::Text(es_trim_start(s))),
        StringMethod::StartsWith { search, position, search_is_regexp } => {
            match string_starts_with_method(s, search.as_slice(), position, search_is_regexp) {
                Ok(b) => Ok(StringMethodResult::Boolean(b)),
                Err(e) => Err(e),
            }
        },
        StringMethod::EndsWith { search, end_position, search_is_regexp } => {
            match string_ends_with_method(s, search.as_slice(), end_position, search_is_regexp) {
                Ok(b) => Ok(StringMethodResult::Boolean(b)),
                Err(e) => Err(e),
            }
        },
        StringMethod::Includes { search, position, search_is_regexp } => {
            match string_includes_method(s, search.as_slice(), position, search_is_regexp) {
                Ok(b) => Ok(StringMethodResult::Boolean(b)),
                Err(e) => Err(e),
            }
        },
        StringMethod::Repeat(count) => match string_repeat_method(s, count) {
            Ok(t) => Ok(StringMethodResult::Text(t)),
            Err(e) => Err(e),
        },
        StringMethod::Concat(args) => Ok(StringMethodResult::Text(string_concat_method(s, &args))),
        StringMethod::PadStart { max_length, fill } => {
            let t = match &fill {
                Some(f) => string_pad_start_method(s, max_length, Some(f.as_slice())),
                None => string_pad_start_method(s, max_length, None),
            };
            Ok(StringMethodResult::Text(t))
        },
        StringMethod::PadEnd { max_length, fill } => {
            let t = match &fill {
                Some(f) => string_pad_end_method(s, max_length, Some(f.as_slice())),
                None => string_pad_end_method(s, max_length, None),
            };
            Ok(StringMethodResult::Text(t))
        },
        StringMethod::At(index) => Ok(StringMethodResult::CodeUnit(string_at_method(s, index))),
        StringMethod::CodePointAt(pos) => Ok(
            StringMethodResult::CodePoint(string_code_point_at_method(s, pos)),
        ),
        StringMethod::Normalize(form) => {
            let r = match &form {
                Some(f) => string_normalize_method(s, Some(f.as_slice())),
                None => string_normalize_method(s, None),
            };
            match r {
                Ok(t) => Ok(StringMethodResult::Text(t)),
                Err(e) => Err(e),
            }
        },
        StringMethod::ToWellFormed => Ok(StringMethodResult::Text(string_to_well_formed_method(s))),
        StringMethod::LocaleCompare(that) => Ok(
            StringMethodResult::Order(string_locale_compare_method(s, that.as_slice())),
        ),
    }
}

} // verus!

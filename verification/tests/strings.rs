use jsbuiltins::error::ErrorKind;
use jsbuiltins::normalize::string_normalize_method;
use jsbuiltins::regex::{
    create_regex_from_utf16, find_all_matches, preprocess_pattern_non_unicode, regex_replace,
    replace_matches, splice_replacements, string_replace_regex, RegexMatch,
};
use jsbuiltins::string_build::{
    handle_string_iterator_next, string_from_char_code, string_from_code_point,
    string_locale_compare_method, string_raw, string_to_well_formed_method,
};
use jsbuiltins::string_dispatch::{handle_string_method, StringMethod, StringMethodResult};
use jsbuiltins::string_methods::{
    string_at_method, string_char_code_at_method, string_charat_method, string_code_point_at_method,
    string_concat_method, string_ends_with_method, string_includes_method, string_indexof_method,
    string_lastindexof_method, string_pad_end_method, string_pad_start_method, string_repeat_method,
    string_slice_method, string_starts_with_method, string_substr_method, string_substring_method,
};
use jsbuiltins::string_replace::{
    expand_replacement_tokens, string_replace_all_method, string_replace_method, string_split_method,
    units_equal, ReplaceContext,
};
use jsbuiltins::string_trim::{es_trim, es_trim_end, es_trim_start, is_es_whitespace};

fn u(s: &str) -> Vec<u16> {
    s.encode_utf16().collect()
}

fn text(r: Result<StringMethodResult, ErrorKind>) -> Vec<u16> {
    match r {
        Ok(StringMethodResult::Text(t)) => t,
        _ => panic!("expected a string result"),
    }
}

#[test]
fn substring_swaps_and_clamps() {
    let s = u("hello world");
    assert_eq!(string_substring_method(&s, 6, None), u("world"));
    assert_eq!(string_substring_method(&s, 4, Some(1)), u("ell"));
    assert_eq!(string_substring_method(&s, -5, Some(2)), u("he"));
    assert_eq!(string_substring_method(&s, 3, Some(100)), u("lo world"));
}

#[test]
fn substr_counts_from_the_end() {
    let s = u("abcdef");
    assert_eq!(string_substr_method(&s, -3, Some(2)), u("de"));
    assert_eq!(string_substr_method(&s, 1, None), u("bcdef"));
    assert_eq!(string_substr_method(&s, 2, Some(-1)), u(""));
}

#[test]
fn slice_with_negative_bounds() {
    let s = u("abcdef");
    assert_eq!(string_slice_method(&s, -3, None), u("def"));
    assert_eq!(string_slice_method(&s, 2, Some(-1)), u("cde"));
    assert_eq!(string_slice_method(&s, 4, Some(2)), u(""));
}

#[test]
fn index_of_and_last_index_of() {
    let s = u("hello world");
    assert_eq!(string_indexof_method(&s, &u("o"), 0), 4);
    assert_eq!(string_indexof_method(&s, &u("o"), 5), 7);
    assert_eq!(string_indexof_method(&s, &u("z"), 0), -1);
    assert_eq!(string_indexof_method(&s, &u(""), 100), 11);
    assert_eq!(string_lastindexof_method(&s, &u("o"), None), 7);
    assert_eq!(string_lastindexof_method(&s, &u("o"), Some(5)), 4);
    assert_eq!(string_lastindexof_method(&s, &u("h"), Some(-3)), 0);
}

#[test]
fn includes_starts_and_ends_with() {
    let s = u("hello world");
    assert_eq!(string_includes_method(&s, &u("lo w"), 0, false), Ok(true));
    assert_eq!(string_includes_method(&s, &u("hello"), 1, false), Ok(false));
    assert_eq!(string_includes_method(&s, &u("x"), 0, true), Err(ErrorKind::TypeError));
    assert_eq!(string_starts_with_method(&s, &u("he"), None, false), Ok(true));
    assert_eq!(string_starts_with_method(&s, &u("world"), Some(6), false), Ok(true));
    assert_eq!(string_starts_with_method(&s, &u("he"), None, true), Err(ErrorKind::TypeError));
    assert_eq!(string_ends_with_method(&s, &u("world"), None, false), Ok(true));
    assert_eq!(string_ends_with_method(&s, &u("hello"), Some(5), false), Ok(true));
    assert_eq!(string_ends_with_method(&s, &u("d"), None, true), Err(ErrorKind::TypeError));
}

#[test]
fn char_access() {
    let s = u("abc");
    assert_eq!(string_charat_method(&s, 1), u("b"));
    assert_eq!(string_charat_method(&s, 5), u(""));
    assert_eq!(string_char_code_at_method(&s, 1), Some(98));
    assert_eq!(string_char_code_at_method(&s, -1), None);
    assert_eq!(string_at_method(&s, -1), Some(99));
    assert_eq!(string_at_method(&s, 3), None);
}

#[test]
fn code_point_at_reads_pairs() {
    let s = u("a\u{1F600}");
    assert_eq!(string_code_point_at_method(&s, 1), Some(0x1F600));
    assert_eq!(string_code_point_at_method(&s, 2), Some(0xDE00));
    assert_eq!(string_code_point_at_method(&s, 3), None);
}

#[test]
fn repeat_and_its_range_error() {
    assert_eq!(string_repeat_method(&u("ab"), 3), Ok(u("ababab")));
    assert_eq!(string_repeat_method(&u("ab"), 0), Ok(u("")));
    assert_eq!(string_repeat_method(&u("ab"), -1), Err(ErrorKind::RangeError));
}

#[test]
fn padding() {
    let fill = u("0");
    assert_eq!(string_pad_start_method(&u("42"), 5, Some(&fill)), u("00042"));
    let ab = u("ab");
    assert_eq!(string_pad_end_method(&u("x"), 6, Some(&ab)), u("xababa"));
    assert_eq!(string_pad_start_method(&u("abc"), 2, None), u("abc"));
    assert_eq!(string_pad_end_method(&u("a"), 3, None), u("a  "));
    let empty = u("");
    assert_eq!(string_pad_start_method(&u("a"), 4, Some(&empty)), u("a"));
}

#[test]
fn concat_joins_in_order() {
    let args = vec![u(", "), u("world"), u("!")];
    assert_eq!(string_concat_method(&u("hello"), &args), u("hello, world!"));
}

#[test]
fn replace_first_and_all() {
    let s = u("hello");
    assert_eq!(string_replace_method(&s, &u("l"), &u("L")), u("heLlo"));
    assert_eq!(string_replace_all_method(&s, &u("l"), &u("L")), u("heLLo"));
    assert_eq!(string_replace_method(&s, &u("z"), &u("L")), u("hello"));
    assert_eq!(string_replace_method(&s, &u("l"), &u("[$&]")), u("he[$&]lo"));
    assert_eq!(string_replace_all_method(&s, &u("l"), &u("$$")), u("he$$$$o"));
}

#[test]
fn replace_with_empty_search_inserts_at_start() {
    assert_eq!(string_replace_method(&u("abc"), &u(""), &u("-")), u("-abc"));
}

#[test]
fn replacement_tokens_with_captures() {
    let ctx = ReplaceContext {
        matched: u("ab"),
        before: u("x"),
        after: u("y"),
        captures: vec![Some(u("a")), None],
        named: None,
    };
    assert_eq!(expand_replacement_tokens(&u("$1-$2-$3"), &ctx), u("a--$3"));
    assert_eq!(expand_replacement_tokens(&u("$01$&"), &ctx), u("aab"));
    assert_eq!(expand_replacement_tokens(&u("$<n>"), &ctx), u("$<n>"));
}

#[test]
fn split_cases() {
    let s = u("a,b,c");
    let sep = u(",");
    assert_eq!(string_split_method(&s, Some(&sep), u32::MAX), vec![u("a"), u("b"), u("c")]);
    assert_eq!(string_split_method(&s, Some(&sep), 2), vec![u("a"), u("b")]);
    assert_eq!(string_split_method(&s, Some(&sep), 0), Vec::<Vec<u16>>::new());
    assert_eq!(string_split_method(&s, None, u32::MAX), vec![u("a,b,c")]);
    let empty = u("");
    assert_eq!(string_split_method(&u("abc"), Some(&empty), u32::MAX), vec![u("a"), u("b"), u("c")]);
    assert_eq!(string_split_method(&u(",a,"), Some(&sep), u32::MAX), vec![u(""), u("a"), u("")]);
}

#[test]
fn trimming() {
    let s = u(" \t\u{00A0}hi\u{FEFF}\n ");
    assert_eq!(es_trim(&s), u("hi"));
    assert_eq!(es_trim_start(&s), u("hi\u{FEFF}\n "));
    assert_eq!(es_trim_end(&s), u(" \t\u{00A0}hi"));
    assert!(is_es_whitespace(0x2028));
    assert!(!is_es_whitespace(0x41));
}

#[test]
fn trimming_twice_changes_nothing() {
    let s = u("\u{3000} a b \u{2029}");
    assert_eq!(es_trim(&es_trim(&s)), es_trim(&s));
    assert_eq!(es_trim_start(&es_trim_start(&s)), es_trim_start(&s));
    assert_eq!(es_trim_end(&es_trim_end(&s)), es_trim_end(&s));
    let blank = u(" \t ");
    assert_eq!(es_trim(&blank), u(""));
    assert_eq!(es_trim(&es_trim(&blank)), u(""));
}

#[test]
fn from_char_code_wraps_to_16_bits() {
    assert_eq!(string_from_char_code(&vec![72, 105]), u("Hi"));
    assert_eq!(string_from_char_code(&vec![65536 + 65]), u("A"));
    assert_eq!(string_from_char_code(&vec![-1]), vec![0xFFFF]);
}

#[test]
fn from_code_point_and_its_range_error() {
    assert_eq!(string_from_code_point(&vec![Some(0x1F600), Some(0x41)]), Ok(vec![0xD83D, 0xDE00, 0x41]));
    assert_eq!(string_from_code_point(&vec![Some(-1)]), Err(ErrorKind::RangeError));
    assert_eq!(string_from_code_point(&vec![Some(0x110000)]), Err(ErrorKind::RangeError));
    assert_eq!(string_from_code_point(&vec![None]), Err(ErrorKind::RangeError));
}

#[test]
fn raw_interleaves_literals_and_substitutions() {
    let lits = vec![u("a"), u("b"), u("c")];
    assert_eq!(string_raw(&lits, &vec![u("1"), u("2")]), u("a1b2c"));
    assert_eq!(string_raw(&lits, &vec![u("1")]), u("a1bc"));
    assert_eq!(string_raw(&vec![], &vec![u("1")]), u(""));
}

#[test]
fn well_formed_replaces_lone_surrogates() {
    assert_eq!(string_to_well_formed_method(&vec![0xD800, 0x61]), vec![0xFFFD, 0x61]);
    assert_eq!(string_to_well_formed_method(&vec![0xD83D, 0xDE00]), vec![0xD83D, 0xDE00]);
    assert_eq!(string_to_well_formed_method(&vec![0xDC00]), vec![0xFFFD]);
}

#[test]
fn string_iterator_steps_by_code_point() {
    let s = u("a\u{1F600}");
    assert_eq!(handle_string_iterator_next(&s, 0), Some((u("a"), 1)));
    assert_eq!(handle_string_iterator_next(&s, 1), Some((vec![0xD83D, 0xDE00], 3)));
    assert_eq!(handle_string_iterator_next(&s, 3), None);
}

#[test]
fn locale_compare_orders_by_code_point() {
    assert_eq!(string_locale_compare_method(&u("a"), &u("b")), -1);
    assert_eq!(string_locale_compare_method(&u("b"), &u("a")), 1);
    assert_eq!(string_locale_compare_method(&u("ab"), &u("ab")), 0);
    assert_eq!(string_locale_compare_method(&u("ab"), &u("abc")), -1);
    assert_eq!(string_locale_compare_method(&u("\u{FFFF}"), &u("\u{1F600}")), -1);
}

#[test]
fn units_compare_by_content() {
    assert!(units_equal(&u("abc"), &u("abc")));
    assert!(!units_equal(&u("abc"), &u("abd")));
    assert!(!units_equal(&u("ab"), &u("abc")));
}

#[test]
fn dispatch_routes_each_method() {
    let s = u("Hello");
    assert_eq!(text(handle_string_method(&s, StringMethod::ToString)), u("Hello"));
    assert_eq!(text(handle_string_method(&s, StringMethod::Slice { start: 1, end: Some(3) })), u("el"));
    assert_eq!(text(handle_string_method(&s, StringMethod::Repeat(2))), u("HelloHello"));
    match handle_string_method(&s, StringMethod::IndexOf { search: u("l"), position: 0 }) {
        Ok(StringMethodResult::Index(i)) => assert_eq!(i, 2),
        _ => panic!("expected an index"),
    }
    match handle_string_method(&s, StringMethod::Includes { search: u("ell"), position: 0, search_is_regexp: false }) {
        Ok(StringMethodResult::Boolean(b)) => assert!(b),
        _ => panic!("expected a boolean"),
    }
    match handle_string_method(&s, StringMethod::Split { separator: Some(u("l")), limit: u32::MAX }) {
        Ok(StringMethodResult::Parts(p)) => assert_eq!(p, vec![u("He"), u(""), u("o")]),
        _ => panic!("expected parts"),
    }
    match handle_string_method(&s, StringMethod::CharCodeAt(0)) {
        Ok(StringMethodResult::CodeUnit(c)) => assert_eq!(c, Some(72)),
        _ => panic!("expected a code unit"),
    }
    match handle_string_method(&s, StringMethod::LocaleCompare(u("Hello"))) {
        Ok(StringMethodResult::Order(o)) => assert_eq!(o, 0),
        _ => panic!("expected an order"),
    }
    assert!(matches!(handle_string_method(&s, StringMethod::Repeat(-2)), Err(ErrorKind::RangeError)));
    assert!(matches!(
        handle_string_method(&s, StringMethod::Normalize(Some(u("NFX")))),
        Err(ErrorKind::RangeError)
    ));
    assert!(matches!(
        handle_string_method(&s, StringMethod::EndsWith { search: u("o"), end_position: None, search_is_regexp: true }),
        Err(ErrorKind::TypeError)
    ));
}

#[test]
fn normalize_composes_and_decomposes() {
    let decomposed = u("e\u{0301}");
    assert_eq!(string_normalize_method(&decomposed, None), Ok(u("\u{00E9}")));
    let nfd = u("NFD");
    assert_eq!(string_normalize_method(&u("\u{00E9}"), Some(&nfd)), Ok(u("e\u{0301}")));
    let nfkc = u("NFKC");
    assert_eq!(string_normalize_method(&u("\u{FB01}"), Some(&nfkc)), Ok(u("fi")));
    let nfkd = u("NFKD");
    assert_eq!(string_normalize_method(&u("\u{2460}"), Some(&nfkd)), Ok(u("1")));
    let bad = u("nfc");
    assert_eq!(string_normalize_method(&u("a"), Some(&bad)), Err(ErrorKind::RangeError));
}

#[test]
fn regex_compiles_and_rejects() {
    assert!(create_regex_from_utf16(&u("a+b"), "g").is_ok());
    assert!(create_regex_from_utf16(&u("(a"), "").is_err());
    assert!(create_regex_from_utf16(&u("\\u{61}"), "u").is_ok());
}

#[test]
fn regex_replace_first_and_global() {
    let s = u("aaa bbb aaa");
    assert_eq!(string_replace_regex(&s, &u("a+"), "", &u("X")), Ok(u("X bbb aaa")));
    assert_eq!(string_replace_regex(&s, &u("a+"), "g", &u("X")), Ok(u("X bbb X")));
    assert_eq!(string_replace_regex(&s, &u("(b+)"), "", &u("<$1>")), Ok(u("aaa <bbb> aaa")));
    assert_eq!(string_replace_regex(&u("abc"), &u("x"), "g", &u("y")), Ok(u("abc")));
    assert!(string_replace_regex(&s, &u("[a"), "", &u("X")).is_err());
}

#[test]
fn regex_finds_successive_matches() {
    let re = create_regex_from_utf16(&u("a+"), "g").ok().unwrap();
    let ms = find_all_matches(&re, &u("aa b aaa"), true);
    assert_eq!(ms.len(), 2);
    assert_eq!((ms[0].start, ms[0].end), (0, 2));
    assert_eq!((ms[1].start, ms[1].end), (5, 8));
    let first = find_all_matches(&re, &u("aa b aaa"), false);
    assert_eq!(first.len(), 1);
    assert_eq!((first[0].start, first[0].end), (0, 2));
}

#[test]
fn regex_empty_matches_advance_by_one() {
    let re = create_regex_from_utf16(&u("x*"), "g").ok().unwrap();
    let ms = find_all_matches(&re, &u("ab"), true);
    let ranges: Vec<(usize, usize)> = ms.iter().map(|m| (m.start, m.end)).collect();
    assert_eq!(ranges, vec![(0, 0), (1, 1), (2, 2)]);
    assert_eq!(regex_replace(&re, &u("ab"), &u("-"), true), u("-a-b-"));
}

#[test]
fn replace_given_matches() {
    let s = u("one two three");
    let ms = vec![
        RegexMatch { start: 0, end: 3, captures: vec![Some((0, 1))], names: vec![] },
        RegexMatch { start: 8, end: 13, captures: vec![None], names: vec![] },
    ];
    assert_eq!(replace_matches(&s, &u("[$&|$1]"), &ms), u("[one|o] two [three|]"));
    assert_eq!(replace_matches(&s, &u("X"), &vec![]), s);
}

#[test]
fn splice_texts_for_matches() {
    let s = u("a1b22c");
    let re = create_regex_from_utf16(&u("[0-9]+"), "g").ok().unwrap();
    let ms = find_all_matches(&re, &s, true);
    assert_eq!(ms.len(), 2);
    let texts = vec![u("<one>"), u("")];
    assert_eq!(splice_replacements(&s, &ms, &texts), u("a<one>bc"));
}

#[test]
fn non_unicode_patterns_keep_lone_surrogates() {
    let r = preprocess_pattern_non_unicode(&vec![0x61, 0xD83D, 0xDE00, 0xD800]);
    assert_eq!(r[0], 0x61);
    assert_eq!(r.len(), 4);
    let named = preprocess_pattern_non_unicode(&u("(?<a\u{1F600}>x)"));
    assert_eq!(named, vec![40, 63, 60, 97, 0x1F600, 62, 120, 41]);
}

#[test]
fn substring_bounds_in_either_order() {
    let s = u("verified");
    assert_eq!(string_substring_method(&s, 2, Some(5)), u("rif"));
    assert_eq!(string_substring_method(&s, 5, Some(2)), u("rif"));
    assert_eq!(string_substring_method(&s, -3, Some(100)), string_substring_method(&s, 100, Some(-3)));
}

#[test]
fn padding_reaches_the_length_asked() {
    let s = u("7");
    let fill = u("ab");
    let padded = string_pad_start_method(&s, 6, Some(&fill));
    assert_eq!(padded.len(), 6);
    assert_eq!(padded, u("ababa7"));
    assert_eq!(string_pad_end_method(&s, 4, None), u("7   "));
    assert_eq!(string_pad_end_method(&s, 1, Some(&fill)), u("7"));
}

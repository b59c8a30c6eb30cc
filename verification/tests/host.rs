use jsbuiltins::error::ErrorKind;
use jsbuiltins::file_store::{
    seek_answer, seek_target, vm_file_close, vm_file_puts_text, vm_store_file, FileStore, LineReader,
    PutsArg, SeekTarget,
};
use jsbuiltins::repl::{char_is_white_space, Repl};
use jsbuiltins::testintl::{
    create_mock_intl_instance, handle_mock_intl_static_method, handle_resolved_options, LocaleAnswer,
    MockIntlStaticMethod,
    LocaleCheck, MockIntl,
};

#[test]
fn complete_statements() {
    assert!(Repl::is_complete_input("let x = 1;"));
    assert!(Repl::is_complete_input("f(1, [2, 3], {a: 4})"));
    assert!(Repl::is_complete_input(""));
    assert!(Repl::is_complete_input("\"a\\\"b\""));
    assert!(Repl::is_complete_input("/* { */ 1"));
    assert!(Repl::is_complete_input("1 // {"));
    assert!(Repl::is_complete_input("x = /[(]/g"));
    assert!(Repl::is_complete_input("a / b"));
    assert!(Repl::is_complete_input("`a ${ {b: 1} }`"));
}

#[test]
fn incomplete_statements() {
    assert!(!Repl::is_complete_input("function f() {"));
    assert!(!Repl::is_complete_input("[1, 2"));
    assert!(!Repl::is_complete_input("'abc"));
    assert!(!Repl::is_complete_input("/* comment"));
    assert!(!Repl::is_complete_input("`a ${"));
    assert!(!Repl::is_complete_input("`abc"));
    assert!(!Repl::is_complete_input("x = /abc"));
}

#[test]
fn template_substitutions_nest() {
    assert!(!Repl::is_complete_input("`${{}`"));
    assert!(Repl::is_complete_input("`${{}}`"));
    assert!(Repl::is_complete_input("`a${`b${c}`}d`"));
    assert!(!Repl::is_complete_input("`a${`b${c}`"));
    assert!(!Repl::is_complete_input("(`}`"));
    assert!(Repl::is_complete_input("`${ [1, (2)] }`"));
}

#[test]
fn stray_closers_count_as_complete() {
    assert!(Repl::is_complete_input(")"));
    assert!(Repl::is_complete_input("(]"));
    assert!(Repl::is_complete_input("`}`"));
}

#[test]
fn white_space_characters() {
    assert!(char_is_white_space(' '));
    assert!(char_is_white_space('\u{3000}'));
    assert!(!char_is_white_space('a'));
}

#[test]
fn mock_intl_rejects_short_tags_without_the_helper() {
    let r = create_mock_intl_instance(Some("i".to_string()), LocaleCheck::Unavailable, None, None);
    match r {
        Err(m) => assert_eq!(m, "Invalid locale"),
        Ok(_) => panic!("expected a rejection"),
    }
    assert!(create_mock_intl_instance(Some(String::new()), LocaleCheck::Unavailable, None, None).is_err());
    let two_bytes = create_mock_intl_instance(Some("\u{00E9}".to_string()), LocaleCheck::Unavailable, None, None);
    assert!(two_bytes.is_ok());
}

#[test]
fn mock_intl_keeps_the_canonical_tag() {
    let m = create_mock_intl_instance(
        Some("sgn-GR".to_string()),
        LocaleCheck::NotCanonical,
        Some("gss".to_string()),
        Some("other".to_string()),
    )
    .unwrap();
    assert_eq!(handle_resolved_options(&m), "gss");
    let f = create_mock_intl_instance(Some("x-y".to_string()), LocaleCheck::Valid, None, Some("fb".to_string())).unwrap();
    assert_eq!(handle_resolved_options(&f), "fb");
    let plain = create_mock_intl_instance(Some("de".to_string()), LocaleCheck::Unavailable, None, None).unwrap();
    assert_eq!(handle_resolved_options(&plain), "de");
    let none = create_mock_intl_instance(None, LocaleCheck::Unavailable, None, None).unwrap();
    assert_eq!(handle_resolved_options(&none), "en-US");
    assert_eq!(handle_resolved_options(&MockIntl { locale: None }), "en-US");
}

#[test]
fn supported_locales_keep_accepted_ones_in_order() {
    let answers = vec![
        LocaleAnswer::Canonical { text: "en-US".to_string(), valid: true },
        LocaleAnswer::Canonical { text: "xx".to_string(), valid: false },
        LocaleAnswer::Nothing,
        LocaleAnswer::Fallback(Some("de".to_string())),
        LocaleAnswer::Fallback(None),
    ];
    let m = MockIntlStaticMethod::SupportedLocalesOf;
    assert_eq!(handle_mock_intl_static_method(m, Some(&answers)), Ok(vec!["en-US".to_string(), "de".to_string()]));
    assert_eq!(handle_mock_intl_static_method(m, None), Ok(vec![]));
    assert_eq!(
        handle_mock_intl_static_method(MockIntlStaticMethod::Other, Some(&answers)),
        Err(ErrorKind::EvalError)
    );
}

#[test]
fn file_store_hands_out_increasing_ids() {
    let mut store: FileStore<String> = FileStore::new();
    let a = vm_store_file(&mut store, "first".to_string());
    let b = vm_store_file(&mut store, "second".to_string());
    assert_eq!((a, b), (1, 2));
    assert_eq!(store.get(a), Some(&"first".to_string()));
    assert!(store.contains(b));
    vm_file_close(&mut store, a);
    assert!(!store.contains(a));
    assert_eq!(store.get(a), None);
    assert_eq!(store.get(b), Some(&"second".to_string()));
    vm_file_close(&mut store, 99);
    let c = vm_store_file(&mut store, "third".to_string());
    assert_eq!(c, 3);
}

#[test]
fn seek_targets_and_answers() {
    assert_eq!(seek_target(5, 0), SeekTarget::Start(5));
    assert_eq!(seek_target(-2, 1), SeekTarget::Current(-2));
    assert_eq!(seek_target(-3, 2), SeekTarget::End(-3));
    assert_eq!(seek_target(7, 9), SeekTarget::Start(0));
    assert_eq!(seek_target(-1, 0), SeekTarget::Start(u64::MAX));
    assert_eq!(seek_answer(Some(12)), 12);
    assert_eq!(seek_answer(None), -1);
}

fn read_line(bytes: &[u8], pos: &mut usize) -> Option<Vec<u8>> {
    let mut r = LineReader::new();
    loop {
        let next = if *pos < bytes.len() {
            let b = bytes[*pos];
            *pos += 1;
            Some(b)
        } else {
            None
        };
        if r.feed(next) {
            break;
        }
    }
    r.finish()
}

#[test]
fn getline_splits_lines_and_drops_carriage_returns() {
    let data = b"ab\r\ncd\n\nlast";
    let mut pos = 0;
    assert_eq!(read_line(data, &mut pos), Some(b"ab".to_vec()));
    assert_eq!(read_line(data, &mut pos), Some(b"cd".to_vec()));
    assert_eq!(read_line(data, &mut pos), Some(Vec::new()));
    assert_eq!(read_line(data, &mut pos), Some(b"last".to_vec()));
    assert_eq!(read_line(data, &mut pos), None);
}

#[test]
fn puts_writes_the_pieces_in_order() {
    let args = vec![
        PutsArg::Text("x=".to_string()),
        PutsArg::Number("1.5".to_string()),
        PutsArg::Other,
        PutsArg::Boolean(true),
        PutsArg::Boolean(false),
    ];
    let text: String = vm_file_puts_text(&args).into_iter().collect();
    assert_eq!(text, "x=1.5truefalse");
    assert!(vm_file_puts_text(&vec![]).is_empty());
}

#[test]
fn string_results_are_shown_as_json_literals() {
    let u = |s: &str| -> Vec<u16> { s.encode_utf16().collect() };
    assert_eq!(Repl::format_string_result(&u("hi")), "\"hi\"");
    assert_eq!(Repl::format_string_result(&u("a\"b\\c\n\t")), "\"a\\\"b\\\\c\\n\\t\"");
    assert_eq!(Repl::format_string_result(&u("\u{1}\u{1f}")), "\"\\u0001\\u001f\"");
    assert_eq!(Repl::format_string_result(&vec![0xD800]), "\"\u{FFFD}\"");
    assert_eq!(Repl::format_string_result(&u("\u{7f}/")), "\"\u{7f}/\"");
}

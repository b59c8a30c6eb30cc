//! The mock `Intl` constructor of the conformance-test helper object: the
//! decisions it takes on the answers of the test suite's own JavaScript
//! helpers (`isCanonicalizedStructurallyValidLanguageTag`,
//! `canonicalizeLanguageTag` and the `canonicalizedTags` table).
use crate::error::ErrorKind;
use crate::repl::collect_chars;
use vstd::prelude::*;

verus! {

/// What `isCanonicalizedStructurallyValidLanguageTag(locale)` answered.
#[derive(Clone, Copy, Debug, PartialEq, Eq, Structural)]
pub enum LocaleCheck {
    Valid,
    NotCanonical,
    /// The helper is missing, threw, or answered something else.
    Unavailable,
}

/// A mock Intl instance: the locale it was made with, canonicalized.
pub struct MockIntl {
    pub locale: Option<String>,
}

/// A tag the mock rejects when the validation helper cannot be asked:
/// empty, or a single byte in UTF-8.
pub open spec fn too_short(locale: Seq<char>) -> bool {
    locale.len() == 0 || (locale.len() == 1 && (locale[0] as u32) < 0x80)
}

fn is_too_short(locale: &str) -> (r: bool)
    ensures
        r == too_short(locale@),
{
    let cs = collect_chars(locale);
    cs.len() == 0 || (cs.len() == 1 && (cs[0] as u32) < 0x80)
}

/// The message the mock throws for a rejected tag.
pub open spec fn invalid_locale_message() -> Seq<char> {
    seq!['I', 'n', 'v', 'a', 'l', 'i', 'd', ' ', 'l', 'o', 'c', 'a', 'l', 'e']
}

/// The locale a mock instance keeps: the canonical form when the helper
/// gave one, else the first entry of `canonicalizedTags[locale]`, else the
/// tag as given.
pub open spec fn kept_locale(locale: Seq<char>, canonical: Option<String>, fallback: Option<String>) -> Seq<char> {
    match canonical {
        Some(c) => c@,
        None => match fallback {
            Some(f) => f@,
            None => locale,
        },
    }
}

/// `new MockIntlConstructor(locale)`: `check` is the validation helper's
/// answer, `canonical` what `canonicalizeLanguageTag` returned (`None` when
/// it is missing or returned no string), `fallback` the first entry of
/// `canonicalizedTags[locale]` (`None` when there is none).
pub fn create_mock_intl_instance(
    locale: Option<String>,
    check: LocaleCheck,
    canonical: Option<String>,
    fallback: Option<String>,
) -> (r: Result<MockIntl, String>)
    ensures
        match locale {
            None => r matches Ok(m) && m.locale is None,
            Some(l) => if check == LocaleCheck::Unavailable && too_short(l@) {
                r matches Err(e) && e@ == invalid_locale_message()
            } else {
                r matches Ok(m) && m.locale matches Some(k) && k@ == kept_locale(l@, canonical, fallback)
            },
        },
{
    match locale {
        None => Ok(MockIntl { locale: None }),
        Some(l) => {
            if check == LocaleCheck::Unavailable && is_too_short(l.as_str()) {
                let msg = String::from_str("Invalid locale");
                proof {
                    reveal_strlit("Invalid locale");
                    assert(msg@ =~= invalid_locale_message());
                }
                return Err(msg);
            }
            let kept = match canonical {
                Some(c) => c,
                None => match fallback {
                    Some(f) => f,
                    None => l,
                },
            };
            Ok(MockIntl { locale: Some(kept) })
        },
    }
}

/// The locale `resolvedOptions()` reports when none was kept.
pub open spec fn default_locale() -> Seq<char> {
    seq!['e', 'n', '-', 'U', 'S']
}

/// `resolvedOptions().locale` of a mock instance.
pub fn handle_resolved_options(instance: &MockIntl) -> (r: String)
    ensures
        r@ == match instance.locale {
            Some(l) => l@,
            None => default_locale(),
        },
{
    match &instance.locale {
        Some(l) => l.clone(),
        None => {
            let d = String::from_str("en-US");
            proof {
                reveal_strlit("en-US");
                assert(d@ =~= default_locale());
            }
            d
        },
    }
}

/// What the helpers answered for one candidate of `supportedLocalesOf`.
pub enum LocaleAnswer {
    /// `canonicalizeLanguageTag` gave `text`, which the validation helper
    /// did (`true`) or did not accept.
    Canonical { text: String, valid: bool },
    /// The canonicalization helper is missing: the first entry of
    /// `canonicalizedTags[candidate]`, if any.
    Fallback(Option<String>),
    /// The candidate is not a string, or the helper gave no string.
    Nothing,
}

/// The locale a candidate contributes, if any.
pub open spec fn supported(a: LocaleAnswer) -> Option<Seq<char>> {
    match a {
        LocaleAnswer::Canonical { text, valid } => if valid {
            Some(text@)
        } else {
            None
        },
        LocaleAnswer::Fallback(Some(f)) => Some(f@),
        _ => None,
    }
}

/// The locales of `answers`, in order.
pub open spec fn supported_list(answers: Seq<LocaleAnswer>) -> Seq<Seq<char>>
    decreases answers.len(),
{
    if answers.len() == 0 {
        Seq::empty()
    } else {
        let prefix = supported_list(answers.drop_last());
        match supported(answers.last()) {
            Some(l) => prefix.push(l),
            None => prefix,
        }
    }
}

/// A static method called on the mock Intl constructor.
#[derive(Clone, Copy, Debug, PartialEq, Eq, Structural)]
pub enum MockIntlStaticMethod {
    SupportedLocalesOf,
    /// Any other name.
    Other,
}

/// A static method of the mock Intl constructor: for `supportedLocalesOf`
/// the accepted locales (`answers` is `None` when the call did not get
/// exactly one argument, which gives an empty list); any other method is
/// an EvalError.
pub fn handle_mock_intl_static_method(method: MockIntlStaticMethod, answers: Option<&Vec<LocaleAnswer>>) -> (r:
    Result<Vec<String>, ErrorKind>)
    ensures
        method is Other ==> r == Err::<Vec<String>, ErrorKind>(ErrorKind::EvalError),
        method is SupportedLocalesOf ==> (r matches Ok(v) && match answers {
            None => v@.len() == 0,
            Some(a) => v@.map_values(|s: String| s@) == supported_list(a@),
        }),
{
    if let MockIntlStaticMethod::Other = method {
        return Err(ErrorKind::EvalError);
    }
    let a = match answers {
        None => return Ok(Vec::new()),
        Some(a) => a,
    };
    let mut out: Vec<String> = Vec::new();
    let mut i: usize = 0;
    while i < a.len()
        invariant
            i <= a@.len(),
            out@.map_values(|s: String| s@) == supported_list(a@.take(i as int)),
        decreases a.len() - i,
    {
        assert(a@.take(i + 1).drop_last() =~= a@.take(i as int));
        assert(a@.take(i + 1).last() == a@[i as int]);
        let ghost before = out@;
        match &a[i] {
            LocaleAnswer::Canonical { text, valid } => {
                if *valid {
                    out.push(text.clone());
                }
            },
            LocaleAnswer::Fallback(Some(f)) => {
                out.push(f.clone());
            },
            _ => {
            },
        }
        assert(out@.map_values(|s: String| s@) =~= supported_list(a@.take(i + 1)));
        i = i + 1;
    }
    assert(a@.take(i as int) =~= a@);
    Ok(out)
}

} // verus!

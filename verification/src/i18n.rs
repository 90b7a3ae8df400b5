//! The two languages of the screens.

use crate::text::{lower_ascii, str_eq, starts_with, to_lower_ascii};
use vstd::prelude::*;

verus! {

/// The language of the screens.
#[derive(Clone, Copy, PartialEq, Eq, Structural, Debug)]
pub enum Lang {
    En,
    Zh,
}

/// The language of a locale: Chinese where its name begins with `zh`, else English.
pub open spec fn locale_lang(locale: Seq<char>) -> Lang {
    if "zh"@.is_prefix_of(lower_ascii(locale)) {
        Lang::Zh
    } else {
        Lang::En
    }
}

/// The language that a stored value names; that of the locale where it names none.
pub open spec fn stored_lang(stored: Option<Seq<char>>, locale: Seq<char>) -> Lang {
    match stored {
        Some(s) => if s == "中文"@ || s == "zh"@ {
            Lang::Zh
        } else if s == "en"@ {
            Lang::En
        } else {
            locale_lang(locale)
        },
        None => locale_lang(locale),
    }
}

/// How a language is stored.
pub open spec fn lang_code(lang: Lang) -> Seq<char> {
    match lang {
        Lang::En => "en"@,
        Lang::Zh => "中文"@,
    }
}

impl Lang {
    /// The language that a stored value names; that of the locale where it names none.
    pub fn resolve(stored: Option<&str>, locale: &str) -> (r: Self)
        ensures
            r == stored_lang(crate::path::opt_view(stored), locale@),
    {
        match stored {
            Some(s) => {
                if str_eq(s, "中文") || str_eq(s, "zh") {
                    Lang::Zh
                } else if str_eq(s, "en") {
                    Lang::En
                } else {
                    Self::detect(locale)
                }
            },
            None => Self::detect(locale),
        }
    }

    /// The language of a locale.
    pub fn detect(locale: &str) -> (r: Self)
        ensures
            r == locale_lang(locale@),
    {
        if starts_with(to_lower_ascii(locale).as_str(), "zh") {
            Lang::Zh
        } else {
            Lang::En
        }
    }

    /// How the language is stored.
    pub fn code(self) -> (r: &'static str)
        ensures
            r@ == lang_code(self),
    {
        match self {
            Lang::En => "en",
            Lang::Zh => "中文",
        }
    }

    /// The variant of a text in this language.
    pub fn pick(self, en: &'static str, zh: &'static str) -> (r: &'static str)
        ensures
            r == match self {
                Lang::En => en,
                Lang::Zh => zh,
            },
    {
        match self {
            Lang::En => en,
            Lang::Zh => zh,
        }
    }
}

/// The locale that counts: the first of the variables `LC_ALL`, `LC_MESSAGES` and
/// `LANG` that is set.
pub fn locale_of(lc_all: Option<String>, lc_messages: Option<String>, lang: Option<String>) -> (r:
    String)
    ensures
        match (lc_all, lc_messages, lang) {
            (Some(a), _, _) => r == a,
            (None, Some(b), _) => r == b,
            (None, None, Some(c)) => r == c,
            (None, None, None) => r@ == Seq::<char>::empty(),
        },
{
    if let Some(a) = lc_all {
        return a;
    }
    if let Some(b) = lc_messages {
        return b;
    }
    if let Some(c) = lang {
        return c;
    }
    String::new()
}

/// Law: a language that was stored is the language that is read back, whatever the
/// locale.
pub proof fn law_lang_round_trip(lang: Lang, locale: Seq<char>)
    ensures
        stored_lang(Some(lang_code(lang)), locale) == lang,
{
    reveal_strlit("en");
    reveal_strlit("zh");
    reveal_strlit("中文");
    assert("en"@[0] == 'e');
    assert("zh"@[0] == 'z');
    assert("中文"@[0] == '中');
}

/// Law: a stored language decides whatever the locale says; anything else that is stored,
/// and nothing at all, leaves it to the locale. A locale is Chinese exactly where its name
/// begins with `zh`, however these letters are written.
pub proof fn law_language(stored: Seq<char>, locale: Seq<char>)
    ensures
        stored_lang(None, locale) == locale_lang(locale),
        stored != "en"@ && stored != "zh"@ && stored != "中文"@ ==> stored_lang(
            Some(stored),
            locale,
        ) == locale_lang(locale),
        stored_lang(Some("zh"@), locale) == Lang::Zh,
        stored_lang(Some("en"@), locale) == Lang::En,
        locale_lang(locale) == Lang::Zh <==> locale.len() >= 2 && crate::text::ascii_lower(
            locale[0],
        ) == 'z' && crate::text::ascii_lower(locale[1]) == 'h',
{
    reveal_strlit("en");
    reveal_strlit("zh");
    reveal_strlit("中文");
    assert("en"@[0] == 'e');
    assert("zh"@[0] == 'z' && "zh"@[1] == 'h' && "zh"@.len() == 2);
    assert("中文"@[0] == '中');
    let low = lower_ascii(locale);
    if locale.len() >= 2 && crate::text::ascii_lower(locale[0]) == 'z' && crate::text::ascii_lower(
        locale[1],
    ) == 'h' {
        assert(low.take(2) =~= "zh"@);
    }
    if "zh"@.is_prefix_of(low) {
        assert(low[0] == "zh"@[0] && low[1] == "zh"@[1]);
    }
}

} // verus!

//! Languages: resolving the configured locale, picking the sentence for it, and
//! the CJK guard used to catch untranslated text in English output.
//!
//! Every user-facing sentence is chosen by an exhaustive `match` on [`Locale`], so a
//! missing translation cannot silently become an empty string.

use vstd::prelude::*;
use crate::text::{ascii_lower_chars, ascii_lower_seq, chars_of, chars_start_with, starts_with, str_eq};

verus! {

/// The language of the interface and of the command line.
#[derive(Debug, Clone, Copy, PartialEq, Eq, Structural)]
pub enum Locale {
    Zh,
    En,
}

/// Setting value: follow the operating system.
pub const LOCALE_AUTO: &'static str = "auto";
/// Setting value: Chinese.
pub const LOCALE_ZH: &'static str = "zh";
/// Setting value: English.
pub const LOCALE_EN: &'static str = "en";

/// `from_system_tag` as a spec: English exactly when the tag starts with "en",
/// compared without regard to ASCII case; Chinese otherwise.
pub open spec fn locale_of_tag(tag: Option<Seq<char>>) -> Locale {
    match tag {
        Some(t) => if starts_with(ascii_lower_seq(t), seq!['e', 'n']) { Locale::En } else { Locale::Zh },
        None => Locale::Zh,
    }
}

/// `resolve` as a spec: an explicit "en"/"zh" wins; anything else follows the system tag.
pub open spec fn resolve_spec(setting: Seq<char>, system_tag: Option<Seq<char>>) -> Locale {
    if setting == LOCALE_EN@ {
        Locale::En
    } else if setting == LOCALE_ZH@ {
        Locale::Zh
    } else {
        locale_of_tag(system_tag)
    }
}

impl Locale {
    /// The language for a configuration value. `system_tag` is the operating system's
    /// BCP-47 language tag, read by the caller (`None` when it cannot be determined).
    /// Anything unrecognised falls back to Chinese, never to a blank.
    pub fn resolve(setting: &str, system_tag: Option<&str>) -> (r: Locale)
        ensures
            r == resolve_spec(setting@, match system_tag { Some(t) => Some(t@), None => None }),
    {
        if str_eq(setting, LOCALE_EN) {
            Locale::En
        } else if str_eq(setting, LOCALE_ZH) {
            Locale::Zh
        } else {
            Self::from_system_tag(system_tag)
        }
    }

    /// The language for a BCP-47 tag (`zh-CN`, `en-US`, …). Unknown tags give Chinese.
    pub fn from_system_tag(tag: Option<&str>) -> (r: Locale)
        ensures
            r == locale_of_tag(match tag { Some(t) => Some(t@), None => None }),
    {
        match tag {
            Some(t) => {
                let v = chars_of(t);
                let low = ascii_lower_chars(v.as_slice());
                let en = ['e', 'n'];
                let ok = chars_start_with(low.as_slice(), &en);
                proof {
                    assert(en@ == seq!['e', 'n']);
                }
                if ok { Locale::En } else { Locale::Zh }
            },
            None => Locale::Zh,
        }
    }

    /// The configuration value naming this language.
    pub fn tag(self) -> (r: &'static str)
        ensures
            r@ == (match self { Locale::Zh => LOCALE_ZH@, Locale::En => LOCALE_EN@ }),
    {
        match self {
            Locale::Zh => LOCALE_ZH,
            Locale::En => LOCALE_EN,
        }
    }

    /// The one of two sentences that matches this language.
    pub fn pick(self, zh: &'static str, en: &'static str) -> (r: &'static str)
        ensures
            r == (match self { Locale::Zh => zh, Locale::En => en }),
    {
        match self {
            Locale::Zh => zh,
            Locale::En => en,
        }
    }
}

/// Whether a character is CJK: ideographs (and extension A), CJK punctuation,
/// full-width forms, kana and hangul.
pub open spec fn is_cjk(c: char) -> bool {
    let u = c as u32;
    ||| (0x4E00 <= u && u <= 0x9FFF)
    ||| (0x3400 <= u && u <= 0x4DBF)
    ||| (0x3000 <= u && u <= 0x303F)
    ||| (0xFF00 <= u && u <= 0xFFEF)
    ||| (0x3040 <= u && u <= 0x30FF)
    ||| (0xAC00 <= u && u <= 0xD7AF)
}

/// Whether `s` holds any CJK character, punctuation and full-width forms included —
/// a full-width colon in an English sentence is the most common slip.
pub fn has_cjk(s: &str) -> (r: bool)
    ensures
        r == exists|i: int| 0 <= i < s@.len() && is_cjk(#[trigger] s@[i]),
{
    let v = chars_of(s);
    let mut i: usize = 0;
    while i < v.len()
        invariant
            i <= v@.len(),
            v@ == s@,
            forall|j: int| 0 <= j < i ==> !is_cjk(#[trigger] v@[j]),
        decreases v@.len() - i,
    {
        let u = v[i] as u32;
        if (0x4E00 <= u && u <= 0x9FFF) || (0x3400 <= u && u <= 0x4DBF) || (0x3000 <= u && u <= 0x303F)
            || (0xFF00 <= u && u <= 0xFFEF) || (0x3040 <= u && u <= 0x30FF) || (0xAC00 <= u && u <= 0xD7AF)
        {
            proof {
                assert(is_cjk(s@[i as int]));
            }
            return true;
        }
        i = i + 1;
    }
    false
}

} // verus!

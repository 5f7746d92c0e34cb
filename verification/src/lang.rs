//! Languages, language codes and the word tables.
//!
//! Each supported language selects a fixed table of 2048 words. The table
//! itself is outside data; verified code reads it through `wordlist_word`
//! and searches it with `find_word_index`.

use crate::text::{eq_chars, is_space_char};
use vstd::prelude::*;

verus! {

/// A supported wordlist language.
#[derive(Clone, Copy, Debug, PartialEq, Eq, Structural)]
pub enum Language {
    English,
    SimplifiedChinese,
    TraditionalChinese,
    French,
    Italian,
    Japanese,
    Korean,
    Spanish,
}

/// The number of each language, used to index the word tables.
pub open spec fn lang_id(l: Language) -> int {
    match l {
        Language::English => 0,
        Language::SimplifiedChinese => 1,
        Language::TraditionalChinese => 2,
        Language::French => 3,
        Language::Italian => 4,
        Language::Japanese => 5,
        Language::Korean => 6,
        Language::Spanish => 7,
    }
}

/// The language selected by a code, if the code is recognized.
pub open spec fn lang_of_code(s: Seq<char>) -> Option<Language> {
    if s == "en"@ {
        Some(Language::English)
    } else if s == "zh-hans"@ {
        Some(Language::SimplifiedChinese)
    } else if s == "zh-hant"@ {
        Some(Language::TraditionalChinese)
    } else if s == "fr"@ {
        Some(Language::French)
    } else if s == "it"@ {
        Some(Language::Italian)
    } else if s == "ja"@ {
        Some(Language::Japanese)
    } else if s == "ko"@ {
        Some(Language::Korean)
    } else if s == "es"@ {
        Some(Language::Spanish)
    } else {
        None
    }
}

/// The language selected by an optional code; a missing code selects
/// English.
pub open spec fn resolve_lang(code: Option<&str>) -> Option<Language> {
    match code {
        None => Some(Language::English),
        Some(s) => lang_of_code(s@),
    }
}

/// Entry `index` of the word table for the language numbered `lang`.
pub uninterp spec fn word_at(lang: int, index: int) -> Seq<char>;

/// Compares two string slices by their characters.
///
/// Relies on `str::to_owned` and `String`'s `==`, which compare the
/// underlying text.
fn str_eq(a: &str, b: &str) -> (r: bool)
    ensures
        r == (a@ == b@),
{
    let s1 = a.to_owned();
    let s2 = b.to_owned();
    s1 == s2
}

/// Looks up the language selected by a code.
pub fn language_from_code(code: &str) -> (r: Option<Language>)
    ensures
        r == lang_of_code(code@),
{
    if str_eq(code, "en") {
        Some(Language::English)
    } else if str_eq(code, "zh-hans") {
        Some(Language::SimplifiedChinese)
    } else if str_eq(code, "zh-hant") {
        Some(Language::TraditionalChinese)
    } else if str_eq(code, "fr") {
        Some(Language::French)
    } else if str_eq(code, "it") {
        Some(Language::Italian)
    } else if str_eq(code, "ja") {
        Some(Language::Japanese)
    } else if str_eq(code, "ko") {
        Some(Language::Korean)
    } else if str_eq(code, "es") {
        Some(Language::Spanish)
    } else {
        None
    }
}

/// Looks up the language selected by an optional code; a missing code
/// selects English.
pub fn resolve_language(code: Option<&str>) -> (r: Option<Language>)
    ensures
        r == resolve_lang(code),
{
    match code {
        None => Some(Language::English),
        Some(c) => language_from_code(c),
    }
}

/// The number of a language, as a machine integer.
pub(crate) fn lang_index(l: Language) -> (r: u8)
    ensures
        r < 8,
        r as int == lang_id(l),
{
    match l {
        Language::English => 0,
        Language::SimplifiedChinese => 1,
        Language::TraditionalChinese => 2,
        Language::French => 3,
        Language::Italian => 4,
        Language::Japanese => 5,
        Language::Korean => 6,
        Language::Spanish => 7,
    }
}

/// Reads one entry of a language's word table.
///
/// Relies on `bip39::Language::word_list`, the fixed 2048-entry table of
/// each supported language. As the standard wordlists require, the entries
/// of each table are pairwise distinct, nonempty, and contain no separator
/// character.
#[verifier::external_body]
pub(crate) fn wordlist_word(lang: u8, index: u16) -> (r: Vec<char>)
    requires
        lang < 8,
        index < 2048,
    ensures
        r@ == word_at(lang as int, index as int),
        r@.len() > 0,
        forall|k: int| 0 <= k < r@.len() ==> !is_space_char(r@[k]),
        forall|j: int| 0 <= j < 2048 && j != index ==> word_at(lang as int, j) != r@,
{
    let language = match lang {
        0 => bip39::Language::English,
        1 => bip39::Language::SimplifiedChinese,
        2 => bip39::Language::TraditionalChinese,
        3 => bip39::Language::French,
        4 => bip39::Language::Italian,
        5 => bip39::Language::Japanese,
        6 => bip39::Language::Korean,
        _ => bip39::Language::Spanish,
    };
    language.word_list()[index as usize].chars().collect()
}

/// Searches a language's word table for a word; returns its index, which
/// is unique, or nothing when the word is not in the table.
pub(crate) fn find_word_index(lang: u8, w: &Vec<char>) -> (r: Option<u16>)
    requires
        lang < 8,
    ensures
        match r {
            Some(i) => i < 2048 && word_at(lang as int, i as int) == w@ && (forall|j: int|
                0 <= j < 2048 && j != i ==> word_at(lang as int, j) != w@),
            None => forall|j: int| 0 <= j < 2048 ==> word_at(lang as int, j) != w@,
        },
{
    let mut i: u16 = 0;
    while i < 2048
        invariant
            lang < 8,
            i <= 2048,
            forall|j: int| 0 <= j < i ==> word_at(lang as int, j) != w@,
        decreases 2048 - i,
    {
        let cand = wordlist_word(lang, i);
        if eq_chars(&cand, w) {
            return Some(i);
        }
        i = i + 1;
    }
    None
}

} // verus!

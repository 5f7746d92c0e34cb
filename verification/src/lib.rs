//! BIP39 mnemonic codec and seed stretching.
//!
//! Entropy of 16, 20, 24, 28 or 32 bytes is rendered as a phrase of 12,
//! 15, 18, 21 or 24 words drawn from a fixed per-language table of 2048
//! words; the phrase carries a checksum taken from the entropy's digest. A
//! validated phrase, or its raw entropy, can be stretched into key
//! material with a password-based derivation.

use vstd::prelude::*;

pub mod bits;
pub mod codec;
pub mod kdf;
pub mod lang;
pub mod text;

pub use codec::{decode_spec_ok, entropy_len_for, lemma_checksum_bit_counts,
    lemma_indices_round_trip, valid_entropy_len, valid_word_count, word_in_table, words_of};
pub use kdf::{mini_secret_of, seed_of};
pub use lang::{lang_id, lang_of_code, resolve_lang, Language};
pub use text::{join_words, split_words};

use crate::codec::{entropy_from_indices, index_of, lemma_index_of_bound, phrase_of_entropy,
    word_count_for};
use crate::kdf::{random_bytes, stretch_mini, stretch_seed, take_32};
use crate::lang::{find_word_index, lang_index, resolve_language, word_at};
use crate::text::{chars_of, split_chars, views_of};

verus! {

/// A typed failure of one of the operations.
#[derive(Clone, Copy, Debug, PartialEq, Eq, Structural)]
pub enum Bip39Error {
    /// The language code is not recognized.
    InvalidLanguageCode,
    /// The requested word count is not one of 12, 15, 18, 21 or 24; the
    /// rejected count is carried.
    InvalidWordCount(u32),
    /// The given entropy length is not one of 16, 20, 24, 28 or 32 bytes;
    /// the rejected length is carried.
    InvalidEntropyLength(usize),
    /// A phrase does not hold 12, 15, 18, 21 or 24 words; the count found
    /// is carried.
    BadPhraseWordCount(usize),
    /// A phrase holds a word absent from the selected table; the position
    /// of the first such word is carried.
    UnknownWord(usize),
    /// A phrase parses but its checksum bits disagree with the recomputed
    /// checksum.
    ChecksumMismatch,
}

/// What a decode failure says of the phrase: the wrong word count, the
/// first word absent from the table, or a phrase whose words render no
/// entropy value at all (its checksum cannot match).
pub open spec fn decode_err_matches(lang: int, phrase: Seq<char>, err: Bip39Error) -> bool {
    let ws = split_words(phrase);
    match err {
        Bip39Error::BadPhraseWordCount(c) => c == ws.len() && !valid_word_count(ws.len() as int),
        Bip39Error::UnknownWord(i) => valid_word_count(ws.len() as int) && i < ws.len()
            && !word_in_table(lang, ws[i as int]) && (forall|k: int|
            0 <= k < i ==> word_in_table(lang, #[trigger] ws[k])),
        Bip39Error::ChecksumMismatch => valid_word_count(ws.len() as int) && (forall|k: int|
            0 <= k < ws.len() ==> word_in_table(lang, #[trigger] ws[k])) && !(exists|e: Seq<u8>|
            decode_spec_ok(lang, phrase, e)),
        _ => false,
    }
}

/// What decoding returns: the unique entropy value the phrase renders, or
/// the failure that fits the phrase.
pub open spec fn decode_matches(
    lang: int,
    phrase: Seq<char>,
    r: Result<Vec<u8>, Bip39Error>,
) -> bool {
    match r {
        Ok(e) => decode_spec_ok(lang, phrase, e@) && (forall|e2: Seq<u8>|
            decode_spec_ok(lang, phrase, e2) ==> e2 == e@),
        Err(err) => decode_err_matches(lang, phrase, err),
    }
}

/// Decodes a phrase back to its entropy bytes.
///
/// The phrase's words, split at whitespace, are looked up in the selected
/// language's table, their indices re-assembled into entropy and checksum
/// bits, and the checksum re-verified against the recovered entropy's
/// digest. A phrase whose checksum does not verify is refused.
pub fn decode_phrase(phrase: &str, language_code: Option<&str>) -> (r: Result<Vec<u8>, Bip39Error>)
    ensures
        match resolve_lang(language_code) {
            None => r == Err::<Vec<u8>, Bip39Error>(Bip39Error::InvalidLanguageCode),
            Some(l) => decode_matches(lang_id(l), phrase@, r),
        },
{
    let l = match resolve_language(language_code) {
        Some(l) => l,
        None => {
            return Err(Bip39Error::InvalidLanguageCode);
        },
    };
    let li = lang_index(l);
    let chars = chars_of(phrase);
    let words = split_chars(&chars);
    let ghost ws = split_words(phrase@);
    let n = words.len();
    if !(n == 12 || n == 15 || n == 18 || n == 21 || n == 24) {
        return Err(Bip39Error::BadPhraseWordCount(n));
    }
    let mut idxs: Vec<u16> = Vec::new();
    let mut i: usize = 0;
    while i < n
        invariant
            i <= n,
            n == words@.len(),
            li < 8,
            li as int == lang_id(l),
            resolve_lang(language_code) == Some(l),
            ws == split_words(phrase@),
            views_of(words@) == ws,
            ws.len() == n,
            valid_word_count(n as int),
            idxs@.len() == i,
            forall|k: int| 0 <= k < i ==> #[trigger] idxs@[k] < 2048,
            forall|k: int| 0 <= k < i ==> word_at(lang_id(l), #[trigger] idxs@[k] as int)
                == ws[k],
            forall|k: int, j: int|
                #![trigger word_at(lang_id(l), j), ws[k]]
                0 <= k < i && 0 <= j < 2048 && j != idxs@[k] ==> word_at(lang_id(l), j) != ws[k],
        decreases n - i,
    {
        let w = &words[i];
        proof {
            assert(views_of(words@)[i as int] == words@[i as int]@);
        }
        match find_word_index(li, w) {
            Some(ix) => {
                idxs.push(ix);
            },
            None => {
                proof {
                    assert forall|k: int| 0 <= k < i implies word_in_table(
                        lang_id(l),
                        #[trigger] ws[k],
                    ) by {
                        assert(word_at(lang_id(l), idxs@[k] as int) == ws[k]);
                    }
                    assert(!word_in_table(lang_id(l), ws[i as int]));
                }
                return Err(Bip39Error::UnknownWord(i));
            },
        }
        i = i + 1;
    }
    match entropy_from_indices(&idxs, Ghost(lang_id(l)), Ghost(ws)) {
        Some(e) => Ok(e),
        None => {
            proof {
                assert forall|k: int| 0 <= k < ws.len() implies word_in_table(
                    lang_id(l),
                    #[trigger] ws[k],
                ) by {
                    assert(word_at(lang_id(l), idxs@[k] as int) == ws[k]);
                }
            }
            Err(Bip39Error::ChecksumMismatch)
        },
    }
}

/// Renders entropy bytes as a phrase in the selected language.
///
/// The entropy's length must be 16, 20, 24, 28 or 32 bytes; the phrase is
/// its words joined by single spaces. One entropy value always yields one
/// phrase.
pub fn mnemonic_from_entropy(entropy: &Vec<u8>, language_code: Option<&str>) -> (r: Result<
    String,
    Bip39Error,
>)
    ensures
        match resolve_lang(language_code) {
            None => r == Err::<String, Bip39Error>(Bip39Error::InvalidLanguageCode),
            Some(l) => match r {
                Ok(p) => valid_entropy_len(entropy@.len() as int) && p@ == join_words(
                    words_of(lang_id(l), entropy@),
                ) && split_words(p@) == words_of(lang_id(l), entropy@),
                Err(err) => err == Bip39Error::InvalidEntropyLength(entropy@.len() as usize)
                    && !valid_entropy_len(entropy@.len() as int),
            },
        },
{
    let l = match resolve_language(language_code) {
        Some(l) => l,
        None => {
            return Err(Bip39Error::InvalidLanguageCode);
        },
    };
    let n = entropy.len();
    if !(n == 16 || n == 20 || n == 24 || n == 28 || n == 32) {
        return Err(Bip39Error::InvalidEntropyLength(n));
    }
    Ok(phrase_of_entropy(entropy, l))
}

/// Generates a fresh mnemonic phrase of the requested word count.
///
/// Draws the matching amount of entropy from the secure random source and
/// renders it. The phrase always splits back into exactly the requested
/// number of words.
pub fn bip39_generate(words: u32, language_code: Option<&str>) -> (r: Result<String, Bip39Error>)
    ensures
        match resolve_lang(language_code) {
            None => r == Err::<String, Bip39Error>(Bip39Error::InvalidLanguageCode),
            Some(l) => match r {
                Ok(p) => valid_word_count(words as int) && (exists|e: Seq<u8>|
                    e.len() == entropy_len_for(words as int) && #[trigger] words_of(lang_id(l), e)
                        == split_words(p@) && p@ == join_words(words_of(lang_id(l), e)))
                    && split_words(p@).len() == words as int,
                Err(err) => err == Bip39Error::InvalidWordCount(words) && !valid_word_count(
                    words as int,
                ),
            },
        },
{
    let l = match resolve_language(language_code) {
        Some(l) => l,
        None => {
            return Err(Bip39Error::InvalidLanguageCode);
        },
    };
    if !(words == 12 || words == 15 || words == 18 || words == 21 || words == 24) {
        return Err(Bip39Error::InvalidWordCount(words));
    }
    let ent_len: usize = (words as usize) * 4 / 3;
    let entropy = random_bytes(ent_len);
    let phrase = phrase_of_entropy(&entropy, l);
    proof {
        assert(word_count_for(entropy@.len() as int) == words as int);
        assert(words_of(lang_id(l), entropy@).len() == words as int);
    }
    Ok(phrase)
}

/// Checks whether a phrase is a well-formed mnemonic in the selected
/// language: the word count is accepted, every word is in the table and
/// the checksum verifies. All failure modes collapse to `false`; only an
/// unrecognized language code is an error.
pub fn bip39_validate(phrase: &str, language_code: Option<&str>) -> (r: Result<bool, Bip39Error>)
    ensures
        match resolve_lang(language_code) {
            None => r == Err::<bool, Bip39Error>(Bip39Error::InvalidLanguageCode),
            Some(l) => match r {
                Ok(b) => b == exists|e: Seq<u8>| decode_spec_ok(lang_id(l), phrase@, e),
                Err(_) => false,
            },
        },
{
    let ghost lo = resolve_lang(language_code);
    let d = decode_phrase(phrase, language_code);
    match d {
        Ok(e) => {
            proof {
                if lo is Some {
                    let l = lo->Some_0;
                    assert(decode_spec_ok(lang_id(l), phrase@, e@));
                }
            }
            Ok(true)
        },
        Err(err) => {
            match err {
                Bip39Error::InvalidLanguageCode => Err(Bip39Error::InvalidLanguageCode),
                _ => {
                    proof {
                        if lo is Some {
                            let l = lo->Some_0;
                            let ws = split_words(phrase@);
                            assert forall|e: Seq<u8>| !decode_spec_ok(lang_id(l), phrase@, e) by {
                                if decode_spec_ok(lang_id(l), phrase@, e) {
                                    assert(ws == words_of(lang_id(l), e));
                                    assert(ws.len() == word_count_for(e.len() as int));
                                    match err {
                                        Bip39Error::UnknownWord(i) => {
                                            lemma_index_of_bound(e, i as int);
                                            assert(words_of(lang_id(l), e)[i as int] == word_at(
                                                lang_id(l),
                                                index_of(e, i as int) as int,
                                            ));
                                            assert(word_in_table(lang_id(l), ws[i as int]));
                                        },
                                        _ => {},
                                    }
                                }
                            }
                        }
                    }
                    Ok(false)
                },
            }
        },
    }
}

/// Derives the seed of a phrase, truncated to its leading 32 bytes.
///
/// The phrase must decode in the selected language; a phrase whose
/// checksum does not verify is refused with the decode failure. The
/// phrase text and the passphrase are normalized to NFKD, the salt is the
/// normalized passphrase behind the fixed prefix, and the stretched
/// 64-byte seed is cut to its leading 32 bytes at this boundary.
pub fn bip39_to_seed(phrase: &str, password: &str, language_code: Option<&str>) -> (r: Result<
    Vec<u8>,
    Bip39Error,
>)
    ensures
        match resolve_lang(language_code) {
            None => r == Err::<Vec<u8>, Bip39Error>(Bip39Error::InvalidLanguageCode),
            Some(l) => match r {
                Ok(s) => (exists|e: Seq<u8>| decode_spec_ok(lang_id(l), phrase@, e))
                    && s@ == seed_of(phrase@, password@).take(32) && s@.len() == 32,
                Err(err) => decode_err_matches(lang_id(l), phrase@, err),
            },
        },
{
    match decode_phrase(phrase, language_code) {
        Ok(_) => {
            let seed = stretch_seed(phrase, password);
            Ok(take_32(&seed))
        },
        Err(err) => Err(err),
    }
}

/// Derives the mini-secret of a phrase: the leading 32 bytes of the value
/// stretched from the phrase's raw entropy bytes.
///
/// The phrase must decode in the selected language; a phrase whose
/// checksum does not verify is refused with the decode failure. Unlike
/// seed derivation, the passphrase is used as given, not normalized.
pub fn bip39_to_mini_secret(phrase: &str, password: &str, language_code: Option<&str>) -> (r:
    Result<Vec<u8>, Bip39Error>)
    ensures
        match resolve_lang(language_code) {
            None => r == Err::<Vec<u8>, Bip39Error>(Bip39Error::InvalidLanguageCode),
            Some(l) => match r {
                Ok(s) => (exists|e: Seq<u8>| decode_spec_ok(lang_id(l), phrase@, e)) && (forall|
                    e: Seq<u8>,
                |
                    decode_spec_ok(lang_id(l), phrase@, e) ==> s@ == mini_secret_of(
                        e,
                        password@,
                    ).take(32)) && s@.len() == 32,
                Err(err) => decode_err_matches(lang_id(l), phrase@, err),
            },
        },
{
    match decode_phrase(phrase, language_code) {
        Ok(entropy) => {
            let value = stretch_mini(&entropy, password);
            Ok(take_32(&value))
        },
        Err(err) => Err(err),
    }
}

} // verus!

use bip39_core::{
    bip39_generate, bip39_to_mini_secret, bip39_to_seed, bip39_validate, decode_phrase,
    mnemonic_from_entropy, Bip39Error,
};
use sha2::Digest;

const ZERO_PHRASE: &str = "abandon abandon abandon abandon abandon abandon abandon abandon abandon abandon abandon about";

fn sample_entropy(len: usize) -> Vec<u8> {
    let mut e = Vec::new();
    for i in 0..len {
        e.push((i as u8).wrapping_mul(7).wrapping_add(3));
    }
    e
}

#[test]
fn round_trip_all_lengths_english() {
    for len in [16usize, 20, 24, 28, 32] {
        let entropy = sample_entropy(len);
        let phrase = mnemonic_from_entropy(&entropy, Some("en")).unwrap();
        assert_eq!(bip39_validate(&phrase, Some("en")), Ok(true));
        assert_eq!(decode_phrase(&phrase, Some("en")), Ok(entropy));
    }
}

#[test]
fn round_trip_all_languages() {
    for code in ["en", "zh-hans", "zh-hant", "fr", "it", "ja", "ko", "es"] {
        for len in [16usize, 32] {
            let entropy = sample_entropy(len);
            let phrase = mnemonic_from_entropy(&entropy, Some(code)).unwrap();
            assert_eq!(bip39_validate(&phrase, Some(code)), Ok(true));
            assert_eq!(decode_phrase(&phrase, Some(code)), Ok(entropy.clone()));
        }
    }
}

#[test]
fn encode_zero_entropy_known_phrase() {
    let entropy = vec![0u8; 16];
    let phrase = mnemonic_from_entropy(&entropy, Some("en")).unwrap();
    assert_eq!(phrase, ZERO_PHRASE);
}

#[test]
fn encode_is_deterministic() {
    let entropy = sample_entropy(20);
    let p1 = mnemonic_from_entropy(&entropy, Some("en")).unwrap();
    let p2 = mnemonic_from_entropy(&entropy, Some("en")).unwrap();
    assert_eq!(p1, p2);
}

#[test]
fn derivations_are_deterministic() {
    let s1 = bip39_to_seed(ZERO_PHRASE, "pw", Some("en")).unwrap();
    let s2 = bip39_to_seed(ZERO_PHRASE, "pw", Some("en")).unwrap();
    assert_eq!(s1, s2);
    let m1 = bip39_to_mini_secret(ZERO_PHRASE, "pw", Some("en")).unwrap();
    let m2 = bip39_to_mini_secret(ZERO_PHRASE, "pw", Some("en")).unwrap();
    assert_eq!(m1, m2);
}

#[test]
fn seed_known_answer() {
    let seed = bip39_to_seed(ZERO_PHRASE, "TREZOR", Some("en")).unwrap();
    let expected: Vec<u8> = vec![
        0xc5, 0x52, 0x57, 0xc3, 0x60, 0xc0, 0x7c, 0x72, 0x02, 0x9a, 0xeb, 0xc1, 0xb5, 0x3c,
        0x05, 0xed, 0x03, 0x62, 0xad, 0xa3, 0x8e, 0xad, 0x3e, 0x3e, 0x9e, 0xfa, 0x37, 0x08,
        0xe5, 0x34, 0x95, 0x53,
    ];
    assert_eq!(seed, expected);
}

#[test]
fn mini_secret_differs_from_seed() {
    let seed = bip39_to_seed(ZERO_PHRASE, "", Some("en")).unwrap();
    let mini = bip39_to_mini_secret(ZERO_PHRASE, "", Some("en")).unwrap();
    assert_eq!(seed.len(), 32);
    assert_eq!(mini.len(), 32);
    assert_ne!(seed, mini);
}

#[test]
fn generate_rejects_bad_word_count() {
    assert_eq!(
        bip39_generate(13, Some("en")),
        Err(Bip39Error::InvalidWordCount(13))
    );
    assert_eq!(
        bip39_generate(0, Some("en")),
        Err(Bip39Error::InvalidWordCount(0))
    );
}

#[test]
fn generate_24_words() {
    let phrase = bip39_generate(24, Some("en")).unwrap();
    assert_eq!(phrase.split(' ').count(), 24);
    assert_eq!(bip39_validate(&phrase, Some("en")), Ok(true));
}

#[test]
fn generate_all_counts_validate() {
    for count in [12u32, 15, 18, 21, 24] {
        let phrase = bip39_generate(count, None).unwrap();
        assert_eq!(phrase.split(' ').count(), count as usize);
        assert_eq!(bip39_validate(&phrase, None), Ok(true));
    }
}

#[test]
fn validate_rejects_short_phrase() {
    let eleven = ZERO_PHRASE.rsplit_once(' ').unwrap().0;
    assert_eq!(eleven.split(' ').count(), 11);
    assert_eq!(bip39_validate(eleven, Some("en")), Ok(false));
    assert_eq!(
        decode_phrase(eleven, Some("en")),
        Err(Bip39Error::BadPhraseWordCount(11))
    );
    assert_eq!(bip39_validate("", Some("en")), Ok(false));
}

#[test]
fn validate_rejects_unknown_word() {
    let phrase = ZERO_PHRASE.replace("about", "zzzzzz");
    assert_eq!(bip39_validate(&phrase, Some("en")), Ok(false));
    assert_eq!(
        decode_phrase(&phrase, Some("en")),
        Err(Bip39Error::UnknownWord(11))
    );
}

#[test]
fn validate_rejects_altered_last_word() {
    let phrase = ZERO_PHRASE.replace("about", "abandon");
    assert_eq!(phrase.split(' ').count(), 12);
    assert_eq!(bip39_validate(&phrase, Some("en")), Ok(false));
    assert_eq!(
        decode_phrase(&phrase, Some("en")),
        Err(Bip39Error::ChecksumMismatch)
    );
}

#[test]
fn derivations_refuse_invalid_phrase() {
    let phrase = ZERO_PHRASE.replace("about", "abandon");
    assert_eq!(
        bip39_to_seed(&phrase, "", Some("en")),
        Err(Bip39Error::ChecksumMismatch)
    );
    assert_eq!(
        bip39_to_mini_secret(&phrase, "", Some("en")),
        Err(Bip39Error::ChecksumMismatch)
    );
}

#[test]
fn invalid_language_code_is_rejected() {
    assert_eq!(
        bip39_generate(12, Some("xx")),
        Err(Bip39Error::InvalidLanguageCode)
    );
    assert_eq!(
        bip39_validate(ZERO_PHRASE, Some("de")),
        Err(Bip39Error::InvalidLanguageCode)
    );
    assert_eq!(
        bip39_to_seed(ZERO_PHRASE, "", Some("english")),
        Err(Bip39Error::InvalidLanguageCode)
    );
    assert_eq!(
        bip39_to_mini_secret(ZERO_PHRASE, "", Some("")),
        Err(Bip39Error::InvalidLanguageCode)
    );
}

#[test]
fn default_language_is_english() {
    assert_eq!(bip39_validate(ZERO_PHRASE, None), Ok(true));
    assert_eq!(
        bip39_to_seed(ZERO_PHRASE, "TREZOR", None),
        bip39_to_seed(ZERO_PHRASE, "TREZOR", Some("en"))
    );
}

#[test]
fn invalid_entropy_length_is_rejected() {
    let entropy = sample_entropy(17);
    assert_eq!(
        mnemonic_from_entropy(&entropy, Some("en")),
        Err(Bip39Error::InvalidEntropyLength(17))
    );
    assert_eq!(
        mnemonic_from_entropy(&Vec::new(), Some("en")),
        Err(Bip39Error::InvalidEntropyLength(0))
    );
}

#[test]
fn checksum_bit_counts_match_digest() {
    let cases: [(usize, u32); 5] = [(16, 4), (20, 5), (24, 6), (28, 7), (32, 8)];
    for (len, cs) in cases {
        let entropy = vec![0u8; len];
        let phrase = mnemonic_from_entropy(&entropy, Some("en")).unwrap();
        let digest = sha2::Sha256::digest(&entropy);
        let index = (digest[0] >> (8 - cs)) as usize;
        let expected_last = bip39::Language::English.word_list()[index];
        assert_eq!(phrase.split(' ').last().unwrap(), expected_last);
    }
}

#[test]
fn decode_tolerates_extra_whitespace() {
    let spaced = format!("  {}  ", ZERO_PHRASE.replace(' ', "  "));
    assert_eq!(bip39_validate(&spaced, Some("en")), Ok(true));
    assert_eq!(decode_phrase(&spaced, Some("en")), Ok(vec![0u8; 16]));
}

#[test]
fn seed_normalizes_passphrase_but_mini_secret_does_not() {
    let composed = "caf\u{e9}";
    let decomposed = "cafe\u{301}";
    assert_eq!(
        bip39_to_seed(ZERO_PHRASE, composed, Some("en")),
        bip39_to_seed(ZERO_PHRASE, decomposed, Some("en"))
    );
    assert_ne!(
        bip39_to_mini_secret(ZERO_PHRASE, composed, Some("en")),
        bip39_to_mini_secret(ZERO_PHRASE, decomposed, Some("en"))
    );
}

#[test]
fn spanish_round_trip_uses_decomposed_words() {
    let entropy = vec![0u8; 16];
    let phrase = mnemonic_from_entropy(&entropy, Some("es")).unwrap();
    assert_eq!(bip39_validate(&phrase, Some("es")), Ok(true));
    assert_eq!(decode_phrase(&phrase, Some("es")), Ok(entropy));
    assert_eq!(bip39_validate(&phrase, Some("en")), Ok(false));
}

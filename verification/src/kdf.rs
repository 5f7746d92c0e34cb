//! Seed stretching: password-based key derivation from a phrase or from
//! raw entropy, salted with a passphrase.

use rand::Rng;
use unicode_normalization::UnicodeNormalization;
use vstd::prelude::*;
use vstd::string::StringExecFns;
use vstd::utf8::encode_utf8;

verus! {

/// The NFKD normal form of a character sequence.
pub uninterp spec fn nfkd_of(s: Seq<char>) -> Seq<char>;

/// Normalizes text to the NFKD Unicode form.
///
/// Relies on the `unicode_normalization` crate (`nfkd`): the normal form
/// depends on the characters alone.
#[verifier::external_body]
pub(crate) fn nfkd(s: &str) -> (r: String)
    ensures
        r@ == nfkd_of(s@),
{
    s.nfkd().collect()
}

/// The 64-byte key stretched from a password and a salt: 2048 rounds of
/// password-based derivation under an HMAC keyed with a 512-bit hash.
pub uninterp spec fn pbkdf2_sha512_of(password: Seq<u8>, salt: Seq<u8>) -> Seq<u8>;

/// Stretches a password and salt into 64 bytes of key material.
///
/// Relies on `pbkdf2::pbkdf2_hmac` with `sha2::Sha512`, at 2048 rounds and
/// 64 bytes of output: the result depends on password and salt alone.
#[verifier::external_body]
pub(crate) fn pbkdf2_sha512(password: &[u8], salt: &[u8]) -> (r: Vec<u8>)
    ensures
        r@ == pbkdf2_sha512_of(password@, salt@),
        r@.len() == 64,
{
    let mut out = vec![0u8; 64];
    pbkdf2::pbkdf2_hmac::<sha2::Sha512>(password, salt, 2048, &mut out);
    out
}

/// Draws bytes from the process-wide secure random source.
///
/// Relies on `rand::rng` and `Rng::fill_bytes`, a cryptographically
/// secure generator; nothing is assumed of the values drawn.
#[verifier::external_body]
pub(crate) fn random_bytes(n: usize) -> (r: Vec<u8>)
    ensures
        r@.len() == n,
{
    let mut buf = vec![0u8; n];
    rand::rng().fill_bytes(&mut buf);
    buf
}

/// The seed stretched from a phrase: phrase text and passphrase in NFKD
/// form, the salt the passphrase behind the fixed prefix, both as bytes.
pub open spec fn seed_of(phrase: Seq<char>, passphrase: Seq<char>) -> Seq<u8> {
    pbkdf2_sha512_of(
        encode_utf8(nfkd_of(phrase)),
        encode_utf8("mnemonic"@ + nfkd_of(passphrase)),
    )
}

/// The mini-secret stretched from raw entropy: the entropy bytes are the
/// password, and the passphrase is used as given, not normalized.
pub open spec fn mini_secret_of(entropy: Seq<u8>, passphrase: Seq<char>) -> Seq<u8> {
    pbkdf2_sha512_of(entropy, encode_utf8("mnemonic"@ + passphrase))
}

/// Stretches a phrase and passphrase into the 64-byte seed.
pub(crate) fn stretch_seed(phrase: &str, passphrase: &str) -> (r: Vec<u8>)
    ensures
        r@ == seed_of(phrase@, passphrase@),
        r@.len() == 64,
{
    let normalized_phrase = nfkd(phrase);
    let normalized_passphrase = nfkd(passphrase);
    let mut salt = "mnemonic".to_owned();
    salt.append(normalized_passphrase.as_str());
    pbkdf2_sha512(normalized_phrase.as_str().as_bytes(), salt.as_str().as_bytes())
}

/// Stretches raw entropy and a passphrase into the 64-byte value behind
/// the mini-secret.
pub(crate) fn stretch_mini(entropy: &Vec<u8>, passphrase: &str) -> (r: Vec<u8>)
    ensures
        r@ == mini_secret_of(entropy@, passphrase@),
        r@.len() == 64,
{
    let mut salt = "mnemonic".to_owned();
    salt.append(passphrase);
    pbkdf2_sha512(entropy.as_slice(), salt.as_str().as_bytes())
}

/// Copies the leading 32 bytes of a longer value.
pub(crate) fn take_32(v: &Vec<u8>) -> (r: Vec<u8>)
    requires
        v@.len() >= 32,
    ensures
        r@ == v@.take(32),
{
    let mut r: Vec<u8> = Vec::new();
    let mut i: usize = 0;
    while i < 32
        invariant
            i <= 32,
            v@.len() >= 32,
            r@ == v@.take(i as int),
        decreases 32 - i,
    {
        proof {
            assert(v@.take(i as int).push(v@[i as int]) =~= v@.take(i + 1));
        }
        let b = v[i];
        r.push(b);
        i = i + 1;
    }
    r
}

} // verus!

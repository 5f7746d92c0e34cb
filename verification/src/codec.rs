//! The entropy/checksum codec.
//!
//! Entropy bytes are expanded into bits, the leading bits of the entropy's
//! digest are appended as a checksum, and the whole is cut into 11-bit word
//! indices. Decoding inverts this and re-checks the checksum.

use crate::bits::{bits_of_bytes, bits_of_indices, bits_of_value, bits_to_bytes, bits_to_indices,
    bits_value, bytes_to_bits, indices_to_bits, lemma_bits_of_bytes_injective,
    lemma_bits_of_value_id, lemma_bits_value_bit, lemma_bits_value_bound};
use crate::lang::{lang_id, lang_index, word_at, wordlist_word, Language};
use crate::text::{is_word, join_words, lemma_join_push, lemma_split_join, split_words,
    string_from_chars};
use sha2::Digest;
use vstd::arithmetic::div_mod::lemma_fundamental_div_mod_converse;
use vstd::arithmetic::power2::{lemma2_to64, pow2};
use vstd::prelude::*;

verus! {

/// The accepted entropy lengths, in bytes.
pub open spec fn valid_entropy_len(n: int) -> bool {
    n == 16 || n == 20 || n == 24 || n == 28 || n == 32
}

/// The accepted phrase lengths, in words.
pub open spec fn valid_word_count(n: int) -> bool {
    n == 12 || n == 15 || n == 18 || n == 21 || n == 24
}

/// The number of checksum bits for an entropy length in bytes: one bit per
/// 32 entropy bits.
pub open spec fn checksum_bits_len(ent_len: int) -> int {
    ent_len / 4
}

/// The number of phrase words for an entropy length in bytes.
pub open spec fn word_count_for(ent_len: int) -> int {
    ent_len * 3 / 4
}

/// The entropy length in bytes for a phrase length in words.
pub open spec fn entropy_len_for(word_count: int) -> int {
    word_count * 4 / 3
}

/// The digest of a byte sequence under the codec's checksum function.
pub uninterp spec fn sha256_of(input: Seq<u8>) -> Seq<u8>;

/// Computes the checksum digest of a byte sequence.
///
/// Relies on `sha2::Sha256` (`Digest::digest`): a 32-byte digest that
/// depends on the input bytes alone.
#[verifier::external_body]
fn sha256(input: &[u8]) -> (r: Vec<u8>)
    ensures
        r@ == sha256_of(input@),
        r@.len() == 32,
{
    sha2::Sha256::digest(input).to_vec()
}

/// The checksum of an entropy value: the leading bits of its digest, one
/// bit per 32 entropy bits.
pub open spec fn checksum_bits(e: Seq<u8>) -> Seq<bool> {
    Seq::new(
        checksum_bits_len(e.len() as int) as nat,
        |k: int| bits_of_bytes(sha256_of(e))[k],
    )
}

/// The full bit string a phrase encodes: entropy bits, then checksum bits.
pub open spec fn mnemonic_bits(e: Seq<u8>) -> Seq<bool> {
    bits_of_bytes(e) + checksum_bits(e)
}

/// Word index `i` of the phrase encoding `e`: the value of bits
/// `11 i .. 11 i + 11` of the encoded bit string.
pub open spec fn index_of(e: Seq<u8>, i: int) -> nat {
    bits_value(mnemonic_bits(e).subrange(11 * i, 11 * i + 11))
}

/// The words of the phrase encoding `e` in the language numbered `lang`.
pub open spec fn words_of(lang: int, e: Seq<u8>) -> Seq<Seq<char>> {
    Seq::new(word_count_for(e.len() as int) as nat, |i: int| word_at(lang, index_of(e, i) as int))
}

/// Whether some entry of the language's word table is this word.
pub open spec fn word_in_table(lang: int, w: Seq<char>) -> bool {
    exists|j: int| 0 <= j < 2048 && word_at(lang, j) == w
}

/// Whether `e` is the entropy a phrase decodes to: its length is accepted
/// and the phrase's words render `e` exactly, checksum included.
pub open spec fn decode_spec_ok(lang: int, phrase: Seq<char>, e: Seq<u8>) -> bool {
    valid_entropy_len(e.len() as int) && split_words(phrase) == words_of(lang, e)
}

/// Checksum sizes for the five phrase lengths: phrases of 12, 15, 18, 21
/// and 24 words carry exactly 4, 5, 6, 7 and 8 checksum bits.
pub proof fn lemma_checksum_bit_counts()
    ensures
        checksum_bits_len(entropy_len_for(12)) == 4,
        checksum_bits_len(entropy_len_for(15)) == 5,
        checksum_bits_len(entropy_len_for(18)) == 6,
        checksum_bits_len(entropy_len_for(21)) == 7,
        checksum_bits_len(entropy_len_for(24)) == 8,
{
}

/// Every word index of an encoded phrase is below the table size.
pub proof fn lemma_index_of_bound(e: Seq<u8>, i: int)
    requires
        valid_entropy_len(e.len() as int),
        0 <= i < word_count_for(e.len() as int),
    ensures
        index_of(e, i) < 2048,
{
    lemma_bits_value_bound(mnemonic_bits(e).subrange(11 * i, 11 * i + 11));
    lemma2_to64();
}

/// The 11-bit chunk of an index sequence's bit string at position `i` is
/// the bit string of index `i`.
proof fn lemma_indices_chunk(idxs: Seq<u16>, i: int)
    requires
        0 <= i < idxs.len(),
    ensures
        bits_of_indices(idxs).subrange(11 * i, 11 * i + 11) =~= bits_of_value(idxs[i] as nat, 11),
{
    assert forall|j: int| 0 <= j < 11 implies bits_of_indices(idxs)[11 * i + j] == bits_of_value(
        idxs[i] as nat,
        11,
    )[j] by {
        lemma_fundamental_div_mod_converse(11 * i + j, 11, i, j);
    }
}

/// Round trip of the codec: expanding the word indices of an entropy value
/// yields exactly its entropy bits followed by its matching checksum bits,
/// so decoding the indices recovers the entropy unchanged and the checksum
/// verifies.
pub proof fn lemma_indices_round_trip(e: Seq<u8>, idxs: Seq<u16>)
    requires
        valid_entropy_len(e.len() as int),
        idxs.len() == word_count_for(e.len() as int),
        forall|i: int| 0 <= i < idxs.len() ==> idxs[i] as nat == index_of(e, i),
    ensures
        bits_of_indices(idxs) == mnemonic_bits(e),
{
    let full = mnemonic_bits(e);
    assert(full.len() == 11 * idxs.len());
    assert forall|m: int| 0 <= m < full.len() implies bits_of_indices(idxs)[m] == full[m] by {
        let i = m / 11;
        let j = m % 11;
        vstd::arithmetic::div_mod::lemma_fundamental_div_mod(m, 11);
        let chunk = full.subrange(11 * i, 11 * i + 11);
        lemma_bits_value_bit(chunk, j);
        assert(chunk[j] == full[m]);
        assert(bits_of_indices(idxs)[m] == bits_of_value(idxs[i] as nat, 11)[j]);
        assert(idxs[i] as nat == bits_value(chunk));
        assert(bits_of_value(bits_value(chunk), 11)[j] == ((bits_value(chunk) / pow2(
            (10 - j) as nat,
        )) % 2 == 1));
    }
    assert(bits_of_indices(idxs) =~= full);
}

/// A word sequence that renders some entropy value pins the word indices:
/// when each word of `ws` occurs at exactly one table index, collected in
/// `idxs`, any entropy that `ws` renders encodes to exactly those indices.
proof fn lemma_words_pin_indices(lang: int, ws: Seq<Seq<char>>, idxs: Seq<u16>, e2: Seq<u8>)
    requires
        idxs.len() == ws.len(),
        forall|k: int| 0 <= k < idxs.len() ==> #[trigger] idxs[k] < 2048,
        forall|k: int| 0 <= k < idxs.len() ==> word_at(lang, #[trigger] idxs[k] as int) == ws[k],
        forall|k: int, j: int|
            #![trigger word_at(lang, j), ws[k]]
            0 <= k < idxs.len() && 0 <= j < 2048 && j != idxs[k] ==> word_at(lang, j) != ws[k],
        valid_entropy_len(e2.len() as int),
        words_of(lang, e2) == ws,
    ensures
        bits_of_indices(idxs) == mnemonic_bits(e2),
{
    assert forall|i: int| 0 <= i < idxs.len() implies idxs[i] as nat == index_of(e2, i) by {
        lemma_index_of_bound(e2, i);
        assert(words_of(lang, e2)[i] == word_at(lang, index_of(e2, i) as int));
        assert(word_at(lang, index_of(e2, i) as int) == ws[i]);
        if idxs[i] as int != index_of(e2, i) as int {
            assert(word_at(lang, index_of(e2, i) as int) != ws[i]);
        }
    }
    lemma_indices_round_trip(e2, idxs);
}

/// Computes the word indices that encode an entropy value.
pub(crate) fn entropy_to_indices(entropy: &Vec<u8>) -> (r: Vec<u16>)
    requires
        valid_entropy_len(entropy@.len() as int),
    ensures
        r@.len() == word_count_for(entropy@.len() as int),
        forall|i: int| 0 <= i < r@.len() ==> r@[i] as nat == index_of(entropy@, i) && r@[i]
            < 2048,
{
    let digest = sha256(entropy.as_slice());
    let mut bits = bytes_to_bits(entropy);
    let dbits = bytes_to_bits(&digest);
    let cs = entropy.len() / 4;
    let mut k: usize = 0;
    while k < cs
        invariant
            k <= cs,
            cs == checksum_bits_len(entropy@.len() as int),
            valid_entropy_len(entropy@.len() as int),
            dbits@ == bits_of_bytes(sha256_of(entropy@)),
            dbits@.len() == 256,
            bits@ == bits_of_bytes(entropy@) + bits_of_bytes(sha256_of(entropy@)).take(k as int),
        decreases cs - k,
    {
        let b = dbits[k];
        proof {
            let d = bits_of_bytes(sha256_of(entropy@));
            assert(d.take(k as int).push(d[k as int]) =~= d.take(k + 1));
            assert((bits_of_bytes(entropy@) + d.take(k as int)).push(d[k as int])
                =~= bits_of_bytes(entropy@) + d.take(k + 1));
        }
        bits.push(b);
        k = k + 1;
    }
    proof {
        assert(checksum_bits(entropy@) =~= bits_of_bytes(sha256_of(entropy@)).take(cs as int));
        assert(bits@ == mnemonic_bits(entropy@));
    }
    let idxs = bits_to_indices(&bits);
    proof {
        assert forall|i: int| 0 <= i < idxs@.len() implies idxs@[i] as nat == index_of(
            entropy@,
            i,
        ) by {
            assert(idxs@[i] as nat == bits_value(bits@.subrange(11 * i, 11 * i + 11)));
        }
    }
    idxs
}

/// Renders an entropy value as a phrase: its words joined by single
/// spaces.
pub(crate) fn phrase_of_entropy(entropy: &Vec<u8>, l: Language) -> (r: String)
    requires
        valid_entropy_len(entropy@.len() as int),
    ensures
        r@ == join_words(words_of(lang_id(l), entropy@)),
        split_words(r@) == words_of(lang_id(l), entropy@),
{
    let idxs = entropy_to_indices(entropy);
    let li = lang_index(l);
    let ghost ws = words_of(lang_id(l), entropy@);
    let n = idxs.len();
    let mut chars: Vec<char> = Vec::new();
    let mut i: usize = 0;
    while i < n
        invariant
            i <= n,
            n == idxs@.len(),
            n == ws.len(),
            li < 8,
            li as int == lang_id(l),
            ws == words_of(lang_id(l), entropy@),
            valid_entropy_len(entropy@.len() as int),
            forall|k: int| 0 <= k < n ==> idxs@[k] as nat == index_of(entropy@, k) && idxs@[k]
                < 2048,
            chars@ == join_words(ws.take(i as int)),
            forall|k: int| 0 <= k < i ==> is_word(#[trigger] ws[k]),
        decreases n - i,
    {
        let w = wordlist_word(li, idxs[i]);
        proof {
            assert(ws[i as int] == word_at(lang_id(l), index_of(entropy@, i as int) as int));
            assert(w@ == ws[i as int]);
        }
        if i > 0 {
            proof {
                assert(join_words(ws.take(i as int)).push(' ') =~= join_words(ws.take(i as int))
                    + seq![' ']);
            }
            chars.push(' ');
        }
        let ghost base = chars@;
        let mut j: usize = 0;
        while j < w.len()
            invariant
                j <= w@.len(),
                chars@ == base + w@.take(j as int),
            decreases w@.len() - j,
        {
            proof {
                assert((base + w@.take(j as int)).push(w@[j as int]) =~= base + w@.take(
                    j as int + 1,
                ));
            }
            let c = w[j];
            chars.push(c);
            j = j + 1;
        }
        proof {
            assert(w@.take(w@.len() as int) =~= w@);
            lemma_join_push(ws.take(i as int), ws[i as int]);
            assert(ws.take(i as int).push(ws[i as int]) =~~= ws.take(i as int + 1));
            if i == 0 {
                assert(base =~= Seq::<char>::empty());
                assert(chars@ =~= ws[0]);
            }
        }
        i = i + 1;
    }
    proof {
        assert(ws.take(n as int) =~~= ws);
        lemma_split_join(ws);
    }
    string_from_chars(&chars)
}

/// Rebuilds the entropy behind a sequence of word indices and re-checks
/// its checksum. The ghost arguments carry which words produced the
/// indices, each of which occurs at exactly one table index; success means
/// those words render the returned entropy and nothing else, failure that
/// they render no entropy value at all.
pub(crate) fn entropy_from_indices(
    idxs: &Vec<u16>,
    Ghost(lang): Ghost<int>,
    Ghost(ws): Ghost<Seq<Seq<char>>>,
) -> (r: Option<Vec<u8>>)
    requires
        valid_word_count(idxs@.len() as int),
        ws.len() == idxs@.len(),
        forall|k: int| 0 <= k < idxs@.len() ==> #[trigger] idxs@[k] < 2048,
        forall|k: int| 0 <= k < idxs@.len() ==> word_at(lang, #[trigger] idxs@[k] as int)
            == ws[k],
        forall|k: int, j: int|
            #![trigger word_at(lang, j), ws[k]]
            0 <= k < idxs@.len() && 0 <= j < 2048 && j != idxs@[k] ==> word_at(lang, j) != ws[k],
    ensures
        match r {
            Some(e) => valid_entropy_len(e@.len() as int) && words_of(lang, e@) == ws && (forall|
                e2: Seq<u8>,
            |
                valid_entropy_len(e2.len() as int) && words_of(lang, e2) == ws ==> e2 == e@),
            None => !(exists|e2: Seq<u8>|
                valid_entropy_len(e2.len() as int) && words_of(lang, e2) == ws),
        },
{
    let n = idxs.len();
    let bits = indices_to_bits(idxs);
    let ent_bits = n / 3 * 32;
    let mut ebits: Vec<bool> = Vec::new();
    let mut k: usize = 0;
    while k < ent_bits
        invariant
            k <= ent_bits,
            ent_bits == idxs@.len() / 3 * 32,
            bits@ == bits_of_indices(idxs@),
            valid_word_count(idxs@.len() as int),
            ebits@ == bits@.take(k as int),
        decreases ent_bits - k,
    {
        proof {
            assert(bits@.take(k as int).push(bits@[k as int]) =~= bits@.take(k + 1));
        }
        let b = bits[k];
        ebits.push(b);
        k = k + 1;
    }
    let entropy = bits_to_bytes(&ebits);
    let digest = sha256(entropy.as_slice());
    let dbits = bytes_to_bits(&digest);
    let cs = n / 3;
    let mut ok = true;
    let mut m: usize = 0;
    while m < cs
        invariant
            m <= cs,
            cs == idxs@.len() / 3,
            ent_bits == idxs@.len() / 3 * 32,
            valid_word_count(idxs@.len() as int),
            bits@ == bits_of_indices(idxs@),
            bits@.len() == 11 * idxs@.len(),
            dbits@ == bits_of_bytes(sha256_of(entropy@)),
            dbits@.len() == 256,
            ok <==> (forall|t: int| 0 <= t < m ==> bits@[ent_bits + t] == dbits@[t]),
        decreases cs - m,
    {
        let b1 = bits[ent_bits + m];
        let b2 = dbits[m];
        if b1 != b2 {
            ok = false;
        }
        m = m + 1;
    }
    proof {
        assert(bits_of_bytes(entropy@) == ebits@);
        assert(entropy@.len() * 8 == ent_bits);
        assert(valid_entropy_len(entropy@.len() as int));
        assert(checksum_bits_len(entropy@.len() as int) == cs);
        assert(word_count_for(entropy@.len() as int) == idxs@.len());
    }
    if ok {
        proof {
            let e = entropy@;
            assert(checksum_bits(e) =~= bits@.skip(ent_bits as int));
            assert(mnemonic_bits(e) =~= bits@);
            assert forall|i: int| 0 <= i < idxs@.len() implies idxs@[i] as nat == index_of(
                e,
                i,
            ) by {
                lemma_indices_chunk(idxs@, i);
                lemma2_to64();
                lemma_bits_of_value_id(idxs@[i] as nat, 11);
            }
            assert forall|i: int| 0 <= i < idxs@.len() implies words_of(lang, e)[i] == ws[i] by {
                assert(word_at(lang, idxs@[i] as int) == ws[i]);
            }
            assert(words_of(lang, e) =~~= ws);
            assert forall|e2: Seq<u8>|
                valid_entropy_len(e2.len() as int) && words_of(lang, e2) == ws implies e2
                == e by {
                lemma_words_pin_indices(lang, ws, idxs@, e2);
                assert(mnemonic_bits(e2) == bits@);
                assert(e2.len() == e.len());
                assert(bits_of_bytes(e2) =~= bits@.take(ent_bits as int));
                lemma_bits_of_bytes_injective(e2, e);
            }
        }
        Some(entropy)
    } else {
        proof {
            let e = entropy@;
            assert forall|e2: Seq<u8>|
                !(valid_entropy_len(e2.len() as int) && words_of(lang, e2) == ws) by {
                if valid_entropy_len(e2.len() as int) && words_of(lang, e2) == ws {
                    lemma_words_pin_indices(lang, ws, idxs@, e2);
                    assert(mnemonic_bits(e2) == bits@);
                    assert(e2.len() == e.len());
                    assert(bits_of_bytes(e2) =~= bits@.take(ent_bits as int));
                    lemma_bits_of_bytes_injective(e2, e);
                    assert(checksum_bits(e) =~= bits@.skip(ent_bits as int));
                    let t = choose|t: int| 0 <= t < cs && bits@[ent_bits + t] != dbits@[t];
                    assert(bits@[ent_bits + t] == checksum_bits(e)[t]);
                }
            }
        }
        None
    }
}

} // verus!

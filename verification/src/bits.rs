//! Bit-level packing for the mnemonic codec.
//!
//! A mnemonic phrase encodes a bit string: entropy bits followed by checksum
//! bits, read most-significant bit first and cut into 11-bit word indices.
//! This module gives the bit string model (`bits_of_bytes`, `bits_value`,
//! `bits_of_indices`) and the verified conversions between byte sequences,
//! bit sequences and 11-bit index sequences.

use vstd::arithmetic::div_mod::{lemma_div_denominator, lemma_fundamental_div_mod,
    lemma_fundamental_div_mod_converse};
use vstd::arithmetic::power2::{lemma2_to64, lemma_pow2_pos, lemma_pow2_strictly_increases,
    lemma_pow2_unfold, pow2};
use vstd::prelude::*;

verus! {

/// The value of a bit string, most-significant bit first.
pub open spec fn bits_value(s: Seq<bool>) -> nat
    decreases s.len(),
{
    if s.len() == 0 {
        0
    } else {
        2 * bits_value(s.drop_last()) + (if s.last() {
            1nat
        } else {
            0nat
        })
    }
}

/// The `w`-bit string of `v`, most-significant bit first.
pub open spec fn bits_of_value(v: nat, w: nat) -> Seq<bool> {
    Seq::new(w, |j: int| (v / pow2((w - 1 - j) as nat)) % 2 == 1)
}

/// The bits of one byte, most-significant first.
pub open spec fn byte_bits(b: u8) -> Seq<bool> {
    bits_of_value(b as nat, 8)
}

/// All bits of a byte sequence, each byte most-significant bit first.
pub open spec fn bits_of_bytes(bytes: Seq<u8>) -> Seq<bool> {
    Seq::new(bytes.len() * 8, |i: int| byte_bits(bytes[i / 8])[i % 8])
}

/// All bits of a sequence of 11-bit word indices.
pub open spec fn bits_of_indices(idxs: Seq<u16>) -> Seq<bool> {
    Seq::new(idxs.len() * 11, |i: int| bits_of_value(idxs[i / 11] as nat, 11)[i % 11])
}

/// A bit string's value is below `2^len`.
pub proof fn lemma_bits_value_bound(s: Seq<bool>)
    ensures
        bits_value(s) < pow2(s.len()),
    decreases s.len(),
{
    if s.len() == 0 {
        lemma2_to64();
    } else {
        lemma_bits_value_bound(s.drop_last());
        lemma_pow2_unfold(s.len());
    }
}

/// Splitting a bit string splits its value: the prefix carries weight
/// `2^(suffix length)`.
pub proof fn lemma_bits_value_split(s: Seq<bool>, k: int)
    requires
        0 <= k <= s.len(),
    ensures
        bits_value(s) == bits_value(s.take(k)) * pow2((s.len() - k) as nat) + bits_value(
            s.skip(k),
        ),
    decreases s.len(),
{
    if k == s.len() {
        assert(s.take(k) =~= s);
        assert(s.skip(k) =~= Seq::<bool>::empty());
        lemma2_to64();
        assert(bits_value(s.skip(k)) == 0);
        assert(pow2((s.len() - k) as nat) == 1);
        assert(bits_value(s.take(k)) * 1 == bits_value(s.take(k))) by (nonlinear_arith);
    } else {
        let s0 = s.drop_last();
        let b: nat = if s.last() {
            1
        } else {
            0
        };
        lemma_bits_value_split(s0, k);
        assert(s.take(k) =~= s0.take(k));
        assert(s.skip(k).drop_last() =~= s0.skip(k));
        assert(s.skip(k).last() == s.last());
        lemma_pow2_unfold((s.len() - k) as nat);
        let va = bits_value(s.take(k));
        let vb = bits_value(s0.skip(k));
        let p1 = pow2((s.len() - 1 - k) as nat);
        let p = pow2((s.len() - k) as nat);
        assert(bits_value(s0) == va * p1 + vb);
        assert(bits_value(s) == 2 * bits_value(s0) + b);
        assert(bits_value(s.skip(k)) == 2 * vb + b);
        assert(p == 2 * p1);
        assert(2 * (va * p1 + vb) + b == va * (2 * p1) + (2 * vb + b)) by (nonlinear_arith);
        assert(bits_value(s) == va * p + bits_value(s.skip(k)));
    }
}

/// Bit `j` of a bit string, most-significant first, read off its value.
pub proof fn lemma_bits_value_bit(s: Seq<bool>, j: int)
    requires
        0 <= j < s.len(),
    ensures
        (bits_value(s) / pow2((s.len() - 1 - j) as nat)) % 2 == (if s[j] {
            1nat
        } else {
            0nat
        }),
{
    let w = s.len() as int;
    let t = s.take(j + 1);
    lemma_bits_value_split(s, j + 1);
    lemma_bits_value_bound(s.skip(j + 1));
    lemma_pow2_pos((w - 1 - j) as nat);
    lemma_fundamental_div_mod_converse(
        bits_value(s) as int,
        pow2((w - 1 - j) as nat) as int,
        bits_value(t) as int,
        bits_value(s.skip(j + 1)) as int,
    );
    assert(t.drop_last() =~= s.take(j));
    assert(t.last() == s[j]);
    lemma_fundamental_div_mod_converse(
        bits_value(t) as int,
        2,
        bits_value(s.take(j)) as int,
        if s[j] {
            1int
        } else {
            0int
        },
    );
}

/// Writing a value out in bits and reading it back is the identity.
pub proof fn lemma_bits_of_value_id(v: nat, w: nat)
    requires
        v < pow2(w),
    ensures
        bits_value(bits_of_value(v, w)) == v,
    decreases w,
{
    if w == 0 {
        lemma2_to64();
        assert(bits_of_value(v, 0) =~= Seq::<bool>::empty());
    } else {
        let s = bits_of_value(v, w);
        lemma_pow2_unfold(w);
        assert forall|j: int| 0 <= j < w - 1 implies s.drop_last()[j] == bits_of_value(
            v / 2,
            (w - 1) as nat,
        )[j] by {
            lemma_pow2_unfold((w - 1 - j) as nat);
            lemma_pow2_pos((w - 2 - j) as nat);
            lemma_div_denominator(v as int, 2, pow2((w - 2 - j) as nat) as int);
        }
        assert(s.drop_last() =~= bits_of_value(v / 2, (w - 1) as nat));
        lemma_bits_of_value_id(v / 2, (w - 1) as nat);
        lemma2_to64();
        assert(s.last() == ((v / pow2(0)) % 2 == 1));
        lemma_fundamental_div_mod(v as int, 2);
    }
}

/// A byte is determined by its bits.
pub proof fn lemma_byte_bits_injective(a: u8, b: u8)
    requires
        byte_bits(a) == byte_bits(b),
    ensures
        a == b,
{
    lemma2_to64();
    lemma_bits_of_value_id(a as nat, 8);
    lemma_bits_of_value_id(b as nat, 8);
}

/// Byte sequences with equal bit expansions are equal.
pub proof fn lemma_bits_of_bytes_injective(a: Seq<u8>, b: Seq<u8>)
    requires
        a.len() == b.len(),
        bits_of_bytes(a) == bits_of_bytes(b),
    ensures
        a =~= b,
{
    assert forall|k: int| 0 <= k < a.len() implies a[k] == b[k] by {
        assert forall|j: int| 0 <= j < 8 implies byte_bits(a[k])[j] == byte_bits(b[k])[j] by {
            lemma_fundamental_div_mod_converse(8 * k + j, 8, k, j);
            assert(bits_of_bytes(a)[8 * k + j] == byte_bits(a[k])[j]);
            assert(bits_of_bytes(b)[8 * k + j] == byte_bits(b[k])[j]);
        }
        assert(byte_bits(a[k]) =~= byte_bits(b[k]));
        lemma_byte_bits_injective(a[k], b[k]);
    }
}

/// Expands bytes into their bits, most-significant bit of each byte first.
pub(crate) fn bytes_to_bits(bytes: &Vec<u8>) -> (r: Vec<bool>)
    requires
        bytes@.len() <= 64,
    ensures
        r@ == bits_of_bytes(bytes@),
{
    let n = bytes.len();
    let mut r: Vec<bool> = Vec::new();
    let mut i: usize = 0;
    while i < n
        invariant
            i <= n,
            n == bytes@.len() <= 64,
            r@.len() == 8 * i,
            forall|k: int| 0 <= k < r@.len() ==> r@[k] == bits_of_bytes(bytes@)[k],
        decreases n - i,
    {
        let b = bytes[i];
        let mut p: u8 = 128;
        let mut j: usize = 0;
        proof {
            lemma2_to64();
        }
        while j < 8
            invariant
                j <= 8,
                i < n,
                n == bytes@.len() <= 64,
                r@.len() == 8 * i + j,
                j < 8 ==> p as nat == pow2((7 - j) as nat),
                b == bytes@[i as int],
                forall|k: int| 0 <= k < r@.len() ==> r@[k] == bits_of_bytes(bytes@)[k],
            decreases 8 - j,
        {
            proof {
                lemma2_to64();
            }
            let bit = (b / p) % 2 == 1;
            proof {
                assert(bit == byte_bits(b)[j as int]);
                lemma_fundamental_div_mod_converse(8 * (i as int) + (j as int), 8, i as int, j as int);
                assert(bits_of_bytes(bytes@)[8 * (i as int) + (j as int)] == byte_bits(b)[j as int]);
            }
            r.push(bit);
            p = p / 2;
            j = j + 1;
        }
        i = i + 1;
    }
    assert(r@ =~= bits_of_bytes(bytes@));
    r
}

/// Packs bits into bytes; the input length must be a multiple of eight.
pub(crate) fn bits_to_bytes(bits: &Vec<bool>) -> (r: Vec<u8>)
    requires
        bits@.len() % 8 == 0,
        bits@.len() <= 512,
    ensures
        r@.len() * 8 == bits@.len(),
        bits_of_bytes(r@) == bits@,
{
    let n = bits.len() / 8;
    proof {
        lemma_fundamental_div_mod(bits@.len() as int, 8);
    }
    let mut r: Vec<u8> = Vec::new();
    let mut i: usize = 0;
    while i < n
        invariant
            i <= n,
            8 * n == bits@.len() <= 512,
            r@.len() == i,
            forall|k: int| 0 <= k < i ==> r@[k] as nat == bits_value(
                bits@.subrange(8 * k, 8 * k + 8),
            ),
        decreases n - i,
    {
        let mut acc: u8 = 0;
        let mut j: usize = 0;
        proof {
            lemma2_to64();
        }
        while j < 8
            invariant
                j <= 8,
                i < n,
                8 * n == bits@.len() <= 512,
                acc as nat == bits_value(bits@.subrange(8 * (i as int), 8 * (i as int) + j)),
                (acc as nat) < pow2(j as nat),
            decreases 8 - j,
        {
            proof {
                lemma2_to64();
                if j < 7 {
                    lemma_pow2_strictly_increases(j as nat, 7);
                }
                assert(bits@.subrange(8 * (i as int), 8 * (i as int) + j + 1).drop_last()
                    =~= bits@.subrange(8 * (i as int), 8 * (i as int) + j));
            }
            let bit = bits[8 * i + j];
            acc = 2 * acc + (if bit {
                1
            } else {
                0
            });
            j = j + 1;
        }
        r.push(acc);
        i = i + 1;
    }
    assert forall|m: int| 0 <= m < bits@.len() implies bits_of_bytes(r@)[m] == bits@[m] by {
        let k = m / 8;
        let j = m % 8;
        lemma_fundamental_div_mod(m, 8);
        let chunk = bits@.subrange(8 * k, 8 * k + 8);
        lemma_bits_value_bit(chunk, j);
        lemma2_to64();
        assert(byte_bits(r@[k])[j] == ((r@[k] as nat / pow2((7 - j) as nat)) % 2 == 1));
        assert(chunk[j] == bits@[m]);
    }
    assert(bits_of_bytes(r@) =~= bits@);
    r
}

/// Cuts bits into 11-bit word indices; the input length must be a multiple
/// of eleven.
pub(crate) fn bits_to_indices(bits: &Vec<bool>) -> (r: Vec<u16>)
    requires
        bits@.len() % 11 == 0,
        bits@.len() <= 264,
    ensures
        r@.len() * 11 == bits@.len(),
        forall|k: int| 0 <= k < r@.len() ==> r@[k] as nat == bits_value(
            bits@.subrange(11 * k, 11 * k + 11),
        ) && r@[k] < 2048,
{
    let n = bits.len() / 11;
    proof {
        lemma_fundamental_div_mod(bits@.len() as int, 11);
    }
    let mut r: Vec<u16> = Vec::new();
    let mut i: usize = 0;
    while i < n
        invariant
            i <= n,
            11 * n == bits@.len() <= 264,
            r@.len() == i,
            forall|k: int| 0 <= k < i ==> r@[k] as nat == bits_value(
                bits@.subrange(11 * k, 11 * k + 11),
            ) && r@[k] < 2048,
        decreases n - i,
    {
        let mut acc: u16 = 0;
        let mut j: usize = 0;
        proof {
            lemma2_to64();
        }
        while j < 11
            invariant
                j <= 11,
                i < n,
                11 * n == bits@.len() <= 264,
                acc as nat == bits_value(bits@.subrange(11 * (i as int), 11 * (i as int) + j)),
                (acc as nat) < pow2(j as nat),
            decreases 11 - j,
        {
            proof {
                lemma2_to64();
                if j < 10 {
                    lemma_pow2_strictly_increases(j as nat, 10);
                }
                assert(bits@.subrange(11 * (i as int), 11 * (i as int) + j + 1).drop_last()
                    =~= bits@.subrange(11 * (i as int), 11 * (i as int) + j));
            }
            let bit = bits[11 * i + j];
            acc = 2 * acc + (if bit {
                1
            } else {
                0
            });
            j = j + 1;
        }
        proof {
            lemma2_to64();
        }
        r.push(acc);
        i = i + 1;
    }
    r
}

/// Expands 11-bit word indices back into their bits.
pub(crate) fn indices_to_bits(idxs: &Vec<u16>) -> (r: Vec<bool>)
    requires
        idxs@.len() <= 24,
        forall|k: int| 0 <= k < idxs@.len() ==> idxs@[k] < 2048,
    ensures
        r@ == bits_of_indices(idxs@),
{
    let n = idxs.len();
    let mut r: Vec<bool> = Vec::new();
    let mut i: usize = 0;
    while i < n
        invariant
            i <= n,
            n == idxs@.len() <= 24,
            forall|k: int| 0 <= k < idxs@.len() ==> idxs@[k] < 2048,
            r@.len() == 11 * i,
            forall|k: int| 0 <= k < r@.len() ==> r@[k] == bits_of_indices(idxs@)[k],
        decreases n - i,
    {
        let x = idxs[i];
        let mut p: u16 = 1024;
        let mut j: usize = 0;
        proof {
            lemma2_to64();
        }
        while j < 11
            invariant
                j <= 11,
                i < n,
                n == idxs@.len() <= 24,
                x == idxs@[i as int],
                r@.len() == 11 * i + j,
                j < 11 ==> p as nat == pow2((10 - j) as nat),
                forall|k: int| 0 <= k < r@.len() ==> r@[k] == bits_of_indices(idxs@)[k],
            decreases 11 - j,
        {
            proof {
                lemma2_to64();
            }
            let bit = (x / p) % 2 == 1;
            proof {
                assert(bit == bits_of_value(x as nat, 11)[j as int]);
                lemma_fundamental_div_mod_converse(
                    11 * (i as int) + (j as int),
                    11,
                    i as int,
                    j as int,
                );
                assert(bits_of_indices(idxs@)[11 * (i as int) + (j as int)] == bits_of_value(
                    idxs@[i as int] as nat,
                    11,
                )[j as int]);
            }
            r.push(bit);
            p = p / 2;
            j = j + 1;
        }
        i = i + 1;
    }
    assert(r@ =~= bits_of_indices(idxs@));
    r
}

} // verus!

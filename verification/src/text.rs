//! Phrase text handling: separator characters, splitting a phrase into
//! words and joining words back into a phrase.

use vstd::prelude::*;

verus! {

/// Characters accepted as word separators in a phrase: ASCII whitespace and
/// the ideographic space some renderings of east-asian phrases use.
pub open spec fn is_space_char(c: char) -> bool {
    c == ' ' || c == '\t' || c == '\n' || c == '\r' || c == '\u{3000}'
}

/// The length of the leading run of non-separator characters.
pub open spec fn first_word_len(s: Seq<char>) -> nat
    decreases s.len(),
{
    if s.len() == 0 || is_space_char(s[0]) {
        0
    } else {
        1 + first_word_len(s.drop_first())
    }
}

/// The leading word is never longer than the phrase.
proof fn lemma_first_word_len_le(s: Seq<char>)
    ensures
        first_word_len(s) <= s.len(),
    decreases s.len(),
{
    if s.len() > 0 && !is_space_char(s[0]) {
        lemma_first_word_len_le(s.drop_first());
    }
}

/// The words of a phrase: the maximal runs of non-separator characters, in
/// order. Leading, trailing and repeated separators carry no words.
pub open spec fn split_words(s: Seq<char>) -> Seq<Seq<char>>
    decreases s.len(),
    via split_words_decreases
{
    if s.len() == 0 {
        Seq::empty()
    } else if is_space_char(s[0]) {
        split_words(s.drop_first())
    } else {
        seq![s.take(first_word_len(s) as int)] + split_words(s.skip(first_word_len(s) as int))
    }
}

#[via_fn]
proof fn split_words_decreases(s: Seq<char>) {
    if s.len() > 0 && !is_space_char(s[0]) {
        lemma_first_word_len_le(s);
    }
}

/// Words joined by single spaces.
pub open spec fn join_words(ws: Seq<Seq<char>>) -> Seq<char>
    decreases ws.len(),
{
    if ws.len() == 0 {
        Seq::empty()
    } else if ws.len() == 1 {
        ws[0]
    } else {
        ws[0] + seq![' '] + join_words(ws.drop_first())
    }
}

/// A word is a nonempty run of non-separator characters.
pub open spec fn is_word(w: Seq<char>) -> bool {
    w.len() > 0 && forall|k: int| 0 <= k < w.len() ==> !is_space_char(w[k])
}

/// The leading word of `w + rest` is all of `w` when `w` is a word and
/// `rest` opens with a separator or is empty.
proof fn lemma_first_word_len_concat(w: Seq<char>, rest: Seq<char>)
    requires
        forall|k: int| 0 <= k < w.len() ==> !is_space_char(w[k]),
        rest.len() == 0 || is_space_char(rest[0]),
    ensures
        first_word_len(w + rest) == w.len(),
    decreases w.len(),
{
    if w.len() == 0 {
        assert(w + rest =~= rest);
    } else {
        assert((w + rest).drop_first() =~= w.drop_first() + rest);
        lemma_first_word_len_concat(w.drop_first(), rest);
    }
}

/// Splitting `w + rest` yields `w` and then the words of `rest`, when `w`
/// is a word and `rest` opens with a separator or is empty.
proof fn lemma_split_word(w: Seq<char>, rest: Seq<char>)
    requires
        is_word(w),
        rest.len() == 0 || is_space_char(rest[0]),
    ensures
        split_words(w + rest) == seq![w] + split_words(rest),
{
    let s = w + rest;
    lemma_first_word_len_concat(w, rest);
    assert(!is_space_char(s[0]));
    assert(s.take(w.len() as int) =~= w);
    assert(s.skip(w.len() as int) =~= rest);
}

/// A separator at the front of a phrase carries no word.
proof fn lemma_split_leading_space(s: Seq<char>)
    requires
        s.len() > 0,
        is_space_char(s[0]),
    ensures
        split_words(s) == split_words(s.drop_first()),
{
}

/// Splitting undoes joining, for sequences of words.
pub proof fn lemma_split_join(ws: Seq<Seq<char>>)
    requires
        forall|i: int| 0 <= i < ws.len() ==> is_word(#[trigger] ws[i]),
    ensures
        split_words(join_words(ws)) == ws,
    decreases ws.len(),
{
    if ws.len() == 0 {
        assert(split_words(join_words(ws)) =~~= ws);
    } else if ws.len() == 1 {
        lemma_split_word(ws[0], Seq::empty());
        assert(ws[0] + Seq::<char>::empty() =~= ws[0]);
        assert(seq![ws[0]] + split_words(Seq::<char>::empty()) =~~= ws);
    } else {
        let tail = seq![' '] + join_words(ws.drop_first());
        assert(join_words(ws) == ws[0] + tail);
        lemma_split_word(ws[0], tail);
        lemma_split_leading_space(tail);
        assert(tail.drop_first() =~= join_words(ws.drop_first()));
        lemma_split_join(ws.drop_first());
        assert(seq![ws[0]] + ws.drop_first() =~~= ws);
    }
}

/// Appending one more word to a join appends a space and the word.
pub proof fn lemma_join_push(ws: Seq<Seq<char>>, w: Seq<char>)
    ensures
        join_words(ws.push(w)) == if ws.len() == 0 {
            w
        } else {
            join_words(ws) + seq![' '] + w
        },
    decreases ws.len(),
{
    if ws.len() == 0 {
        assert(ws.push(w)[0] == w);
    } else if ws.len() == 1 {
        assert(ws.push(w).drop_first() =~~= seq![w]);
        assert(join_words(seq![w]) == w);
        assert(ws.push(w)[0] == ws[0]);
        assert(join_words(ws.push(w)) == ws[0] + seq![' '] + w);
        assert(join_words(ws) == ws[0]);
    } else {
        assert(ws.push(w).drop_first() =~~= ws.drop_first().push(w));
        lemma_join_push(ws.drop_first(), w);
        assert(ws[0] + seq![' '] + (join_words(ws.drop_first()) + seq![' '] + w) =~= (ws[0]
            + seq![' '] + join_words(ws.drop_first())) + seq![' '] + w);
    }
}

/// Tests whether a character separates words.
pub(crate) fn is_space(c: char) -> (r: bool)
    ensures
        r == is_space_char(c),
{
    c == ' ' || c == '\t' || c == '\n' || c == '\r' || c == '\u{3000}'
}

/// The characters of a string, in order.
///
/// Relies on `str::chars`: the characters of the string slice, which are
/// exactly its view.
#[verifier::external_body]
pub(crate) fn chars_of(s: &str) -> (r: Vec<char>)
    ensures
        r@ == s@,
{
    s.chars().collect()
}

/// A string holding exactly the given characters.
///
/// Relies on `String`'s `FromIterator` over `char`: collecting characters
/// yields the string of exactly those characters, in order.
#[verifier::external_body]
pub(crate) fn string_from_chars(v: &Vec<char>) -> (r: String)
    ensures
        r@ == v@,
{
    v.iter().collect()
}

/// Maps a sequence of character vectors to their views.
pub open spec fn views_of(r: Seq<Vec<char>>) -> Seq<Seq<char>> {
    r.map_values(|v: Vec<char>| v@)
}

/// Splits characters into words at separator runs.
pub(crate) fn split_chars(s: &Vec<char>) -> (r: Vec<Vec<char>>)
    ensures
        views_of(r@) == split_words(s@),
{
    let n = s.len();
    let mut r: Vec<Vec<char>> = Vec::new();
    let mut cur: Vec<char> = Vec::new();
    let mut i: usize = 0;
    proof {
        assert(cur@ + s@.skip(0) =~= s@);
        assert(views_of(r@) + split_words(s@) =~~= split_words(s@));
    }
    while i < n
        invariant
            i <= n,
            n == s@.len(),
            forall|k: int| 0 <= k < cur@.len() ==> !is_space_char(cur@[k]),
            split_words(s@) == views_of(r@) + split_words(cur@ + s@.skip(i as int)),
        decreases n - i,
    {
        let c = s[i];
        proof {
            assert((cur@ + s@.skip(i as int))[cur@.len() as int] == s@[i as int]);
        }
        if is_space(c) {
            if cur.len() > 0 {
                proof {
                    lemma_split_word(cur@, s@.skip(i as int));
                    assert(s@.skip(i as int).drop_first() =~= s@.skip(i as int + 1));
                    lemma_split_leading_space(s@.skip(i as int));
                    assert(views_of(r@.push(cur)) =~~= views_of(r@) + seq![cur@]);
                    assert((views_of(r@) + seq![cur@]) + split_words(s@.skip(i as int + 1))
                        =~~= views_of(r@) + (seq![cur@] + split_words(s@.skip(i as int + 1))));
                }
                r.push(cur);
                cur = Vec::new();
                proof {
                    assert(cur@ + s@.skip(i as int + 1) =~= s@.skip(i as int + 1));
                }
            } else {
                proof {
                    assert(cur@ + s@.skip(i as int) =~= s@.skip(i as int));
                    lemma_split_leading_space(s@.skip(i as int));
                    assert(s@.skip(i as int).drop_first() =~= s@.skip(i as int + 1));
                    assert(cur@ + s@.skip(i as int + 1) =~= s@.skip(i as int + 1));
                }
            }
        } else {
            proof {
                assert(cur@.push(s@[i as int]) + s@.skip(i as int + 1) =~= cur@ + s@.skip(
                    i as int,
                ));
            }
            cur.push(c);
        }
        i = i + 1;
    }
    proof {
        assert(s@.skip(n as int) =~= Seq::<char>::empty());
    }
    if cur.len() > 0 {
        proof {
            lemma_split_word(cur@, Seq::empty());
            assert(cur@ + Seq::<char>::empty() =~= cur@);
            assert(cur@ + s@.skip(n as int) =~= cur@);
            assert(views_of(r@.push(cur)) =~~= views_of(r@) + seq![cur@]);
            assert((views_of(r@) + seq![cur@]) + split_words(Seq::<char>::empty()) =~~= views_of(
                r@,
            ) + (seq![cur@] + split_words(Seq::<char>::empty())));
        }
        r.push(cur);
    } else {
        proof {
            assert(cur@ + s@.skip(n as int) =~= Seq::<char>::empty());
            assert(views_of(r@) + split_words(Seq::<char>::empty()) =~~= views_of(r@));
        }
    }
    r
}

/// Compares two character vectors for equality.
pub(crate) fn eq_chars(a: &Vec<char>, b: &Vec<char>) -> (r: bool)
    ensures
        r == (a@ == b@),
{
    if a.len() != b.len() {
        return false;
    }
    let n = a.len();
    let mut k: usize = 0;
    while k < n
        invariant
            k <= n,
            n == a@.len(),
            a@.len() == b@.len(),
            forall|j: int| 0 <= j < k ==> a@[j] == b@[j],
        decreases n - k,
    {
        if a[k] != b[k] {
            return false;
        }
        k = k + 1;
    }
    proof {
        assert(a@ =~= b@);
    }
    true
}

} // verus!

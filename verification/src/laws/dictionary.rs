//! Which words a dictionary knows, and which it proposes for a wrong word.

use crate::chars::lowered;
use crate::dictionary::{accepted_word, bucket_of, dict_of, in_bucket};
use crate::laws::words::{letters_alone, letters_are_the_alphabetic_characters};
use crate::text::trimmed;
use vstd::prelude::*;

verus! {

/// A line of a word list gives the word on it, in lower case, if that has two characters or
/// more.
pub proof fn lines_give_their_words(line: Seq<char>)
    ensures
        lowered(trimmed(line)).len() >= 2 ==> accepted_word(line) == Some(lowered(trimmed(line))),
        lowered(trimmed(line)).len() < 2 ==> accepted_word(line) is None,
{
}

/// A dictionary knows the words of its list, in any case, and no others.
pub proof fn listed_words_are_known(list: Seq<Seq<char>>, w: Seq<char>)
    ensures
        dict_of(list).knows(w) <==> list.contains(lowered(w)),
{
}

/// Whether a word of the list is proposed for a word that begins with two letters: it has five
/// characters or more and begins with these.
pub open spec fn begins_alike(w: Seq<char>, x: char, y: char) -> bool {
    w.len() >= 5 && w[0] == x && w[1] == y
}

proof fn lemma_bucket_is_filter(list: Seq<Seq<char>>, x: char, y: char)
    ensures
        bucket_of(list, (x, y)) == list.filter(|w: Seq<char>| begins_alike(w, x, y)),
    decreases list.len(),
{
    reveal(Seq::filter);
    if list.len() > 0 {
        lemma_bucket_is_filter(list.drop_last(), x, y);
        assert(in_bucket(list.last(), (x, y)) == begins_alike(list.last(), x, y));
    }
}

/// A dictionary proposes for a wrong word the words of five characters or more that begin with
/// its first two letters, in the order of the list. It proposes nothing if there are none, or if
/// the wrong word has fewer than two letters.
pub proof fn proposals_begin_alike(list: Seq<Seq<char>>, word: Seq<char>)
    ensures
        ({
            let ls = letters_alone(word);
            let alike = list.filter(|w: Seq<char>| begins_alike(w, ls[0], ls[1]));
            dict_of(list).candidates(word) == (if ls.len() >= 2 && alike.len() > 0 {
                Some(alike)
            } else {
                None
            })
        }),
{
    let ls = letters_alone(word);
    letters_are_the_alphabetic_characters(word);
    lemma_bucket_is_filter(list, ls[0], ls[1]);
}

proof fn lemma_filter_contains(list: Seq<Seq<char>>, x: char, y: char, w: Seq<char>)
    ensures
        list.filter(|v: Seq<char>| begins_alike(v, x, y)).contains(w) <==> list.contains(w)
            && begins_alike(w, x, y),
    decreases list.len(),
{
    reveal(Seq::filter);
    let f = |v: Seq<char>| begins_alike(v, x, y);
    let out = list.filter(f);
    if list.len() > 0 {
        let rest = list.drop_last();
        let before = rest.filter(f);
        lemma_filter_contains(rest, x, y, w);
        if list.contains(w) {
            let i = choose|i: int| 0 <= i < list.len() && list[i] == w;
            if i < rest.len() {
                assert(rest[i] == w);
            }
        }
        if rest.contains(w) {
            let i = choose|i: int| 0 <= i < rest.len() && rest[i] == w;
            assert(list[i] == w);
        }
        if list.last() == w {
            assert(list[list.len() - 1] == w);
        }
        if f(list.last()) {
            assert(out == before.push(list.last()));
            if before.contains(w) {
                let i = choose|i: int| 0 <= i < before.len() && before[i] == w;
                assert(out[i] == w);
            }
            if w == list.last() {
                assert(out[out.len() - 1] == w);
            }
            if out.contains(w) {
                let i = choose|i: int| 0 <= i < out.len() && out[i] == w;
                if i < before.len() {
                    assert(before[i] == w);
                }
            }
        }
    }
}

/// A word of the list of five characters or more is proposed for every word whose first two
/// letters are its own.
pub proof fn listed_words_are_proposed(list: Seq<Seq<char>>, word: Seq<char>, w: Seq<char>)
    requires
        list.contains(w),
        w.len() >= 5,
        letters_alone(word).len() >= 2,
        letters_alone(word)[0] == w[0],
        letters_alone(word)[1] == w[1],
    ensures
        dict_of(list).candidates(word) is Some,
        dict_of(list).candidates(word)->0.contains(w),
{
    proposals_begin_alike(list, word);
    let ls = letters_alone(word);
    lemma_filter_contains(list, ls[0], ls[1], w);
    let alike = list.filter(|v: Seq<char>| begins_alike(v, ls[0], ls[1]));
    let i = choose|i: int| 0 <= i < alike.len() && alike[i] == w;
    assert(alike.len() > 0);
}

/// What is proposed is a word of the list.
pub proof fn proposed_words_are_listed(list: Seq<Seq<char>>, word: Seq<char>, w: Seq<char>)
    requires
        dict_of(list).candidates(word) is Some,
        dict_of(list).candidates(word)->0.contains(w),
    ensures
        list.contains(w),
        w.len() >= 5,
        letters_alone(word).len() >= 2,
        letters_alone(word)[0] == w[0],
        letters_alone(word)[1] == w[1],
{
    proposals_begin_alike(list, word);
    let ls = letters_alone(word);
    lemma_filter_contains(list, ls[0], ls[1], w);
}

} // verus!

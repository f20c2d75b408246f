//! Which torn words are joined, and what becomes of them.

use crate::chars::{lowered, raised, uppercase};
use crate::dictionary::DictView;
use crate::laws::words::{letters_alone, letters_are_the_alphabetic_characters};
use crate::merge::{
    capitalized, is_fragment, lemma_run_in, letters_in, lowers_plainly, merge_change,
    merge_changes, merge_span, mergeable, merged_from, merged_token, merged_words, merges_from,
    run_letters, russian_case_is_plain, russian_letters, written_in, CorrectionView,
};
use crate::text::{lemma_all_letters, lemma_letters_of_sum, letters, spaced};
use crate::words::{lemma_punct_has_no_letters, punct_after, punct_before};
use vstd::prelude::*;

verus! {

/// The letters of the first `n` words, one after another.
pub open spec fn pieces_together(words: Seq<Seq<char>>, n: nat) -> Seq<char> {
    words.take(n as int).map_values(|w: Seq<char>| letters_alone(w)).flatten()
}

/// Whether a word has letters, and these are not a known word in lower case.
pub open spec fn is_unknown_piece(w: Seq<char>, d: DictView) -> bool {
    letters_alone(w).len() > 0 && !d.words.contains(lowered(lowered(letters_alone(w))))
}

/// Whether the first `n` words are the pieces of one known word: two to four words with
/// letters, none of them known, whose letters together are five or more and known.
pub open spec fn pieces_of_one_word(words: Seq<Seq<char>>, n: nat, d: DictView) -> bool {
    &&& 2 <= n <= 4
    &&& n <= words.len()
    &&& forall|x: int| 0 <= x < n ==> is_unknown_piece(#[trigger] words[x], d)
    &&& pieces_together(words, n).len() >= 5
    &&& d.words.contains(lowered(lowered(pieces_together(words, n))))
}

/// The letters of the first `n` words in lower case, the first letter raised if the first
/// piece began with a capital.
pub open spec fn whole_word(words: Seq<Seq<char>>, n: nat) -> Seq<char> {
    let low = lowered(pieces_together(words, n));
    if low.len() > 0 && uppercase(letters_alone(words[0])[0]) {
        low.update(0, raised(low[0]))
    } else {
        low
    }
}

/// The whole word between what stands before the first piece and after the last.
pub open spec fn whole_token(words: Seq<Seq<char>>, n: nat) -> Seq<char> {
    punct_before(words[0]) + whole_word(words, n) + punct_after(words[n - 1])
}

proof fn lemma_together(words: Seq<Seq<char>>, n: nat)
    requires
        n <= words.len(),
    ensures
        run_letters(words, 0, n) == pieces_together(words, n),
    decreases n,
{
    let f = |w: Seq<char>| letters_alone(w);
    let all = words.take(n as int).map_values(f);
    all.lemma_flatten_and_flatten_alt_are_equivalent();
    if n > 0 {
        let less = words.take(n - 1).map_values(f);
        lemma_together(words, (n - 1) as nat);
        less.lemma_flatten_and_flatten_alt_are_equivalent();
        assert(all.drop_last() =~= less);
        letters_are_the_alphabetic_characters(words[n - 1]);
    }
}

proof fn lemma_pieces(words: Seq<Seq<char>>, n: nat, d: DictView)
    requires
        2 <= n <= 4,
    ensures
        mergeable(words, 0, n, d) <==> pieces_of_one_word(words, n, d),
        n <= words.len() ==> run_letters(words, 0, n) == pieces_together(words, n),
{
    if n <= words.len() {
        lemma_together(words, n);
        assert forall|x: int| 0 <= x < n implies is_fragment(#[trigger] words[x], d)
            == is_unknown_piece(words[x], d) by {
            letters_are_the_alphabetic_characters(words[x]);
        }
        if mergeable(words, 0, n, d) {
            assert forall|x: int| 0 <= x < n implies is_unknown_piece(#[trigger] words[x], d) by {
                assert(is_fragment(words[x], d));
            }
        }
        if pieces_of_one_word(words, n, d) {
            assert forall|x: int| 0 <= x < 0 + n implies is_fragment(#[trigger] words[x], d) by {
                assert(is_unknown_piece(words[x], d));
            }
        }
    }
}

proof fn lemma_whole(words: Seq<Seq<char>>, n: nat, d: DictView)
    requires
        pieces_of_one_word(words, n, d),
    ensures
        merged_token(words, 0, n) == whole_token(words, n),
        merge_change(words, 0, n).corrected == whole_word(words, n),
{
    lemma_pieces(words, n, d);
    letters_are_the_alphabetic_characters(words[0]);
}

proof fn lemma_run_shift(words: Seq<Seq<char>>, k: int, i: int, n: nat)
    requires
        0 <= k <= words.len(),
        0 <= i,
        k + i + n <= words.len(),
    ensures
        run_letters(words.skip(k), i, n) == run_letters(words, k + i, n),
    decreases n,
{
    if n > 0 {
        lemma_run_shift(words, k, i, (n - 1) as nat);
    }
}

proof fn lemma_mergeable_shift(words: Seq<Seq<char>>, k: int, i: int, n: nat, d: DictView)
    requires
        0 <= k <= words.len(),
        0 <= i,
    ensures
        mergeable(words.skip(k), i, n, d) == mergeable(words, k + i, n, d),
{
    let rest = words.skip(k);
    if k + i + n <= words.len() {
        lemma_run_shift(words, k, i, n);
        if mergeable(rest, i, n, d) {
            assert forall|x: int| k + i <= x < k + i + n implies is_fragment(
                #[trigger] words[x],
                d,
            ) by {
                assert(is_fragment(rest[x - k], d));
            }
        }
        if mergeable(words, k + i, n, d) {
            assert forall|x: int| i <= x < i + n implies is_fragment(#[trigger] rest[x], d) by {
                assert(is_fragment(words[x + k], d));
            }
        }
    }
}

proof fn lemma_joined_shift(words: Seq<Seq<char>>, k: int, i: int, d: DictView)
    requires
        0 <= k <= words.len(),
        0 <= i,
        k + i <= words.len(),
    ensures
        merged_from(words.skip(k), i, d) == merged_from(words, k + i, d),
        merges_from(words.skip(k), i, d) == merges_from(words, k + i, d),
    decreases words.len() - k - i,
{
    let rest = words.skip(k);
    if k + i < words.len() {
        lemma_mergeable_shift(words, k, i, 4, d);
        lemma_mergeable_shift(words, k, i, 3, d);
        lemma_mergeable_shift(words, k, i, 2, d);
        let span = merge_span(words, k + i, d);
        if span > 0 {
            lemma_run_shift(words, k, i, span);
            lemma_joined_shift(words, k, i + span, d);
            assert(rest.subrange(i, i + span) =~= words.subrange(k + i, k + i + span));
            assert(rest[i] == words[k + i]);
            assert(rest[i + span - 1] == words[k + i + span - 1]);
        } else {
            lemma_joined_shift(words, k, i + 1, d);
            assert(rest[i] == words[k + i]);
        }
    }
}

/// The pieces of a known word are joined, the most pieces first, and the text goes on behind
/// them: what was torn becomes one token and one change.
pub proof fn pieces_are_joined(words: Seq<Seq<char>>, n: nat, d: DictView)
    requires
        pieces_of_one_word(words, n, d),
        forall|m: nat| m > n ==> !pieces_of_one_word(words, m, d),
    ensures
        merged_words(words, d) == seq![whole_token(words, n)] + merged_words(
            words.skip(n as int),
            d,
        ),
        merge_changes(words, d) == seq![merge_change(words, 0, n)] + merge_changes(
            words.skip(n as int),
            d,
        ),
        merge_change(words, 0, n).original == spaced(words.take(n as int)),
        merge_change(words, 0, n).corrected == whole_word(words, n),
        merge_change(words, 0, n).is_merge,
        merge_change(words, 0, n).reason == "склейка"@,
        merge_change(words, 0, n).rank == 4636737291354636288,
        merge_change(words, 0, n).diffs.len() == 0,
        merge_change(words, 0, n).context.len() == 0,
{
    lemma_pieces(words, 4, d);
    lemma_pieces(words, 3, d);
    lemma_pieces(words, 2, d);
    lemma_whole(words, n, d);
    lemma_joined_shift(words, n as int, 0, d);
    assert(merge_span(words, 0, d) == n);
    assert(words.subrange(0, n as int) =~= words.take(n as int));
}

/// Where no known word was torn, the first word stays as it is and the text goes on behind it.
pub proof fn other_words_are_not_joined(words: Seq<Seq<char>>, d: DictView)
    requires
        words.len() > 0,
        forall|m: nat| !pieces_of_one_word(words, m, d),
    ensures
        merged_words(words, d) == seq![words[0]] + merged_words(words.skip(1), d),
        merge_changes(words, d) == merge_changes(words.skip(1), d),
{
    lemma_pieces(words, 4, d);
    lemma_pieces(words, 3, d);
    lemma_pieces(words, 2, d);
    lemma_joined_shift(words, 1, 0, d);
    assert(merge_span(words, 0, d) == 0);
}

/// Nothing is joined in an empty text.
pub proof fn nothing_is_joined_in_nothing(d: DictView)
    ensures
        merged_words(Seq::empty(), d) == Seq::<Seq<char>>::empty(),
        merge_changes(Seq::empty(), d) == Seq::<CorrectionView>::empty(),
{
}

/// Two to four pieces of a known word alone become one token, with one change.
pub proof fn torn_pieces_become_one_token(words: Seq<Seq<char>>, d: DictView)
    requires
        pieces_of_one_word(words, words.len(), d),
    ensures
        merged_words(words, d) == seq![whole_token(words, words.len())],
        merge_changes(words, d).len() == 1,
        merge_changes(words, d)[0].original == spaced(words),
        merge_changes(words, d)[0].corrected == whole_word(words, words.len()),
{
    let n = words.len();
    pieces_are_joined(words, n, d);
    nothing_is_joined_in_nothing(d);
    assert(words.skip(n as int) =~= Seq::empty());
    assert(words.take(n as int) =~= words);
    assert(merged_words(words, d) =~= seq![whole_token(words, n)]);
}

/// In Russian words, the letters of the token that pieces become are, in lower case, those of
/// the pieces.
pub proof fn whole_words_have_the_letters_of_their_pieces(words: Seq<Seq<char>>, d: DictView)
    requires
        pieces_of_one_word(words, words.len(), d),
        letters_in(words, russian_letters()),
    ensures
        merged_words(words, d).len() == 1,
        lowered(letters_alone(merged_words(words, d)[0])) == lowered(
            pieces_together(words, words.len()),
        ),
{
    let n = words.len();
    let abc = russian_letters();
    let run = run_letters(words, 0, n);
    torn_pieces_become_one_token(words, d);
    lemma_pieces(words, n, d);
    lemma_whole(words, n, d);
    russian_case_is_plain();
    lemma_run_in(words, 0, n, abc);
    assert(lowers_plainly(run, abc));
    let word = whole_word(words, n);
    let before = punct_before(words[0]);
    let after = punct_after(words[n - 1]);
    assert(word == lowered(run) || word == capitalized(lowered(run)));
    assert(written_in(word, abc));
    assert forall|x: int| 0 <= x < word.len() implies crate::chars::alphabetic(#[trigger] word[x]) by {
        assert(abc.contains(word[x]));
    }
    lemma_all_letters(word);
    lemma_punct_has_no_letters(words[0]);
    lemma_punct_has_no_letters(words[n - 1]);
    lemma_letters_of_sum(before, word);
    lemma_letters_of_sum(before + word, after);
    assert(letters(whole_token(words, n)) =~= word);
    letters_are_the_alphabetic_characters(whole_token(words, n));
}

} // verus!

//! Which characters make a word, where sentences start, which words are proper nouns, and which
//! words are examined.

use crate::candidates::KnowledgeView;
use crate::chars::{alphabetic, lowered, numeric, uppercase};
use crate::correct::{examined, plan_of, planned_at, planned_upto};
use crate::morphology::{ending_differs, morphology_kept, stem_of, surname_like};
use crate::text::letters;
use crate::words::{
    abbreviated, beside_initials, context_at, first_inner, initials, inner, inner_chars, last_inner,
    lemma_first_inner, lemma_last_inner, outer_punct, proper_noun, punct_after, punct_before,
};
use vstd::prelude::*;

verus! {

/// A letter, a number, or one of the marks `;` `:` `|` `!` `\` `/` `*`.
pub open spec fn word_char(c: char) -> bool {
    ||| alphabetic(c)
    ||| numeric(c)
    ||| c == ';'
    ||| c == ':'
    ||| c == '|'
    ||| c == '!'
    ||| c == '\\'
    ||| c == '/'
    ||| c == '*'
}

/// The letters of a text.
pub open spec fn letters_alone(w: Seq<char>) -> Seq<char> {
    w.filter(|c: char| alphabetic(c))
}

/// The word characters of a text.
pub open spec fn word_chars_alone(w: Seq<char>) -> Seq<char> {
    w.filter(|c: char| word_char(c))
}

/// Whether a text ends in another.
pub open spec fn ends_in(s: Seq<char>, t: Seq<char>) -> bool {
    t.len() <= s.len() && s.skip(s.len() - t.len()) == t
}

/// Whether a full stop or a question mark stands in a word behind its last word character.
pub open spec fn stops(w: Seq<char>) -> bool {
    exists|x: int|
        0 <= x < w.len() && (#[trigger] w[x] == '.' || w[x] == '?') && forall|y: int|
            x <= y < w.len() ==> !word_char(#[trigger] w[y])
}

/// Whether a word has a full stop and one letter, which is a capital.
pub open spec fn is_initial(w: Seq<char>) -> bool {
    w.contains('.') && letters_alone(w).len() == 1 && uppercase(letters_alone(w)[0])
}

/// Whether a sentence starts at position `i` of a text.
pub open spec fn starts_sentence(words: Seq<Seq<char>>, i: int) -> bool {
    i == 0 || stops(words[i - 1])
}

/// Whether an initial follows on position `i` of a text.
pub open spec fn before_initial(words: Seq<Seq<char>>, i: int) -> bool {
    i + 1 < words.len() && is_initial(words[i + 1])
}

/// The letters of a word are its alphabetic characters, in order.
pub proof fn letters_are_the_alphabetic_characters(w: Seq<char>)
    ensures
        letters(w) == letters_alone(w),
    decreases w.len(),
{
    reveal(Seq::filter);
    if w.len() > 0 {
        letters_are_the_alphabetic_characters(w.drop_last());
    }
}

/// What is kept of a word is its letters, its numbers and the marks that stand for letters, in
/// order.
pub proof fn word_characters_are_kept(w: Seq<char>)
    ensures
        inner_chars(w) == word_chars_alone(w),
    decreases w.len(),
{
    reveal(Seq::filter);
    if w.len() > 0 {
        word_characters_are_kept(w.drop_last());
    }
}

/// What stands before a word are the characters before its first word character.
pub proof fn what_stands_before_is_no_word_character(w: Seq<char>)
    ensures
        exists|n: int|
            0 <= n <= w.len() && punct_before(w) == #[trigger] w.take(n) && (n < w.len() ==> word_char(
                w[n],
            )) && forall|x: int| 0 <= x < n ==> !word_char(#[trigger] w[x]),
{
    lemma_first_inner(w, 0);
    let n = first_inner(w, 0);
    assert(punct_before(w) == w.take(n));
    assert(n < w.len() ==> word_char(w[n]));
    assert forall|x: int| 0 <= x < n implies !word_char(#[trigger] w[x]) by {
        assert(!inner(w[x]));
    }
}

/// What stands after a word are the characters after its last word character.
pub proof fn what_stands_after_is_no_word_character(w: Seq<char>)
    ensures
        exists|n: int|
            0 <= n <= w.len() && punct_after(w) == #[trigger] w.skip(n) && (n > 0 ==> word_char(
                w[n - 1],
            )) && forall|x: int| n <= x < w.len() ==> !word_char(#[trigger] w[x]),
{
    lemma_last_inner(w, w.len() as int);
    let n = last_inner(w, w.len() as int);
    assert(punct_after(w) == w.skip(n));
    assert(n > 0 ==> word_char(w[n - 1]));
    assert forall|x: int| n <= x < w.len() implies !word_char(#[trigger] w[x]) by {
        assert(!inner(w[x]));
    }
}

/// A sentence starts with the text, and behind every word after whose last word character a
/// full stop or a question mark stands; nowhere else.
pub proof fn sentences_start_behind_stops(words: Seq<Seq<char>>, i: int)
    requires
        0 <= i < words.len(),
    ensures
        context_at(words, i).is_sentence_start <==> starts_sentence(words, i),
{
    if i > 0 {
        let w = words[i - 1];
        let e = last_inner(w, w.len() as int);
        let tail = punct_after(w);
        lemma_last_inner(w, w.len() as int);
        assert(!tail.contains('!')) by {
            if tail.contains('!') {
                let x = choose|x: int| 0 <= x < tail.len() && tail[x] == '!';
                assert(!inner(w[e + x]));
            }
        }
        if stops(w) {
            let x = choose|x: int|
                0 <= x < w.len() && (#[trigger] w[x] == '.' || w[x] == '?') && forall|y: int|
                    x <= y < w.len() ==> !word_char(#[trigger] w[y]);
            if x < e {
                assert(!word_char(w[e - 1]));
            }
            assert(tail[x - e] == w[x]);
            assert(tail.contains(w[x]));
        }
        if tail.contains('.') || tail.contains('?') {
            let c = if tail.contains('.') {
                '.'
            } else {
                '?'
            };
            let x = choose|x: int| 0 <= x < tail.len() && tail[x] == c;
            assert(w[e + x] == c);
            assert forall|y: int| e + x <= y < w.len() implies !word_char(#[trigger] w[y]) by {
                assert(!inner(w[y]));
            }
            assert(stops(w));
        }
    }
}

/// An initial is a word with a full stop and one letter, which is a capital.
pub proof fn initials_are_single_capitals(w: Seq<char>)
    ensures
        initials(w) <==> is_initial(w),
{
    letters_are_the_alphabetic_characters(w);
}

/// A context tells what its neighbours are: an initial before the word or behind it, and an
/// abbreviation before it.
pub proof fn contexts_tell_of_the_neighbours(words: Seq<Seq<char>>, i: int)
    requires
        0 <= i < words.len(),
    ensures
        context_at(words, i).original_case == word_chars_alone(words[i]),
        context_at(words, i).clean == lowered(word_chars_alone(words[i])),
        context_at(words, i).next_word_is_initials <==> before_initial(words, i),
        context_at(words, i).prev_word_is_initials <==> i > 0 && is_initial(words[i - 1]),
        context_at(words, i).is_after_abbrev <==> i > 0 && ends_in_abbreviation(words[i - 1]),
        beside_initials(words, i) <==> before_initial(words, i) || (i > 0 && is_initial(
            words[i - 1],
        )),
{
    word_characters_are_kept(words[i]);
    if i + 1 < words.len() {
        initials_are_single_capitals(words[i + 1]);
    }
    if i > 0 {
        initials_are_single_capitals(words[i - 1]);
        abbreviations_go_by_their_ending(words[i - 1]);
    }
}

/// Whether a word ends in one of the abbreviations of places, in either case.
pub open spec fn ends_in_abbreviation(w: Seq<char>) -> bool {
    let low = lowered(w);
    ||| ends_in(low, "г."@)
    ||| ends_in(low, "ул."@)
    ||| ends_in(low, "с."@)
    ||| ends_in(low, "д."@)
    ||| ends_in(low, "пр."@)
    ||| ends_in(low, "пер."@)
    ||| ends_in(low, "обл."@)
    ||| ends_in(low, "губ."@)
    ||| ends_in(low, "у."@)
}

/// A word is an abbreviation exactly if it ends in one.
pub proof fn abbreviations_go_by_their_ending(w: Seq<char>)
    ensures
        abbreviated(w) <==> ends_in_abbreviation(w),
{
    let low = lowered(w);
    let l = crate::words::abbreviations();
    assert(l.len() == 9);
    assert forall|i: int| 0 <= i < l.len() implies crate::text::has_suffix(
        low,
        (#[trigger] l[i])@,
    ) == ends_in(low, l[i]@) by {}
    assert(l[0]@ == "г."@ && l[1]@ == "ул."@ && l[2]@ == "с."@ && l[3]@ == "д."@ && l[4]@ == "пр."@
        && l[5]@ == "пер."@ && l[6]@ == "обл."@ && l[7]@ == "губ."@ && l[8]@ == "у."@);
}

/// A word is taken for a proper noun exactly if it has two word characters or more, the first is
/// a capital, and, where a sentence starts, an initial follows.
pub proof fn proper_nouns_are_capitalised(words: Seq<Seq<char>>, i: int)
    requires
        0 <= i < words.len(),
    ensures
        proper_noun(context_at(words, i)) <==> {
            let own = word_chars_alone(words[i]);
            own.len() >= 2 && uppercase(own[0]) && (starts_sentence(words, i) ==> before_initial(
                words,
                i,
            ))
        },
{
    sentences_start_behind_stops(words, i);
    contexts_tell_of_the_neighbours(words, i);
}

/// Whether the word at position `i` is a capitalised one that no sentence start explains.
pub open spec fn names_someone(words: Seq<Seq<char>>, i: int) -> bool {
    let own = word_chars_alone(words[i]);
    own.len() >= 2 && uppercase(own[0]) && (starts_sentence(words, i) ==> before_initial(words, i))
}

/// Whether a run looks at the word at position `i`: its word characters in lower case are long
/// enough and unknown, and what the run is told of proper nouns does not forbid it.
pub open spec fn is_looked_at(words: Seq<Seq<char>>, i: int, k: KnowledgeView) -> bool {
    let clean = lowered(word_chars_alone(words[i]));
    let fix = k.settings.policy.fix_proper_nouns;
    let only = k.settings.policy.only_proper_nouns;
    &&& clean.len() >= k.settings.min_word_len
    &&& !k.dict.words.contains(lowered(clean))
    &&& names_someone(words, i) ==> fix || only
    &&& only ==> names_someone(words, i)
}

/// The words that are examined are those that a run looks at.
pub proof fn examined_words_are_looked_at(words: Seq<Seq<char>>, i: int, k: KnowledgeView)
    requires
        0 <= i < words.len(),
    ensures
        examined(words, i, k) <==> is_looked_at(words, i, k),
{
    proper_nouns_are_capitalised(words, i);
    contexts_tell_of_the_neighbours(words, i);
}

/// Unless a run is told otherwise, an unknown word that is long enough is examined where a
/// sentence starts, capital or not, if no initial follows.
pub proof fn sentence_starts_are_examined(words: Seq<Seq<char>>, i: int, k: KnowledgeView)
    requires
        0 < i < words.len(),
        stops(words[i - 1]),
        !before_initial(words, i),
        !k.settings.policy.only_proper_nouns,
        lowered(word_chars_alone(words[i])).len() >= k.settings.min_word_len,
        !k.dict.words.contains(lowered(lowered(word_chars_alone(words[i])))),
    ensures
        context_at(words, i).is_sentence_start,
        !proper_noun(context_at(words, i)),
        examined(words, i, k),
{
    sentences_start_behind_stops(words, i);
    examined_words_are_looked_at(words, i, k);
    proper_nouns_are_capitalised(words, i);
}

proof fn lemma_planned(words: Seq<Seq<char>>, n: nat, k: KnowledgeView, i: int)
    requires
        0 <= i < n,
        examined(words, i, k),
    ensures
        planned_upto(words, n, k).contains(planned_at(words, i, k)),
    decreases n,
{
    let now = planned_upto(words, n, k);
    let before = planned_upto(words, (n - 1) as nat, k);
    if i == n - 1 {
        assert(now[now.len() - 1] == planned_at(words, i, k));
    } else {
        lemma_planned(words, (n - 1) as nat, k, i);
        let j = choose|j: int| 0 <= j < before.len() && before[j] == planned_at(words, i, k);
        assert(now[j] == before[j]);
    }
}

/// The plan for a text holds the words that a run looks at, each with its place, and no others.
pub proof fn plans_hold_what_is_looked_at(text: Seq<char>, k: KnowledgeView, i: int)
    requires
        0 <= i < plan_of(text, k).words.len(),
    ensures
        ({
            let plan = plan_of(text, k);
            is_looked_at(plan.words, i, k) <==> exists|j: int|
                0 <= j < plan.planned.len() && (#[trigger] plan.planned[j]).index == i
        }),
{
    let plan = plan_of(text, k);
    examined_words_are_looked_at(plan.words, i, k);
    if is_looked_at(plan.words, i, k) {
        lemma_planned(plan.words, plan.words.len(), k, i);
        let j = choose|j: int|
            0 <= j < plan.planned.len() && plan.planned[j] == planned_at(plan.words, i, k);
        assert(plan.planned[j].index == i);
    }
    assert forall|j: int| 0 <= j < plan.planned.len() && (#[trigger] plan.planned[j]).index == i implies
        is_looked_at(plan.words, i, k) by {
        crate::correct::lemma_planned_are_examined(plan.words, plan.words.len(), k, j);
    }
}

/// Whether a word ends as surnames do, in the old orthography or the new one.
pub open spec fn has_surname_ending(w: Seq<char>) -> bool {
    ||| ends_in(w, "овъ"@)
    ||| ends_in(w, "евъ"@)
    ||| ends_in(w, "инъ"@)
    ||| ends_in(w, "ынъ"@)
    ||| ends_in(w, "скій"@)
    ||| ends_in(w, "цкій"@)
    ||| ends_in(w, "ской"@)
    ||| ends_in(w, "цкой"@)
    ||| ends_in(w, "ова"@)
    ||| ends_in(w, "ева"@)
    ||| ends_in(w, "ина"@)
    ||| ends_in(w, "ына"@)
    ||| ends_in(w, "ская"@)
    ||| ends_in(w, "цкая"@)
    ||| ends_in(w, "ов"@)
    ||| ends_in(w, "ев"@)
    ||| ends_in(w, "ин"@)
    ||| ends_in(w, "ын"@)
    ||| ends_in(w, "ский"@)
    ||| ends_in(w, "цкий"@)
}

/// A word looks like a surname exactly if it has one of the endings of surnames.
pub proof fn surnames_go_by_their_ending(w: Seq<char>)
    ensures
        surname_like(w) <==> has_surname_ending(w),
{
    let l = crate::morphology::surname_suffixes();
    assert(l.len() == 20);
    assert forall|i: int| 0 <= i < l.len() implies crate::text::has_suffix(
        w,
        (#[trigger] l[i])@,
    ) == ends_in(w, l[i]@) by {}
    assert(l[0]@ == "овъ"@ && l[1]@ == "евъ"@ && l[2]@ == "инъ"@ && l[3]@ == "ынъ"@ && l[4]@
        == "скій"@ && l[5]@ == "цкій"@ && l[6]@ == "ской"@ && l[7]@ == "цкой"@ && l[8]@ == "ова"@
        && l[9]@ == "ева"@ && l[10]@ == "ина"@ && l[11]@ == "ына"@ && l[12]@ == "ская"@ && l[13]@
        == "цкая"@ && l[14]@ == "ов"@ && l[15]@ == "ев"@ && l[16]@ == "ин"@ && l[17]@ == "ын"@
        && l[18]@ == "ский"@ && l[19]@ == "цкий"@);
}

/// Whether two different words have all but three characters of the shorter one in common, and
/// at least one.
pub open spec fn share_all_but_three(a: Seq<char>, b: Seq<char>) -> bool {
    &&& a != b
    &&& a.len() >= 4
    &&& b.len() >= 4
    &&& a.len() <= b.len() ==> a.take(a.len() - 3) == b.take(a.len() - 3)
    &&& b.len() <= a.len() ==> a.take(b.len() - 3) == b.take(b.len() - 3)
}

/// Among surnames a word is not traded for another that shares all but the last three
/// characters with it, if both end as surnames do; any other trade is allowed.
pub proof fn surname_endings_are_not_traded(wrong: Seq<char>, right: Seq<char>, surname_ctx: bool)
    ensures
        morphology_kept(wrong, right, surname_ctx) <==> !(surname_ctx && has_surname_ending(wrong)
            && has_surname_ending(right) && share_all_but_three(wrong, right)),
{
    surnames_go_by_their_ending(wrong);
    surnames_go_by_their_ending(right);
    let n = if wrong.len() <= right.len() {
        wrong.len()
    } else {
        right.len()
    };
    if n > 3 {
        if ending_differs(wrong, right) {
            assert(wrong.take(n - 3) =~= right.take(n - 3));
        }
        if wrong.take(n - 3) == right.take(n - 3) {
            assert forall|i: int| 0 <= i < n - 3 implies wrong[i] == right[i] by {
                assert(wrong.take(n - 3)[i] == wrong[i]);
                assert(right.take(n - 3)[i] == right[i]);
            }
        }
    }
}

/// The stem of a word: four letters or fewer stay as they are, and of more letters an ending is
/// cut off, by three, two or one.
pub proof fn stems_lose_their_endings(word: Seq<char>)
    ensures
        ({
            let ls = letters_alone(lowered(word));
            let n = ls.len() as int;
            stem_of(word) == (if n <= 4 {
                ls
            } else if ends_in(ls, "ого"@) || ends_in(ls, "его"@) || ends_in(ls, "ему"@) || ends_in(
                ls,
                "ому"@,
            ) {
                ls.take(n - 3)
            } else if ends_in(ls, "ый"@) || ends_in(ls, "ій"@) || ends_in(ls, "ое"@) || ends_in(
                ls,
                "ая"@,
            ) || ends_in(ls, "ье"@) || ends_in(ls, "ья"@) || ends_in(ls, "ою"@) || ends_in(
                ls,
                "ею"@,
            ) || ends_in(ls, "емъ"@) || ends_in(ls, "омъ"@) || ends_in(ls, "амъ"@) || ends_in(
                ls,
                "ахъ"@,
            ) || ends_in(ls, "аго"@) || ends_in(ls, "яго"@) {
                ls.take(n - 2)
            } else if ends_in(ls, "ъ"@) || ends_in(ls, "ь"@) || ends_in(ls, "й"@) || ends_in(
                ls,
                "а"@,
            ) || ends_in(ls, "я"@) || ends_in(ls, "ы"@) || ends_in(ls, "и"@) || ends_in(ls, "у"@)
                || ends_in(ls, "ю"@) || ends_in(ls, "е"@) {
                ls.take(n - 1)
            } else {
                ls
            })
        }),
{
    let ls = letters_alone(lowered(word));
    letters_are_the_alphabetic_characters(lowered(word));
    let a = crate::morphology::long_endings();
    let b = crate::morphology::middle_endings();
    let c = crate::morphology::short_endings();
    assert(a.len() == 4 && b.len() == 14 && c.len() == 10);
    assert forall|t: Seq<char>| crate::text::has_suffix(ls, t) == #[trigger] ends_in(ls, t) by {}
    assert forall|i: int| 0 <= i < a.len() implies crate::text::has_suffix(
        ls,
        (#[trigger] a[i])@,
    ) == ends_in(ls, a[i]@) by {}
    assert forall|i: int| 0 <= i < b.len() implies crate::text::has_suffix(
        ls,
        (#[trigger] b[i])@,
    ) == ends_in(ls, b[i]@) by {}
    assert forall|i: int| 0 <= i < c.len() implies crate::text::has_suffix(
        ls,
        (#[trigger] c[i])@,
    ) == ends_in(ls, c[i]@) by {}
    assert(a[0]@ == "ого"@ && a[1]@ == "его"@ && a[2]@ == "ему"@ && a[3]@ == "ому"@);
    assert(b[0]@ == "ый"@ && b[1]@ == "ій"@ && b[2]@ == "ое"@ && b[3]@ == "ая"@ && b[4]@ == "ье"@
        && b[5]@ == "ья"@ && b[6]@ == "ою"@ && b[7]@ == "ею"@ && b[8]@ == "емъ"@ && b[9]@ == "омъ"@
        && b[10]@ == "амъ"@ && b[11]@ == "ахъ"@ && b[12]@ == "аго"@ && b[13]@ == "яго"@);
    assert(c[0]@ == "ъ"@ && c[1]@ == "ь"@ && c[2]@ == "й"@ && c[3]@ == "а"@ && c[4]@ == "я"@
        && c[5]@ == "ы"@ && c[6]@ == "и"@ && c[7]@ == "у"@ && c[8]@ == "ю"@ && c[9]@ == "е"@);
    assert(ls.take(ls.len() as int) =~= ls);
}

/// The marks that end a word for certain are the full stop, the comma, the question mark, quotes
/// of every kind, brackets of every kind, and the two dashes.
pub proof fn stops_quotes_brackets_and_dashes_end_words(c: char)
    ensures
        outer_punct(c) <==> seq![
            '.',
            ',',
            '?',
            '"',
            '\'',
            '«',
            '»',
            '(',
            ')',
            '[',
            ']',
            '{',
            '}',
            '—',
            '–',
        ].contains(c),
{
    let marks = seq!['.', ',', '?', '"', '\'', '«', '»', '(', ')', '[', ']', '{', '}', '—', '–'];
    assert(marks[0] == '.' && marks[1] == ',' && marks[2] == '?' && marks[3] == '"' && marks[4]
        == '\'' && marks[5] == '«' && marks[6] == '»' && marks[7] == '(' && marks[8] == ')'
        && marks[9] == '[' && marks[10] == ']' && marks[11] == '{' && marks[12] == '}'
        && marks[13] == '—' && marks[14] == '–');
    if marks.contains(c) {
        let i = choose|i: int| 0 <= i < marks.len() && marks[i] == c;
        assert(0 <= i < 15);
    }
}

} // verus!

//! What a text teaches: which words are looked at, which known word stands for an unknown one,
//! and which errors are counted.

use crate::align::edit_distance;
use crate::chars::lowered;
use crate::correct::shown_around;
use crate::dictionary::{dict_of, DictView};
use crate::diffs::diffs_between;
use crate::examples::ExampleView;
use crate::laws::dictionary::{listed_words_are_proposed, proposed_words_are_listed};
use crate::laws::edits::{
    counted_errors_are_those_between_the_words, errors_between, errors_number_the_distance,
    pairs_that_differ,
};
use crate::laws::words::{
    before_initial, contexts_tell_of_the_neighbours, has_surname_ending, is_initial, letters_alone,
    names_someone, proper_nouns_are_capitalised, share_all_but_three,
    surname_endings_are_not_traded, surnames_go_by_their_ending, word_chars_alone,
};
use crate::learn::{
    can_stand_for, lesson_of, lesson_upto, matched_lesson, nearest, nearest_is_the_first_minimum,
    stand_in, word_lesson, LessonView, WordLesson,
};
use crate::merge::merged_words;
use crate::settings::Settings;
use crate::text::split_words;
use crate::words::{beside_initials, context_at, recased, ContextView};
use vstd::prelude::*;

verus! {

/// Whether a word of a text counts as unknown: its word characters in lower case are long enough
/// and not in the dictionary, and what the run is told of proper nouns does not forbid to look
/// at it.
pub open spec fn counts_as_unknown(words: Seq<Seq<char>>, i: int, d: DictView, st: Settings) -> bool {
    let clean = lowered(word_chars_alone(words[i]));
    &&& clean.len() >= st.min_word_len
    &&& !d.words.contains(lowered(clean))
    &&& names_someone(words, i) ==> st.policy.fix_proper_nouns || st.policy.only_proper_nouns
    &&& st.policy.only_proper_nouns ==> names_someone(words, i)
}

/// Whether a word of a text is left alone as a proper noun.
pub open spec fn is_left_alone(words: Seq<Seq<char>>, i: int, d: DictView, st: Settings) -> bool {
    let clean = lowered(word_chars_alone(words[i]));
    &&& clean.len() >= st.min_word_len
    &&& !d.words.contains(lowered(clean))
    &&& names_someone(words, i)
    &&& !st.policy.fix_proper_nouns
    &&& !st.policy.only_proper_nouns
}

/// A word of a text teaches nothing unless it is unknown and long enough; a proper noun is then
/// left alone, unless the run is told to correct them; of any other it is learned whether a
/// known word stands for it.
pub proof fn unknown_words_teach(
    raw: Seq<Seq<char>>,
    words: Seq<Seq<char>>,
    i: int,
    d: DictView,
    st: Settings,
)
    requires
        0 <= i < words.len(),
    ensures
        word_lesson(raw, words, i, d, st) is Skipped <==> is_left_alone(words, i, d, st),
        word_lesson(raw, words, i, d, st) is Matched <==> counts_as_unknown(words, i, d, st)
            && stand_in(words, i, d, st) is Some,
        word_lesson(raw, words, i, d, st) is Unmatched <==> counts_as_unknown(words, i, d, st)
            && stand_in(words, i, d, st) is None,
        word_lesson(raw, words, i, d, st) is Matched ==> word_lesson(raw, words, i, d, st)
            == matched_lesson(
            context_at(words, i),
            stand_in(words, i, d, st)->0,
            shown_around(raw, i),
        ),
{
    proper_nouns_are_capitalised(words, i);
    contexts_tell_of_the_neighbours(words, i);
}

/// Whether a word of the list can stand for the unknown word at position `i`: five characters or
/// more, the same first two letters, parted by at least one edit and no more than are allowed,
/// and no surname ending traded for another.
pub open spec fn may_stand(
    list: Seq<Seq<char>>,
    words: Seq<Seq<char>>,
    i: int,
    st: Settings,
    w: Seq<char>,
) -> bool {
    let clean = lowered(word_chars_alone(words[i]));
    let among_names = has_surname_ending(clean) || before_initial(words, i) || (i > 0 && is_initial(
        words[i - 1],
    ));
    &&& list.contains(w)
    &&& w.len() >= 5
    &&& letters_alone(clean).len() >= 2
    &&& letters_alone(clean)[0] == w[0]
    &&& letters_alone(clean)[1] == w[1]
    &&& 0 < edit_distance(clean, w) <= st.max_edit_dist
    &&& !(among_names && has_surname_ending(clean) && has_surname_ending(w) && share_all_but_three(
        clean,
        w,
    ))
}

proof fn lemma_may_stand(
    list: Seq<Seq<char>>,
    words: Seq<Seq<char>>,
    i: int,
    st: Settings,
    w: Seq<char>,
)
    requires
        0 <= i < words.len(),
    ensures
        ({
            let clean = context_at(words, i).clean;
            let ws = dict_of(list).candidates(clean);
            may_stand(list, words, i, st, w) <==> ws is Some && ws->0.contains(w) && can_stand_for(
                clean,
                w,
                crate::morphology::surname_like(clean) || beside_initials(words, i),
                st.max_edit_dist as nat,
            )
        }),
{
    let clean = context_at(words, i).clean;
    contexts_tell_of_the_neighbours(words, i);
    surnames_go_by_their_ending(clean);
    surname_endings_are_not_traded(
        clean,
        w,
        crate::morphology::surname_like(clean) || beside_initials(words, i),
    );
    if may_stand(list, words, i, st, w) {
        listed_words_are_proposed(list, clean, w);
    }
    let ws = dict_of(list).candidates(clean);
    if ws is Some && ws->0.contains(w) {
        proposed_words_are_listed(list, clean, w);
    }
}

/// The known word that stands for an unknown one is the nearest of those that can: none that can
/// is nearer. There is none only if none can.
pub proof fn the_nearest_word_stands_in(
    list: Seq<Seq<char>>,
    words: Seq<Seq<char>>,
    i: int,
    st: Settings,
    w: Seq<char>,
)
    requires
        0 <= i < words.len(),
    ensures
        ({
            let clean = lowered(word_chars_alone(words[i]));
            match stand_in(words, i, dict_of(list), st) {
                Some(right) => may_stand(list, words, i, st, right) && (may_stand(
                    list,
                    words,
                    i,
                    st,
                    w,
                ) ==> edit_distance(clean, right) <= edit_distance(clean, w)),
                None => !may_stand(list, words, i, st, w),
            }
        }),
{
    let clean = context_at(words, i).clean;
    let surname_ctx = crate::morphology::surname_like(clean) || beside_initials(words, i);
    let max = st.max_edit_dist as nat;
    contexts_tell_of_the_neighbours(words, i);
    lemma_may_stand(list, words, i, st, w);
    if let Some(ws) = dict_of(list).candidates(clean) {
        nearest_is_the_first_minimum(clean, ws, surname_ctx, max, ws.len());
        if let Some(b) = nearest(clean, ws, surname_ctx, max, ws.len()) {
            assert(ws.contains(ws[b]));
            lemma_may_stand(list, words, i, st, ws[b]);
        }
        if may_stand(list, words, i, st, w) {
            let x = choose|x: int| 0 <= x < ws.len() && ws[x] == w;
            assert(can_stand_for(clean, ws[x], surname_ctx, max));
        }
    }
}

/// Of several nearest words the one that comes first in the dictionary stands in.
pub proof fn the_first_of_the_nearest_stands_in(
    words: Seq<Seq<char>>,
    i: int,
    d: DictView,
    st: Settings,
    x: int,
)
    requires
        0 <= i < words.len(),
        stand_in(words, i, d, st) is Some,
        d.candidates(context_at(words, i).clean) is Some,
        0 <= x < d.candidates(context_at(words, i).clean)->0.len(),
    ensures
        ({
            let clean = context_at(words, i).clean;
            let ws = d.candidates(clean)->0;
            let right = stand_in(words, i, d, st)->0;
            exists|b: int|
                0 <= b < ws.len() && #[trigger] ws[b] == right && (x < b && edit_distance(clean, ws[x])
                    == edit_distance(clean, right) ==> !can_stand_for(
                    clean,
                    ws[x],
                    crate::morphology::surname_like(clean) || beside_initials(words, i),
                    st.max_edit_dist as nat,
                ))
        }),
{
    let clean = context_at(words, i).clean;
    let surname_ctx = crate::morphology::surname_like(clean) || beside_initials(words, i);
    let ws = d.candidates(clean)->0;
    let max = st.max_edit_dist as nat;
    nearest_is_the_first_minimum(clean, ws, surname_ctx, max, ws.len());
    let b = nearest(clean, ws, surname_ctx, max, ws.len())->0;
    assert(ws[b] == stand_in(words, i, d, st)->0);
}

/// What two words teach that are parted by one or two edits: if they are of one length, the
/// characters that stand at one position and differ were confused, and nothing else; if not,
/// the errors of their alignment are counted, as many as there are edits. Words that are parted
/// by more teach no errors of single characters.
pub proof fn one_or_two_edits_teach_characters(
    ctx: ContextView,
    right: Seq<char>,
    context: Seq<char>,
)
    ensures
        ({
            let wrong = ctx.clean;
            let dist = edit_distance(wrong, right);
            matched_lesson(ctx, right, context) matches WordLesson::Matched {
                rules,
                confusions,
                insertions,
                deletions,
                example,
            } && {
                &&& dist <= 2 && wrong.len() == right.len() ==> confusions == pairs_that_differ(
                    wrong,
                    right,
                ) && insertions.len() == 0 && deletions.len() == 0
                &&& dist <= 2 && wrong.len() != right.len() ==> (confusions, insertions, deletions)
                    == errors_between(wrong, right)
                &&& dist <= 2 && wrong.len() != right.len() ==> confusions.len() + insertions.len()
                    + deletions.len() == dist
                &&& dist > 2 ==> confusions.len() == 0 && insertions.len() == 0 && deletions.len()
                    == 0
            }
        }),
{
    counted_errors_are_those_between_the_words(ctx.clean, right);
    errors_number_the_distance(ctx.clean, right);
}

/// What two words teach as rules: the texts of their differences, in order.
pub proof fn differences_are_taught_as_rules(ctx: ContextView, right: Seq<char>, context: Seq<char>)
    ensures
        matched_lesson(ctx, right, context) matches WordLesson::Matched { rules, .. } && {
            let ds = diffs_between(ctx.clean, right);
            &&& rules.len() == ds.len()
            &&& forall|i: int|
                0 <= i < ds.len() ==> #[trigger] rules[i] == (ds[i].wrong_text, ds[i].right_text)
        },
{
}

/// Two words give an example exactly if they are parted by one or two edits and differ in one
/// stretch of one character on each side. It shows the word as it was written, the known word in
/// the same case, and the place.
pub proof fn single_confusions_give_examples(
    ctx: ContextView,
    right: Seq<char>,
    context: Seq<char>,
)
    ensures
        ({
            let ds = diffs_between(ctx.clean, right);
            let single = edit_distance(ctx.clean, right) <= 2 && ds.len() == 1
                && ds[0].wrong_text.len() == 1 && ds[0].right_text.len() == 1;
            matched_lesson(ctx, right, context) matches WordLesson::Matched { example, .. } && {
                &&& example is Some <==> single
                &&& single ==> {
                    let e = example->0;
                    &&& e.0 == ds[0].wrong_text[0]
                    &&& e.1 == ds[0].right_text[0]
                    &&& e.2.original == ctx.original_case
                    &&& e.2.corrected == recased(ctx.original_case, right)
                    &&& e.2.rule == seq![ds[0].wrong_text[0], '→', ds[0].right_text[0]]
                    &&& e.2.rank == 4607182418800017408
                    &&& e.2.reason == "Pass1"@
                    &&& e.2.context == context
                }
            }
        }),
{
}

/// What a word taught of the confusions.
pub open spec fn confusions_taught(w: WordLesson) -> Seq<(char, char)> {
    match w {
        WordLesson::Matched { confusions, .. } => confusions,
        _ => Seq::empty(),
    }
}

/// What a word taught of the characters that are missing.
pub open spec fn insertions_taught(w: WordLesson) -> Seq<char> {
    match w {
        WordLesson::Matched { insertions, .. } => insertions,
        _ => Seq::empty(),
    }
}

/// What a word taught of the characters that are too much.
pub open spec fn deletions_taught(w: WordLesson) -> Seq<char> {
    match w {
        WordLesson::Matched { deletions, .. } => deletions,
        _ => Seq::empty(),
    }
}

/// The rules that a word taught.
pub open spec fn rules_taught(w: WordLesson) -> Seq<(Seq<char>, Seq<char>)> {
    match w {
        WordLesson::Matched { rules, .. } => rules,
        _ => Seq::empty(),
    }
}

/// The example that a word gave, if it gave one.
pub open spec fn examples_given(w: WordLesson) -> Seq<(char, char, ExampleView)> {
    match w {
        WordLesson::Matched { example: Some(e), .. } => seq![e],
        _ => Seq::empty(),
    }
}

/// What each of the first `n` words teaches.
pub open spec fn word_lessons(
    raw: Seq<Seq<char>>,
    words: Seq<Seq<char>>,
    n: nat,
    d: DictView,
    st: Settings,
) -> Seq<WordLesson> {
    Seq::new(n, |i: int| word_lesson(raw, words, i, d, st))
}

/// Whether a lesson puts together what words taught, in order.
pub open spec fn puts_together(l: LessonView, ws: Seq<WordLesson>) -> bool {
    &&& l.confusions == ws.map_values(|w: WordLesson| confusions_taught(w)).flatten()
    &&& l.insertions == ws.map_values(|w: WordLesson| insertions_taught(w)).flatten()
    &&& l.deletions == ws.map_values(|w: WordLesson| deletions_taught(w)).flatten()
    &&& l.rules == ws.map_values(|w: WordLesson| rules_taught(w)).flatten()
    &&& l.examples == ws.map_values(|w: WordLesson| examples_given(w)).flatten()
    &&& l.oov == ws.filter(|w: WordLesson| w is Unmatched || w is Matched).len()
    &&& l.matched == ws.filter(|w: WordLesson| w is Matched).len()
    &&& l.skipped == ws.filter(|w: WordLesson| w is Skipped).len()
}

proof fn lemma_flatten_push<A>(ws: Seq<WordLesson>, f: spec_fn(WordLesson) -> Seq<A>)
    requires
        ws.len() > 0,
    ensures
        ws.map_values(f).flatten() == ws.drop_last().map_values(f).flatten() + f(ws.last()),
{
    let all = ws.map_values(f);
    let less = ws.drop_last().map_values(f);
    all.lemma_flatten_and_flatten_alt_are_equivalent();
    less.lemma_flatten_and_flatten_alt_are_equivalent();
    assert(all.drop_last() =~= less);
}

proof fn lemma_puts_together(
    raw: Seq<Seq<char>>,
    words: Seq<Seq<char>>,
    n: nat,
    d: DictView,
    st: Settings,
)
    ensures
        puts_together(lesson_upto(raw, words, n, d, st), word_lessons(raw, words, n, d, st)),
    decreases n,
{
    reveal(Seq::filter);
    let l = lesson_upto(raw, words, n, d, st);
    let ws = word_lessons(raw, words, n, d, st);
    if n > 0 {
        lemma_puts_together(raw, words, (n - 1) as nat, d, st);
        assert(ws.drop_last() =~= word_lessons(raw, words, (n - 1) as nat, d, st));
        lemma_flatten_push(ws, |w: WordLesson| confusions_taught(w));
        lemma_flatten_push(ws, |w: WordLesson| insertions_taught(w));
        lemma_flatten_push(ws, |w: WordLesson| deletions_taught(w));
        lemma_flatten_push(ws, |w: WordLesson| rules_taught(w));
        lemma_flatten_push(ws, |w: WordLesson| examples_given(w));
        assert(l.confusions =~= ws.map_values(|w: WordLesson| confusions_taught(w)).flatten());
        assert(l.insertions =~= ws.map_values(|w: WordLesson| insertions_taught(w)).flatten());
        assert(l.deletions =~= ws.map_values(|w: WordLesson| deletions_taught(w)).flatten());
        assert(l.rules =~= ws.map_values(|w: WordLesson| rules_taught(w)).flatten());
        assert(l.examples =~= ws.map_values(|w: WordLesson| examples_given(w)).flatten());
    } else {
        assert(ws.map_values(|w: WordLesson| confusions_taught(w)) =~= Seq::empty());
        assert(ws.map_values(|w: WordLesson| insertions_taught(w)) =~= Seq::empty());
        assert(ws.map_values(|w: WordLesson| deletions_taught(w)) =~= Seq::empty());
        assert(ws.map_values(|w: WordLesson| rules_taught(w)) =~= Seq::empty());
        assert(ws.map_values(|w: WordLesson| examples_given(w)) =~= Seq::empty());
    }
}

/// A text teaches what its words teach, torn ones joined, one after another. Unknown words,
/// those for which a known word stands, and those that are left alone are each counted.
pub proof fn texts_teach_what_their_words_teach(text: Seq<char>, d: DictView, st: Settings)
    ensures
        ({
            let raw = split_words(text);
            let words = merged_words(raw, d);
            puts_together(
                lesson_of(text, d, st),
                word_lessons(raw, words, words.len(), d, st),
            )
        }),
{
    let raw = split_words(text);
    let words = merged_words(raw, d);
    lemma_puts_together(raw, words, words.len(), d, st);
}

proof fn lemma_flatten_contains<A>(ss: Seq<Seq<A>>, i: int, x: A)
    requires
        0 <= i < ss.len(),
        ss[i].contains(x),
    ensures
        ss.flatten().contains(x),
    decreases ss.len(),
{
    let all = ss.flatten();
    let rest = ss.drop_first();
    if i == 0 {
        let j = choose|j: int| 0 <= j < ss[0].len() && ss[0][j] == x;
        assert(all[j] == x);
    } else {
        assert(rest[i - 1] == ss[i]);
        lemma_flatten_contains(rest, i - 1, x);
        let j = choose|j: int| 0 <= j < rest.flatten().len() && rest.flatten()[j] == x;
        assert(all[ss[0].len() + j] == x);
    }
}

proof fn lemma_filter_keeps<A>(s: Seq<A>, f: spec_fn(A) -> bool, x: int)
    requires
        0 <= x < s.len(),
        f(s[x]),
    ensures
        s.filter(f).contains(s[x]),
    decreases s.len(),
{
    reveal(Seq::filter);
    let out = s.filter(f);
    let before = s.drop_last().filter(f);
    if x == s.len() - 1 {
        assert(out[out.len() - 1] == s[x]);
    } else {
        assert(s.drop_last()[x] == s[x]);
        lemma_filter_keeps(s.drop_last(), f, x);
        let j = choose|j: int| 0 <= j < before.len() && before[j] == s[x];
        assert(out[j] == before[j]);
    }
}

/// An unknown word of a text that one or two edits part from the known word of its length that
/// stands for it teaches a confusion at each position at which the two differ.
pub proof fn every_differing_character_is_learned(
    text: Seq<char>,
    d: DictView,
    st: Settings,
    i: int,
    x: int,
)
    requires
        0 <= i < merged_words(split_words(text), d).len(),
        ({
            let words = merged_words(split_words(text), d);
            let clean = lowered(word_chars_alone(words[i]));
            &&& counts_as_unknown(words, i, d, st)
            &&& stand_in(words, i, d, st) matches Some(right) && right.len() == clean.len()
                && edit_distance(clean, right) <= 2 && 0 <= x < clean.len() && clean[x] != right[x]
        }),
    ensures
        ({
            let words = merged_words(split_words(text), d);
            let clean = lowered(word_chars_alone(words[i]));
            let right = stand_in(words, i, d, st)->0;
            lesson_of(text, d, st).confusions.contains((clean[x], right[x]))
        }),
{
    let raw = split_words(text);
    let words = merged_words(raw, d);
    let right = stand_in(words, i, d, st)->0;
    let w = word_lesson(raw, words, i, d, st);
    let ctx = context_at(words, i);
    contexts_tell_of_the_neighbours(words, i);
    unknown_words_teach(raw, words, i, d, st);
    one_or_two_edits_teach_characters(ctx, right, shown_around(raw, i));
    let all = Seq::new(ctx.clean.len(), |y: int| (ctx.clean[y], right[y]));
    let f = |p: (char, char)| p.0 != p.1;
    lemma_filter_keeps(all, f, x);
    assert(all[x] == (ctx.clean[x], right[x]));
    texts_teach_what_their_words_teach(text, d, st);
    let ws = word_lessons(raw, words, words.len(), d, st);
    let parts = ws.map_values(|v: WordLesson| confusions_taught(v));
    assert(parts[i] == confusions_taught(w));
    lemma_flatten_contains(parts, i, (ctx.clean[x], right[x]));
}

} // verus!

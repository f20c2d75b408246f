//! Learning from a text: the runs of known words in it, and what its unknown words have
//! in common with the nearest known ones.

use crate::align::{distance_covers_length_gap, edit_distance, levenshtein};
use crate::chars::lowered;
use crate::correct::{lower_letters, show_around, shown_around};
use crate::counts::{
    empty_table_has_room, has_room, lemma_room_in_two_steps, tallied, tally_in_two_steps,
    tally_order_is_free,
};
use crate::dictionary::{DictView, Dictionary};
use crate::diffs::{
    collect_char_confusions, confused_characters_differ, deletion_events, diff_views, diffs_between,
    extract_diffs, insertion_events, sub_events, AlignDiff, DiffView,
};
use crate::examples::{
    examples_of, rule_name, rule_name_of, with_example, Example, ExampleBook, ExampleView,
};
use crate::merge::{merge_split_words, merged_words, merging_adds_no_words};
use crate::morphology::{
    correction_is_morphologically_safe, looks_like_surname, morphology_kept, normalize_for_ngram,
    stem_of, surname_like,
};
use crate::ngrams::{collect_ngrams, ngrams_of};
use crate::settings::Settings;
use crate::stats::{fresh_stats, GlobalStats, StatsView};
use crate::tables::{ngram_keys, rule_keys};
use crate::text::{chars_of, letters, split_words, texts, words_of};
use crate::words::{
    beside_initials, build_word_contexts, context_at, context_views, contexts_of, is_proper_noun,
    is_surname_in_context, policy_admits, proper_noun, recased, restore_case, ContextView,
    WordContext,
};
use vstd::prelude::*;

verus! {

/// The rank of every example that is learned: the bit pattern of the double-precision score 1.
pub const LEARNED_RANK: i64 = 4607182418800017408;

/// The most edits of a word from which single-character errors are learned.
pub const MAX_EVENT_DIST: usize = 2;

/// The stem of a word of the text, if its letters are a known word.
pub open spec fn known_stem(w: Seq<char>, d: DictView) -> Option<Seq<char>> {
    let clean = lowered(letters(w));
    if clean.len() > 0 && d.knows(clean) {
        Some(stem_of(clean))
    } else {
        None
    }
}

/// The stems of the known words that stand right before position `n`, up to the last
/// unknown word.
pub open spec fn known_run(words: Seq<Seq<char>>, n: nat, d: DictView) -> Seq<Seq<char>>
    decreases n,
{
    if n == 0 {
        Seq::empty()
    } else {
        match known_stem(words[n - 1], d) {
            Some(s) => known_run(words, (n - 1) as nat, d).push(s),
            None => Seq::empty(),
        }
    }
}

/// The n-grams of the runs of known words that end before position `n`.
pub open spec fn ended_ngrams(words: Seq<Seq<char>>, n: nat, d: DictView, max_n: nat) -> Seq<
    Seq<Seq<char>>,
>
    decreases n,
{
    if n == 0 {
        Seq::empty()
    } else {
        let before = ended_ngrams(words, (n - 1) as nat, d, max_n);
        match known_stem(words[n - 1], d) {
            Some(_) => before,
            None => before + ngrams_of(known_run(words, (n - 1) as nat, d), max_n),
        }
    }
}

/// The n-grams of a text: those of every run of known words in it.
pub open spec fn text_ngrams(words: Seq<Seq<char>>, d: DictView, max_n: nat) -> Seq<Seq<Seq<char>>> {
    ended_ngrams(words, words.len(), d, max_n) + ngrams_of(known_run(words, words.len(), d), max_n)
}

/// The n-grams of a text: those of every run of known words in it.
pub fn collect_text_ngrams(words: &[String], dict: &Dictionary, max_n: usize) -> (r: Vec<Vec<String>>)
    ensures
        ngram_keys(r@) == text_ngrams(texts(words@), dict@, max_n as nat),
{
    let ghost ws = texts(words@);
    let mut out: Vec<Vec<String>> = Vec::new();
    let mut buf: Vec<String> = Vec::new();
    let mut i: usize = 0;
    assert(ngram_keys(out@) =~= ended_ngrams(ws, 0, dict@, max_n as nat));
    assert(texts(buf@) =~= known_run(ws, 0, dict@));
    while i < words.len()
        invariant
            i <= words.len(),
            ws == texts(words@),
            ngram_keys(out@) == ended_ngrams(ws, i as nat, dict@, max_n as nat),
            texts(buf@) == known_run(ws, i as nat, dict@),
        decreases words.len() - i,
    {
        let clean = lower_letters(words[i].as_str());
        let ghost run = texts(buf@);
        let ghost done = ngram_keys(out@);
        if chars_of(clean.as_str()).len() > 0 && dict.contains(clean.as_str()) {
            let stem = normalize_for_ngram(clean.as_str());
            let ghost sv = stem@;
            buf.push(stem);
            assert(texts(buf@) =~= run.push(sv));
        } else {
            let mut grams = collect_ngrams(buf.as_slice(), max_n);
            let ghost new = ngram_keys(grams@);
            out.append(&mut grams);
            assert(ngram_keys(out@) =~= done + new);
            buf = Vec::new();
            assert(texts(buf@) =~= Seq::<Seq<char>>::empty());
        }
        i += 1;
    }
    let ghost done = ngram_keys(out@);
    let mut grams = collect_ngrams(buf.as_slice(), max_n);
    let ghost new = ngram_keys(grams@);
    out.append(&mut grams);
    assert(ngram_keys(out@) =~= done + new);
    out
}

/// Whether a dictionary word can stand for an unknown one: it is near enough, but not the
/// word itself, and leaves surnames alone.
pub open spec fn can_stand_for(
    clean: Seq<char>,
    word: Seq<char>,
    surname_ctx: bool,
    max_dist: nat,
) -> bool {
    0 < edit_distance(clean, word) <= max_dist && morphology_kept(clean, word, surname_ctx)
}

/// The nearest of the first `n` words that can stand for an unknown one, and of several
/// equally near the first.
pub open spec fn nearest(
    clean: Seq<char>,
    ws: Seq<Seq<char>>,
    surname_ctx: bool,
    max_dist: nat,
    n: nat,
) -> Option<int>
    decreases n,
{
    if n == 0 {
        None
    } else {
        let before = nearest(clean, ws, surname_ctx, max_dist, (n - 1) as nat);
        if can_stand_for(clean, ws[n - 1], surname_ctx, max_dist) && (before is None
            || edit_distance(clean, ws[n - 1]) < edit_distance(clean, ws[before->0])) {
            Some(n - 1)
        } else {
            before
        }
    }
}

/// The nearest word is at most as far from the unknown one as every other that can stand for
/// it, and farther words or none come before it; there is none only if no word can.
pub proof fn nearest_is_the_first_minimum(
    clean: Seq<char>,
    ws: Seq<Seq<char>>,
    surname_ctx: bool,
    max_dist: nat,
    n: nat,
)
    requires
        n <= ws.len(),
    ensures
        match nearest(clean, ws, surname_ctx, max_dist, n) {
            Some(b) => {
                &&& 0 <= b < n
                &&& can_stand_for(clean, ws[b], surname_ctx, max_dist)
                &&& forall|i: int|
                    0 <= i < n && #[trigger] can_stand_for(clean, ws[i], surname_ctx, max_dist)
                        ==> edit_distance(clean, ws[b]) <= edit_distance(clean, ws[i])
                &&& forall|i: int|
                    0 <= i < b && #[trigger] can_stand_for(clean, ws[i], surname_ctx, max_dist)
                        ==> edit_distance(clean, ws[b]) < edit_distance(clean, ws[i])
            },
            None => forall|i: int|
                0 <= i < n ==> !#[trigger] can_stand_for(clean, ws[i], surname_ctx, max_dist),
        },
    decreases n,
{
    if n > 0 {
        nearest_is_the_first_minimum(clean, ws, surname_ctx, max_dist, (n - 1) as nat);
    }
}

proof fn lemma_distance_one_is_final(
    clean: Seq<char>,
    ws: Seq<Seq<char>>,
    surname_ctx: bool,
    max_dist: nat,
    n: nat,
    m: nat,
)
    requires
        n <= m,
        nearest(clean, ws, surname_ctx, max_dist, n) is Some,
        edit_distance(clean, ws[nearest(clean, ws, surname_ctx, max_dist, n)->0]) == 1,
    ensures
        nearest(clean, ws, surname_ctx, max_dist, m) == nearest(
            clean,
            ws,
            surname_ctx,
            max_dist,
            n,
        ),
    decreases m,
{
    if n < m {
        lemma_distance_one_is_final(clean, ws, surname_ctx, max_dist, n, (m - 1) as nat);
    }
}

/// Finds the nearest word that can stand for an unknown one, with its distance.
pub fn find_nearest(clean: &str, list: &Vec<String>, surname_ctx: bool, max_dist: usize) -> (r: Option<
    (usize, usize),
>)
    ensures
        match r {
            Some(m) => {
                &&& m.0 < list@.len()
                &&& nearest(clean@, texts(list@), surname_ctx, max_dist as nat, list@.len()) == Some(
                    m.0 as int,
                )
                &&& m.1 == edit_distance(clean@, list@[m.0 as int]@)
            },
            None => nearest(clean@, texts(list@), surname_ctx, max_dist as nat, list@.len()) is None,
        },
{
    let ghost ws = texts(list@);
    let ghost far = max_dist as nat;
    let chars = chars_of(clean);
    let mut best: Option<(usize, usize)> = None;
    let mut i: usize = 0;
    while i < list.len()
        invariant
            i <= list.len(),
            ws == texts(list@),
            far == max_dist,
            chars@ == clean@,
            match best {
                Some(m) => {
                    &&& m.0 < i
                    &&& nearest(clean@, ws, surname_ctx, far, i as nat) == Some(m.0 as int)
                    &&& m.1 == edit_distance(clean@, ws[m.0 as int])
                },
                None => nearest(clean@, ws, surname_ctx, far, i as nat) is None,
            },
        decreases list.len() - i,
    {
        let word = &list[i];
        assert(ws[i as int] == word@);
        let cc = chars_of(word.as_str());
        let gap: usize = if chars.len() >= cc.len() {
            chars.len() - cc.len()
        } else {
            cc.len() - chars.len()
        };
        proof {
            distance_covers_length_gap(chars@, cc@);
        }
        if gap <= max_dist {
            let dist: usize = levenshtein(chars.as_slice(), cc.as_slice());
            let nearer = match best {
                Some(m) => dist < m.1,
                None => dist <= max_dist,
            };
            proof {
                nearest_is_the_first_minimum(clean@, ws, surname_ctx, far, i as nat);
            }
            if dist > 0 && nearer && correction_is_morphologically_safe(
                clean,
                word.as_str(),
                surname_ctx,
            ) {
                best = Some((i, dist));
                if dist == 1 {
                    proof {
                        lemma_distance_one_is_final(
                            clean@,
                            ws,
                            surname_ctx,
                            far,
                            (i + 1) as nat,
                            ws.len(),
                        );
                    }
                    return best;
                }
            }
        }
        i += 1;
    }
    best
}

/// What one word of a text teaches.
#[verifier::ext_equal]
pub enum WordLesson {
    /// The word is known, short, or outside of what is looked at.
    Nothing,
    /// The word was left alone as a proper noun.
    Skipped,
    /// No known word can stand for the unknown one.
    Unmatched,
    /// A known word can stand for the unknown one.
    Matched {
        rules: Seq<(Seq<char>, Seq<char>)>,
        confusions: Seq<(char, char)>,
        insertions: Seq<char>,
        deletions: Seq<char>,
        example: Option<(char, char, ExampleView)>,
    },
}

/// The errors of a list of differences.
pub open spec fn rules_of(ds: Seq<DiffView>) -> Seq<(Seq<char>, Seq<char>)> {
    Seq::new(ds.len(), |i: int| (ds[i].wrong_text, ds[i].right_text))
}

/// Whether two words differ in exactly one character that became another.
pub open spec fn is_single_sub(ds: Seq<DiffView>) -> bool {
    ds.len() == 1 && ds[0].wrong_text.len() == 1 && ds[0].right_text.len() == 1
}

/// What a word teaches for which the known word `right` stands.
pub open spec fn matched_lesson(ctx: ContextView, right: Seq<char>, context: Seq<char>) -> WordLesson {
    let ds = diffs_between(ctx.clean, right);
    if edit_distance(ctx.clean, right) <= MAX_EVENT_DIST {
        WordLesson::Matched {
            rules: rules_of(ds),
            confusions: sub_events(ctx.clean, right),
            insertions: insertion_events(ctx.clean, right),
            deletions: deletion_events(ctx.clean, right),
            example: if is_single_sub(ds) {
                let from = ds[0].wrong_text[0];
                let to = ds[0].right_text[0];
                Some(
                    (
                        from,
                        to,
                        ExampleView {
                            original: ctx.original_case,
                            corrected: recased(ctx.original_case, right),
                            rule: rule_name(from, to),
                            reason: "Pass1"@,
                            context,
                            rank: LEARNED_RANK,
                        },
                    ),
                )
            } else {
                None
            },
        }
    } else {
        WordLesson::Matched {
            rules: rules_of(ds),
            confusions: Seq::empty(),
            insertions: Seq::empty(),
            deletions: Seq::empty(),
            example: None,
        }
    }
}

/// The nearest known word that can stand for the unknown word at position `i`.
pub open spec fn stand_in(words: Seq<Seq<char>>, i: int, d: DictView, st: Settings) -> Option<
    Seq<char>,
> {
    let clean = context_at(words, i).clean;
    let surname_ctx = surname_like(clean) || beside_initials(words, i);
    match d.candidates(clean) {
        Some(ws) => match nearest(clean, ws, surname_ctx, st.max_edit_dist as nat, ws.len()) {
            Some(b) => Some(ws[b]),
            None => None,
        },
        None => None,
    }
}

/// What the word at position `i` teaches. `raw` are the words before torn ones were joined:
/// the example shows the place from them.
pub open spec fn word_lesson(
    raw: Seq<Seq<char>>,
    words: Seq<Seq<char>>,
    i: int,
    d: DictView,
    st: Settings,
) -> WordLesson {
    let ctx = context_at(words, i);
    if d.knows(ctx.clean) || ctx.clean.len() < st.min_word_len {
        WordLesson::Nothing
    } else if !policy_admits(st.policy, proper_noun(ctx)) {
        if proper_noun(ctx) {
            WordLesson::Skipped
        } else {
            WordLesson::Nothing
        }
    } else {
        match stand_in(words, i, d, st) {
            Some(right) => matched_lesson(ctx, right, shown_around(raw, i)),
            None => WordLesson::Unmatched,
        }
    }
}

/// An example to be added for a pair of characters.
#[derive(Debug)]
pub struct NewExample {
    pub from: char,
    pub to: char,
    pub example: Example,
}

/// The contents of a list of examples to be added.
pub open spec fn new_examples(es: Seq<NewExample>) -> Seq<(char, char, ExampleView)> {
    Seq::new(es.len(), |i: int| (es[i].from, es[i].to, es[i].example@))
}

/// What a text teaches.
#[derive(Debug)]
pub struct Lesson {
    pub ngrams: Vec<Vec<String>>,
    pub rules: Vec<(String, String)>,
    pub confusions: Vec<(char, char)>,
    pub insertions: Vec<char>,
    pub deletions: Vec<char>,
    pub examples: Vec<NewExample>,
    pub oov: usize,
    pub matched: usize,
    pub skipped: usize,
}

/// The mathematical content of a `Lesson`.
#[verifier::ext_equal]
pub struct LessonView {
    pub ngrams: Seq<Seq<Seq<char>>>,
    pub rules: Seq<(Seq<char>, Seq<char>)>,
    pub confusions: Seq<(char, char)>,
    pub insertions: Seq<char>,
    pub deletions: Seq<char>,
    pub examples: Seq<(char, char, ExampleView)>,
    pub oov: nat,
    pub matched: nat,
    pub skipped: nat,
}

impl View for Lesson {
    type V = LessonView;

    open spec fn view(&self) -> LessonView {
        LessonView {
            ngrams: ngram_keys(self.ngrams@),
            rules: rule_keys(self.rules@),
            confusions: self.confusions@,
            insertions: self.insertions@,
            deletions: self.deletions@,
            examples: new_examples(self.examples@),
            oov: self.oov as nat,
            matched: self.matched as nat,
            skipped: self.skipped as nat,
        }
    }
}

/// A lesson with what one more word teaches.
pub open spec fn with_word(l: LessonView, w: WordLesson) -> LessonView {
    match w {
        WordLesson::Nothing => l,
        WordLesson::Skipped => LessonView { skipped: l.skipped + 1, ..l },
        WordLesson::Unmatched => LessonView { oov: l.oov + 1, ..l },
        WordLesson::Matched { rules, confusions, insertions, deletions, example } => LessonView {
            rules: l.rules + rules,
            confusions: l.confusions + confusions,
            insertions: l.insertions + insertions,
            deletions: l.deletions + deletions,
            examples: match example {
                Some(e) => l.examples.push(e),
                None => l.examples,
            },
            oov: l.oov + 1,
            matched: l.matched + 1,
            ..l
        },
    }
}

/// What the n-grams of a text and its first `n` words teach.
pub open spec fn lesson_upto(
    raw: Seq<Seq<char>>,
    words: Seq<Seq<char>>,
    n: nat,
    d: DictView,
    st: Settings,
) -> LessonView
    decreases n,
{
    if n == 0 {
        LessonView {
            ngrams: text_ngrams(words, d, st.max_ngram as nat),
            rules: Seq::empty(),
            confusions: Seq::empty(),
            insertions: Seq::empty(),
            deletions: Seq::empty(),
            examples: Seq::empty(),
            oov: 0,
            matched: 0,
            skipped: 0,
        }
    } else {
        with_word(
            lesson_upto(raw, words, (n - 1) as nat, d, st),
            word_lesson(raw, words, n - 1, d, st),
        )
    }
}

/// What a text teaches.
pub open spec fn lesson_of(text: Seq<char>, d: DictView, st: Settings) -> LessonView {
    let raw = split_words(text);
    let words = merged_words(raw, d);
    lesson_upto(raw, words, words.len(), d, st)
}

/// Adds the errors of a list of differences.
fn add_rules(rules: &mut Vec<(String, String)>, diffs: &Vec<AlignDiff>)
    ensures
        rule_keys(final(rules)@) == rule_keys(old(rules)@) + rules_of(diff_views(diffs@)),
{
    let ghost start = rule_keys(rules@);
    let ghost all = rules_of(diff_views(diffs@));
    let mut i: usize = 0;
    assert(rule_keys(rules@) =~= start + all.take(0));
    while i < diffs.len()
        invariant
            i <= diffs.len(),
            all == rules_of(diff_views(diffs@)),
            rule_keys(rules@) == start + all.take(i as int),
        decreases diffs.len() - i,
    {
        let ghost done = rule_keys(rules@);
        rules.push((diffs[i].wrong_text.clone(), diffs[i].right_text.clone()));
        assert(rule_keys(rules@) =~= done.push(all[i as int]));
        assert(start + all.take(i + 1) =~= done.push(all[i as int]));
        i += 1;
    }
    assert(all.take(all.len() as int) =~= all);
}

/// Adds an example for a pair of characters.
fn push_example(list: &mut Vec<NewExample>, from: char, to: char, example: Example)
    ensures
        new_examples(final(list)@) == new_examples(old(list)@).push((from, to, example@)),
{
    list.push(NewExample { from, to, example });
    assert(new_examples(list@) =~= new_examples(old(list)@).push((from, to, example@)));
}

/// Adds what a word teaches for which the known word `right` stands.
fn add_match(out: &mut Lesson, ctx: &WordContext, right: &String, dist: usize, raw: &[String], i: usize)
    requires
        dist == edit_distance(ctx.clean@, right@),
        i < raw@.len(),
        old(out).oov < usize::MAX,
        old(out).matched < usize::MAX,
    ensures
        final(out)@ == with_word(
            old(out)@,
            matched_lesson(ctx@, right@, shown_around(texts(raw@), i as int)),
        ),
{
    let ghost start = out@;
    let chars = chars_of(ctx.clean.as_str());
    let right_chars = chars_of(right.as_str());
    let diffs = extract_diffs(chars.as_slice(), right_chars.as_slice());
    let ghost ds = diff_views(diffs@);
    assert(ds.len() == diffs@.len());
    out.oov += 1;
    out.matched += 1;
    add_rules(&mut out.rules, &diffs);
    if dist <= MAX_EVENT_DIST {
        let events = collect_char_confusions(chars.as_slice(), right_chars.as_slice());
        let mut subs = events.subs;
        let mut insertions = events.insertions;
        let mut deletions = events.deletions;
        out.confusions.append(&mut subs);
        out.insertions.append(&mut insertions);
        out.deletions.append(&mut deletions);
        if diffs.len() == 1 {
            assert(ds[0] == diffs@[0]@);
            let wrong_side = chars_of(diffs[0].wrong_text.as_str());
            let right_side = chars_of(diffs[0].right_text.as_str());
            if wrong_side.len() == 1 && right_side.len() == 1 {
                let from = wrong_side[0];
                let to = right_side[0];
                let example = Example {
                    original: ctx.original_case.clone(),
                    corrected: restore_case(ctx.original_case.as_str(), right.as_str()),
                    rule: rule_name_of(from, to),
                    reason: "Pass1".to_string(),
                    context: show_around(raw, i),
                    rank: LEARNED_RANK,
                };
                push_example(&mut out.examples, from, to, example);
            }
        }
        assert(out@ =~= with_word(
            start,
            matched_lesson(ctx@, right@, shown_around(texts(raw@), i as int)),
        ));
    } else {
        assert(out@ =~= with_word(
            start,
            matched_lesson(ctx@, right@, shown_around(texts(raw@), i as int)),
        ));
    }
}

/// What a text teaches: the n-grams of its known words, and the errors that turn the known
/// words that stand for its unknown ones into those.
pub fn pass1_process_text(text: &str, dict: &Dictionary, settings: Settings) -> (r: Lesson)
    ensures
        r@ == lesson_of(text@, dict@, settings),
{
    let raw = words_of(text);
    let ghost rw = texts(raw@);
    let (words, _merges) = merge_split_words(raw.as_slice(), dict);
    let ghost ws = texts(words@);
    proof {
        merging_adds_no_words(rw, dict@);
    }
    let ngrams = collect_text_ngrams(words.as_slice(), dict, settings.max_ngram);
    let mut out = Lesson {
        ngrams,
        rules: Vec::new(),
        confusions: Vec::new(),
        insertions: Vec::new(),
        deletions: Vec::new(),
        examples: Vec::new(),
        oov: 0,
        matched: 0,
        skipped: 0,
    };
    assert(out@ =~= lesson_upto(rw, ws, 0, dict@, settings));
    let contexts = build_word_contexts(words.as_slice());
    assert(context_views(contexts@).len() == contexts@.len());
    let mut i: usize = 0;
    while i < contexts.len()
        invariant
            i <= contexts.len(),
            rw == texts(raw@),
            ws == texts(words@),
            contexts@.len() == words@.len(),
            words@.len() <= raw@.len(),
            context_views(contexts@) == contexts_of(ws),
            out@ == lesson_upto(rw, ws, i as nat, dict@, settings),
            out.oov <= i,
            out.matched <= i,
            out.skipped <= i,
        decreases contexts.len() - i,
    {
        let ctx = &contexts[i];
        assert(context_views(contexts@)[i as int] == ctx@);
        assert(contexts_of(ws)[i as int] == context_at(ws, i as int));
        let ghost start = out@;
        let ghost w = word_lesson(rw, ws, i as int, dict@, settings);
        let known = dict.contains(ctx.clean.as_str());
        let short = chars_of(ctx.clean.as_str()).len() < settings.min_word_len;
        if !known && !short {
            let proper = is_proper_noun(ctx, words.as_slice(), i);
            let policy = settings.policy;
            if policy.only_proper_nouns && !proper {
                assert(w is Nothing);
            } else if !policy.fix_proper_nouns && !policy.only_proper_nouns && proper {
                assert(w is Skipped);
                out.skipped += 1;
            } else {
                let surname_ctx = looks_like_surname(ctx.clean.as_str()) || is_surname_in_context(
                    words.as_slice(),
                    i,
                );
                match dict.candidates_for(ctx.clean.as_str()) {
                    Some(list) => {
                        match find_nearest(
                            ctx.clean.as_str(),
                            list,
                            surname_ctx,
                            settings.max_edit_dist,
                        ) {
                            Some(m) => {
                                assert(texts(list@)[m.0 as int] == list@[m.0 as int]@);
                                add_match(&mut out, ctx, &list[m.0], m.1, raw.as_slice(), i);
                            },
                            None => {
                                assert(w is Unmatched);
                                out.oov += 1;
                            },
                        }
                    },
                    None => {
                        assert(w is Unmatched);
                        out.oov += 1;
                    },
                }
            }
        }
        assert(out@ =~= with_word(start, w));
        i += 1;
    }
    out
}

/// A book of examples with a list of examples added, from the first to the last.
pub open spec fn with_examples(
    book: Map<(char, char), Seq<ExampleView>>,
    es: Seq<(char, char, ExampleView)>,
) -> Map<(char, char), Seq<ExampleView>>
    decreases es.len(),
{
    if es.len() == 0 {
        book
    } else {
        let before = with_examples(book, es.drop_last());
        let pair = (es.last().0, es.last().1);
        before.insert(pair, with_example(examples_of(before, pair), es.last().2))
    }
}

/// Whether every table has room for what a lesson counts.
pub open spec fn has_room_for(s: StatsView, l: LessonView) -> bool {
    &&& has_room(s.ngrams, l.ngrams)
    &&& has_room(s.error_matrix, l.rules)
    &&& has_room(s.ocr_confusions, l.confusions)
    &&& has_room(s.ocr_insertions, l.insertions)
    &&& has_room(s.ocr_deletions, l.deletions)
}

/// The statistics with a lesson recorded. The three totals wrap around at the end of their
/// range.
pub open spec fn taught(s: StatsView, l: LessonView) -> StatsView {
    StatsView {
        ngrams: tallied(s.ngrams, l.ngrams),
        error_matrix: tallied(s.error_matrix, l.rules),
        ocr_confusions: tallied(s.ocr_confusions, l.confusions),
        ocr_insertions: tallied(s.ocr_insertions, l.insertions),
        ocr_deletions: tallied(s.ocr_deletions, l.deletions),
        examples_sub: with_examples(s.examples_sub, l.examples),
        total_oov: s.total_oov.wrapping_add(l.oov as usize),
        total_matched: s.total_matched.wrapping_add(l.matched as usize),
        skipped_proper_nouns: s.skipped_proper_nouns.wrapping_add(l.skipped as usize),
        ..s
    }
}

impl GlobalStats {
    /// Records what a text teaches. Returns `false` if some count would grow past
    /// `usize::MAX`; the statistics are then of no further use.
    pub fn record(&mut self, l: &Lesson) -> (r: bool)
        requires
            old(self).wf(),
        ensures
            final(self).wf(),
            r == has_room_for(old(self)@, l@),
            r ==> final(self)@ == taught(old(self)@, l@),
    {
        if !self.ngrams.count_all(l.ngrams.as_slice()) {
            return false;
        }
        if !self.error_matrix.count_all(l.rules.as_slice()) {
            return false;
        }
        if !self.ocr_confusions.count_all(l.confusions.as_slice()) {
            return false;
        }
        if !self.ocr_insertions.count_all(l.insertions.as_slice()) {
            return false;
        }
        if !self.ocr_deletions.count_all(l.deletions.as_slice()) {
            return false;
        }
        self.total_oov = self.total_oov.wrapping_add(l.oov);
        self.total_matched = self.total_matched.wrapping_add(l.matched);
        self.skipped_proper_nouns = self.skipped_proper_nouns.wrapping_add(l.skipped);
        add_examples(&mut self.examples_sub, l.examples.as_slice());
        true
    }

    /// Counts the records that were read; the number wraps around at the end of its range.
    pub fn count_processed(&mut self, n: usize)
        requires
            old(self).wf(),
        ensures
            final(self).wf(),
            final(self)@ == (StatsView {
                processed: old(self)@.processed.wrapping_add(n),
                ..old(self)@
            }),
    {
        self.processed = self.processed.wrapping_add(n);
    }

    /// Counts the words that variants and dictionary words won; the numbers wrap around at the
    /// end of their range.
    pub fn count_hits(&mut self, fast: usize, slow: usize)
        requires
            old(self).wf(),
        ensures
            final(self).wf(),
            final(self)@ == (StatsView {
                fast_path_hits: old(self)@.fast_path_hits.wrapping_add(fast),
                slow_path_hits: old(self)@.slow_path_hits.wrapping_add(slow),
                ..old(self)@
            }),
    {
        self.fast_path_hits = self.fast_path_hits.wrapping_add(fast);
        self.slow_path_hits = self.slow_path_hits.wrapping_add(slow);
    }
}

/// Adds a list of examples to a book, from the first to the last.
fn add_examples(book: &mut ExampleBook, list: &[NewExample])
    requires
        old(book).wf(),
    ensures
        final(book).wf(),
        final(book)@ == with_examples(old(book)@, new_examples(list@)),
{
    let ghost all = new_examples(list@);
    let ghost start = book@;
    let mut i: usize = 0;
    assert(all.take(0) =~= Seq::empty());
    while i < list.len()
        invariant
            i <= list.len(),
            book.wf(),
            start == old(book)@,
            all == new_examples(list@),
            book@ == with_examples(start, all.take(i as int)),
        decreases list.len() - i,
    {
        assert(all.take(i + 1).drop_last() =~= all.take(i as int));
        assert(all.take(i + 1).last() == (list@[i as int].from, list@[i as int].to, list@[i as int].example@));
        book.add(list[i].from, list[i].to, list[i].example.copy());
        i += 1;
    }
    assert(all.take(all.len() as int) =~= all);
}

/// The order in which two texts are learned from makes no difference to any count.
pub proof fn learning_order_is_free(s: StatsView, a: LessonView, b: LessonView)
    requires
        has_room_for(s, a),
        has_room_for(taught(s, a), b),
    ensures
        has_room_for(s, b),
        has_room_for(taught(s, b), a),
        taught(taught(s, a), b) == (StatsView {
            examples_sub: taught(taught(s, a), b).examples_sub,
            ..taught(taught(s, b), a)
        }),
{
    lemma_table_order_is_free(s.ngrams, a.ngrams, b.ngrams);
    lemma_table_order_is_free(s.error_matrix, a.rules, b.rules);
    lemma_table_order_is_free(s.ocr_confusions, a.confusions, b.confusions);
    lemma_table_order_is_free(s.ocr_insertions, a.insertions, b.insertions);
    lemma_table_order_is_free(s.ocr_deletions, a.deletions, b.deletions);
}

/// Learning from any two texts, on top of any statistics, goes through in one order exactly if
/// it goes through in the other, and then gives the same tables and totals.
pub proof fn texts_teach_in_any_order(
    s: StatsView,
    one: Seq<char>,
    two: Seq<char>,
    d: DictView,
    st: Settings,
)
    ensures
        ({
            let a = lesson_of(one, d, st);
            let b = lesson_of(two, d, st);
            let forth = taught(taught(s, a), b);
            let back = taught(taught(s, b), a);
            let goes_forth = has_room_for(s, a) && has_room_for(taught(s, a), b);
            let goes_back = has_room_for(s, b) && has_room_for(taught(s, b), a);
            &&& goes_forth == goes_back
            &&& goes_forth ==> forth == (StatsView { examples_sub: forth.examples_sub, ..back })
        }),
{
    let a = lesson_of(one, d, st);
    let b = lesson_of(two, d, st);
    if has_room_for(s, a) && has_room_for(taught(s, a), b) {
        learning_order_is_free(s, a, b);
    }
    if has_room_for(s, b) && has_room_for(taught(s, b), a) {
        learning_order_is_free(s, b, a);
    }
}

proof fn lemma_table_order_is_free<K>(m: Map<K, usize>, xs: Seq<K>, ys: Seq<K>)
    requires
        has_room(m, xs),
        has_room(tallied(m, xs), ys),
    ensures
        has_room(m, ys),
        has_room(tallied(m, ys), xs),
        tallied(tallied(m, xs), ys) == tallied(tallied(m, ys), xs),
{
    lemma_room_in_two_steps(m, xs, ys);
    tally_order_is_free(m, xs, ys);
    tally_in_two_steps(m, ys, xs);
}

proof fn lemma_lesson_totals(
    raw: Seq<Seq<char>>,
    words: Seq<Seq<char>>,
    n: nat,
    d: DictView,
    st: Settings,
)
    ensures
        lesson_upto(raw, words, n, d, st).matched <= lesson_upto(raw, words, n, d, st).oov,
        lesson_upto(raw, words, n, d, st).oov + lesson_upto(raw, words, n, d, st).skipped <= n,
        lesson_upto(raw, words, n, d, st).examples.len() <= lesson_upto(
            raw,
            words,
            n,
            d,
            st,
        ).matched,
    decreases n,
{
    if n > 0 {
        lemma_lesson_totals(raw, words, (n - 1) as nat, d, st);
    }
}

/// Of the words of a text each is counted at most once, as unknown or as left alone; a known
/// word was found for at most as many as are unknown, and at most so many give an example.
pub proof fn lesson_totals_are_bounded(text: Seq<char>, d: DictView, st: Settings)
    ensures
        lesson_of(text, d, st).matched <= lesson_of(text, d, st).oov,
        lesson_of(text, d, st).oov + lesson_of(text, d, st).skipped <= merged_words(
            split_words(text),
            d,
        ).len(),
        lesson_of(text, d, st).examples.len() <= lesson_of(text, d, st).matched,
{
    let raw = split_words(text);
    let words = merged_words(raw, d);
    lemma_lesson_totals(raw, words, words.len(), d, st);
}

/// Whether a list of pairs pairs no character with itself.
pub open spec fn no_self_pairs(ps: Seq<(char, char)>) -> bool {
    forall|i: int| 0 <= i < ps.len() ==> (#[trigger] ps[i]).0 != ps[i].1
}

/// Whether a table of pairs pairs no character with itself.
pub open spec fn no_self_confusions(m: Map<(char, char), usize>) -> bool {
    forall|p: (char, char)| #[trigger] m.contains_key(p) ==> p.0 != p.1
}

proof fn lemma_lesson_confusions_differ(
    raw: Seq<Seq<char>>,
    words: Seq<Seq<char>>,
    n: nat,
    d: DictView,
    st: Settings,
)
    ensures
        no_self_pairs(lesson_upto(raw, words, n, d, st).confusions),
    decreases n,
{
    if n > 0 {
        let before = lesson_upto(raw, words, (n - 1) as nat, d, st).confusions;
        lemma_lesson_confusions_differ(raw, words, (n - 1) as nat, d, st);
        let clean = context_at(words, n - 1).clean;
        let all = lesson_upto(raw, words, n, d, st).confusions;
        assert forall|i: int| 0 <= i < all.len() implies (#[trigger] all[i]).0 != all[i].1 by {
            if i < before.len() {
                assert(before[i].0 != before[i].1);
            } else {
                let right = stand_in(words, n - 1, d, st)->0;
                confused_characters_differ(clean, right, i - before.len());
            }
        }
    }
}

/// Learning never comes to confuse a character with itself.
pub proof fn learning_confuses_no_character_with_itself(
    s: StatsView,
    text: Seq<char>,
    d: DictView,
    st: Settings,
)
    requires
        no_self_confusions(s.ocr_confusions),
    ensures
        no_self_confusions(taught(s, lesson_of(text, d, st)).ocr_confusions),
{
    let raw = split_words(text);
    let words = merged_words(raw, d);
    lemma_lesson_confusions_differ(raw, words, words.len(), d, st);
    let ps = lesson_of(text, d, st).confusions;
    let after = taught(s, lesson_of(text, d, st)).ocr_confusions;
    assert forall|p: (char, char)| #[trigger] after.contains_key(p) implies p.0 != p.1 by {
        if ps.contains(p) {
            let i = choose|i: int| 0 <= i < ps.len() && ps[i] == p;
            assert(ps[i].0 != ps[i].1);
        }
    }
}

/// Whether two lessons together hold no more items of any kind than a machine word counts.
pub open spec fn countable_together(a: LessonView, b: LessonView) -> bool {
    &&& a.ngrams.len() + b.ngrams.len() <= usize::MAX
    &&& a.rules.len() + b.rules.len() <= usize::MAX
    &&& a.confusions.len() + b.confusions.len() <= usize::MAX
    &&& a.insertions.len() + b.insertions.len() <= usize::MAX
    &&& a.deletions.len() + b.deletions.len() <= usize::MAX
    &&& a.oov + a.skipped + b.oov + b.skipped <= usize::MAX
}

/// Two texts that are learned from in either order, from nothing, give the same tables and
/// totals: no more matched words than unknown ones, and no records or corrections counted.
pub proof fn two_texts_in_either_order(
    one: Seq<char>,
    two: Seq<char>,
    d: DictView,
    st: Settings,
)
    requires
        countable_together(lesson_of(one, d, st), lesson_of(two, d, st)),
    ensures
        ({
            let a = lesson_of(one, d, st);
            let b = lesson_of(two, d, st);
            let s = taught(taught(fresh_stats(), a), b);
            let t = taught(taught(fresh_stats(), b), a);
            &&& has_room_for(fresh_stats(), a) && has_room_for(taught(fresh_stats(), a), b)
            &&& has_room_for(fresh_stats(), b) && has_room_for(taught(fresh_stats(), b), a)
            &&& s == (StatsView { examples_sub: s.examples_sub, ..t })
            &&& s.total_matched <= s.total_oov
            &&& s.total_oov == a.oov + b.oov
            &&& s.total_matched == a.matched + b.matched
            &&& s.skipped_proper_nouns == a.skipped + b.skipped
            &&& s.processed == 0
            &&& s.fast_path_hits == 0
            &&& s.slow_path_hits == 0
        }),
{
    let a = lesson_of(one, d, st);
    let b = lesson_of(two, d, st);
    lesson_totals_are_bounded(one, d, st);
    lesson_totals_are_bounded(two, d, st);
    empty_table_has_room(a.ngrams, b.ngrams);
    empty_table_has_room(a.rules, b.rules);
    empty_table_has_room(a.confusions, b.confusions);
    empty_table_has_room(a.insertions, b.insertions);
    empty_table_has_room(a.deletions, b.deletions);
    learning_order_is_free(fresh_stats(), a, b);
}

} // verus!

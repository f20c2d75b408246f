//! Which corrections compete for a word, with what evidence, and which of them wins.

use crate::align::edit_distance;
use crate::candidates::{
    double_step, fast_candidates, hits_of, lookup_candidate, lookup_candidates, lookup_passes,
    nearest_double, shown_count, support_of, variant_candidate, variant_candidates, variant_passes,
    CandidateView, EvidenceView, KnowledgeView, PlaceView,
};
use crate::chars::{alphabetic, raised, uppercase, uppercased};
use crate::correct::{
    best_of, lemma_lookup_candidate_source, lemma_variant_candidate_source, may_win, options_of,
    puts, winner_has_the_greatest_rank,
};
use crate::dictionary::dict_of;
use crate::diffs::{diffs_between, diffs_patch_wrong_into_right, DiffView};
use crate::laws::dictionary::{listed_words_are_proposed, proposed_words_are_listed};
use crate::laws::edits::{
    errors_learned, learned_errors_explain, one_edit, one_edit_is_distance_one,
    one_edit_is_explained_if_learned, one_left_out, one_put_in,
};
use crate::laws::variants::{
    confused_characters_are_tried, confuses, marks_are_tried_as_letters, nothing_else_is_tried,
    reads_as,
};
use crate::laws::words::{
    has_surname_ending, letters_alone, share_all_but_three, surname_endings_are_not_traded,
};
use crate::learned::acceptable;
use crate::morphology::stem_of;
use crate::ngrams::{context_hits, hit_label, Surroundings};
use crate::text::decimal;
use crate::variants::{variants_of, VariantView};
use crate::words::recased;
use vstd::prelude::*;

verus! {

/// Whether putting `w` for a word trades one surname ending for another.
pub open spec fn trades_surnames(p: PlaceView, w: Seq<char>) -> bool {
    p.is_surname_ctx && has_surname_ending(p.clean) && has_surname_ending(w) && share_all_but_three(
        p.clean,
        w,
    )
}

/// Whether the learned errors allow `w` to be put for a word: every error between the two is
/// learned, the lengths differ by two at most, a word of five characters or more has two errors
/// at most, and no surname ending is traded.
pub open spec fn learning_allows(p: PlaceView, w: Seq<char>, k: KnowledgeView) -> bool {
    &&& errors_learned(p.clean, w, k.learned)
    &&& p.clean.len() <= w.len() + 2
    &&& w.len() <= p.clean.len() + 2
    &&& p.clean.len() >= 5 ==> edit_distance(p.clean, w) <= 2
    &&& !trades_surnames(p, w)
}

/// Whether no word that differs from the given one in one character is known.
pub open spec fn no_near_word_known(p: PlaceView, k: KnowledgeView) -> bool {
    forall|i: int, c: char|
        0 <= i < p.clean.len() ==> !k.dict.knows(#[trigger] p.clean.update(i, c))
}

proof fn lemma_allowed(p: PlaceView, w: Seq<char>, k: KnowledgeView)
    ensures
        acceptable(p.clean, w, p.is_surname_ctx, k.learned) <==> learning_allows(p, w, k),
{
    learned_errors_explain(p.clean, w, k.learned);
    surname_endings_are_not_traded(p.clean, w, p.is_surname_ctx);
}

proof fn lemma_lookup_contains(ws: Seq<Seq<char>>, p: PlaceView, k: KnowledgeView, w: Seq<char>)
    requires
        ws.contains(w),
        lookup_passes(w, p, k),
    ensures
        lookup_candidates(ws, p, k).contains(lookup_candidate(w, p, k)),
    decreases ws.len(),
{
    let out = lookup_candidates(ws, p, k);
    let rest = ws.drop_last();
    let before = lookup_candidates(rest, p, k);
    let i = choose|i: int| 0 <= i < ws.len() && ws[i] == w;
    if i == ws.len() - 1 {
        assert(out[out.len() - 1] == lookup_candidate(w, p, k));
    } else {
        assert(rest[i] == w);
        lemma_lookup_contains(rest, p, k, w);
        let j = choose|j: int| 0 <= j < before.len() && before[j] == lookup_candidate(w, p, k);
        assert(out[j] == before[j]);
    }
}

proof fn lemma_variant_contains(vs: Seq<VariantView>, p: PlaceView, k: KnowledgeView, v: VariantView)
    requires
        vs.contains(v),
        variant_passes(v, p, k),
    ensures
        variant_candidates(vs, p, k).contains(variant_candidate(v, p, k)),
    decreases vs.len(),
{
    let out = variant_candidates(vs, p, k);
    let rest = vs.drop_last();
    let before = variant_candidates(rest, p, k);
    let i = choose|i: int| 0 <= i < vs.len() && vs[i] == v;
    if i == vs.len() - 1 {
        assert(out[out.len() - 1] == variant_candidate(v, p, k));
    } else {
        assert(rest[i] == v);
        lemma_variant_contains(rest, p, k, v);
        let j = choose|j: int| 0 <= j < before.len() && before[j] == variant_candidate(v, p, k);
        assert(out[j] == before[j]);
    }
}

/// Whether a candidate puts a dictionary word for a word: with its distance, the differences
/// between the two, and the case of the original.
pub open spec fn looks_up(c: CandidateView, p: PlaceView, w: Seq<char>) -> bool {
    &&& puts(c, p, w)
    &&& c.diffs == diffs_between(p.clean, w)
    &&& c.evidence is Lookup
    &&& c.evidence->dist == edit_distance(p.clean, w)
}

/// Every word of the list that is near enough competes, if no word with one character replaced
/// does: five characters or more, the same first two letters, parted by no more edits than are
/// allowed, and allowed by what was learned. Missing letters and letters too many are no
/// obstacle.
pub proof fn near_words_are_offered(
    list: Seq<Seq<char>>,
    p: PlaceView,
    k: KnowledgeView,
    w: Seq<char>,
)
    requires
        k.dict == dict_of(list),
        fast_candidates(p, k).len() == 0,
        list.contains(w),
        w.len() >= 5,
        letters_alone(p.clean).len() >= 2,
        letters_alone(p.clean)[0] == w[0],
        letters_alone(p.clean)[1] == w[1],
        0 < edit_distance(p.clean, w) <= k.settings.max_edit_dist,
        learning_allows(p, w, k),
    ensures
        exists|i: int|
            0 <= i < options_of(p, k).len() && looks_up(#[trigger] options_of(p, k)[i], p, w),
{
    listed_words_are_proposed(list, p.clean, w);
    lemma_allowed(p, w, k);
    let ws = k.dict.candidates(p.clean)->0;
    lemma_lookup_contains(ws, p, k, w);
    let cs = options_of(p, k);
    let i = choose|i: int| 0 <= i < cs.len() && cs[i] == lookup_candidate(w, p, k);
    diffs_patch_wrong_into_right(p.clean, w);
    assert(looks_up(cs[i], p, w));
}

proof fn lemma_no_variant(p: PlaceView, k: KnowledgeView)
    requires
        no_near_word_known(p, k),
    ensures
        fast_candidates(p, k).len() == 0,
{
    if fast_candidates(p, k).len() > 0 {
        let vs = variants_of(p.clean, k.confusions);
        lemma_variant_candidate_source(vs, p, k, 0);
        let j = choose|j: int|
            0 <= j < vs.len() && variant_passes(#[trigger] vs[j], p, k) && variant_candidates(
                vs,
                p,
                k,
            )[0] == variant_candidate(vs[j], p, k);
        nothing_else_is_tried(p.clean, k.confusions, j);
        assert(!k.dict.knows(p.clean.update(vs[j].pos as int, vs[j].to)));
    }
}

/// A word with one letter too many is offered without it, if that letter is learned to be too
/// much.
pub proof fn a_letter_too_many_is_left_out(
    list: Seq<Seq<char>>,
    p: PlaceView,
    k: KnowledgeView,
    i: int,
)
    requires
        k.dict == dict_of(list),
        no_near_word_known(p, k),
        0 <= i < p.clean.len(),
        list.contains(p.clean.remove(i)),
        p.clean.len() >= 6,
        letters_alone(p.clean).len() >= 2,
        letters_alone(p.clean)[0] == p.clean.remove(i)[0],
        letters_alone(p.clean)[1] == p.clean.remove(i)[1],
        k.settings.max_edit_dist >= 1,
        k.learned.deletions.contains(p.clean[i]),
        !trades_surnames(p, p.clean.remove(i)),
    ensures
        exists|j: int|
            0 <= j < options_of(p, k).len() && looks_up(
                #[trigger] options_of(p, k)[j],
                p,
                p.clean.remove(i),
            ),
{
    let w = p.clean.remove(i);
    assert(one_left_out(p.clean, w, i));
    assert(one_edit(p.clean, w));
    one_edit_is_distance_one(p.clean, w);
    one_edit_is_explained_if_learned(p.clean, i, p.clean[i], k.learned);
    learned_errors_explain(p.clean, w, k.learned);
    lemma_no_variant(p, k);
    near_words_are_offered(list, p, k, w);
}

/// A word from which one letter is missing is offered with it, if that letter is learned to be
/// missed.
pub proof fn a_missing_letter_is_put_in(
    list: Seq<Seq<char>>,
    p: PlaceView,
    k: KnowledgeView,
    w: Seq<char>,
    i: int,
)
    requires
        k.dict == dict_of(list),
        no_near_word_known(p, k),
        0 <= i < w.len(),
        p.clean == w.remove(i),
        list.contains(w),
        w.len() >= 5,
        letters_alone(p.clean).len() >= 2,
        letters_alone(p.clean)[0] == w[0],
        letters_alone(p.clean)[1] == w[1],
        k.settings.max_edit_dist >= 1,
        k.learned.insertions.contains(w[i]),
        !trades_surnames(p, w),
    ensures
        exists|j: int|
            0 <= j < options_of(p, k).len() && looks_up(#[trigger] options_of(p, k)[j], p, w),
{
    assert(one_put_in(p.clean, w, i));
    assert(one_edit(p.clean, w));
    one_edit_is_distance_one(p.clean, w);
    one_edit_is_explained_if_learned(w, i, w[i], k.learned);
    learned_errors_explain(p.clean, w, k.learned);
    lemma_no_variant(p, k);
    near_words_are_offered(list, p, k, w);
}

/// Whether a variant of a word may compete: it is known, and what was learned allows it or it
/// turns a character that is no letter into a letter.
pub open spec fn replacement_may_compete(p: PlaceView, k: KnowledgeView, i: int, c: char) -> bool {
    let w = p.clean.update(i, c);
    &&& 0 <= i < p.clean.len()
    &&& k.dict.knows(w)
    &&& learning_allows(p, w, k) || (!alphabetic(p.clean[i]) && alphabetic(c))
}

/// Whether a candidate puts a word with one character replaced: with the count of that
/// confusion, or one if it was never counted.
pub open spec fn replaces(c: CandidateView, p: PlaceView, k: KnowledgeView, i: int, to: char) -> bool {
    let from = p.clean[i];
    &&& puts(c, p, p.clean.update(i, to))
    &&& c.diffs == diffs_between(p.clean, p.clean.update(i, to))
    &&& c.evidence == EvidenceView::Variant {
        confusion_freq: if k.ocr_confusions.contains_key((from, to)) {
            k.ocr_confusions[(from, to)] as nat
        } else {
            1
        },
        mark_to_letter: !alphabetic(from) && alphabetic(to),
    }
}

/// A digit or mark that is read as a letter competes with that letter in its place, if the word
/// is then known and the reading may compete.
pub proof fn known_readings_compete(p: PlaceView, k: KnowledgeView, i: int, letter: char)
    requires
        0 <= i < p.clean.len(),
        reads_as(p.clean[i], letter),
        replacement_may_compete(p, k, i, letter),
    ensures
        exists|j: int|
            0 <= j < options_of(p, k).len() && replaces(
                #[trigger] options_of(p, k)[j],
                p,
                k,
                i,
                letter,
            ),
{
    let w = p.clean.update(i, letter);
    let vs = variants_of(p.clean, k.confusions);
    let v = VariantView { text: w, from: p.clean[i], to: letter, pos: i as nat };
    marks_are_tried_as_letters(p.clean, k.confusions, i as nat, letter);
    lemma_allowed(p, w, k);
    lemma_variant_contains(vs, p, k, v);
    let cs = options_of(p, k);
    let fast = fast_candidates(p, k);
    let j = choose|j: int| 0 <= j < fast.len() && fast[j] == variant_candidate(v, p, k);
    diffs_patch_wrong_into_right(p.clean, w);
    assert(cs == fast);
    assert(replaces(cs[j], p, k, i, letter));
}

/// Among what competes is every known word that a counted confusion makes of an unknown word,
/// if what was learned allows it.
pub proof fn known_confusions_compete(p: PlaceView, k: KnowledgeView, i: int, c: char)
    requires
        0 <= i < p.clean.len(),
        confuses(k.confusions, p.clean[i], c),
        k.dict.knows(p.clean.update(i, c)),
        learning_allows(p, p.clean.update(i, c), k),
    ensures
        exists|j: int|
            0 <= j < options_of(p, k).len() && puts(
                #[trigger] options_of(p, k)[j],
                p,
                p.clean.update(i, c),
            ) && options_of(p, k)[j].evidence is Variant,
{
    let w = p.clean.update(i, c);
    let vs = variants_of(p.clean, k.confusions);
    confused_characters_are_tried(p.clean, k.confusions, i as nat, c);
    let x = choose|x: int| 0 <= x < vs.len() && (#[trigger] vs[x]).text == w;
    lemma_allowed(p, w, k);
    assert(vs.contains(vs[x]));
    lemma_variant_contains(vs, p, k, vs[x]);
    let cs = options_of(p, k);
    let fast = fast_candidates(p, k);
    let j = choose|j: int| 0 <= j < fast.len() && fast[j] == variant_candidate(vs[x], p, k);
    diffs_patch_wrong_into_right(p.clean, w);
    assert(cs == fast);
    assert(puts(cs[j], p, w));
}

/// Whether a candidate is a dictionary word that may compete.
pub open spec fn is_near_word(
    c: CandidateView,
    list: Seq<Seq<char>>,
    p: PlaceView,
    k: KnowledgeView,
    w: Seq<char>,
) -> bool {
    &&& looks_up(c, p, w)
    &&& list.contains(w)
    &&& w.len() >= 5
    &&& w[0] == letters_alone(p.clean)[0]
    &&& w[1] == letters_alone(p.clean)[1]
    &&& 0 < edit_distance(p.clean, w) <= k.settings.max_edit_dist
    &&& learning_allows(p, w, k)
}

/// Whether a candidate is a known word with one character replaced that may compete.
pub open spec fn is_known_replacement(
    c: CandidateView,
    p: PlaceView,
    k: KnowledgeView,
    i: int,
    to: char,
) -> bool {
    &&& replaces(c, p, k, i, to)
    &&& replacement_may_compete(p, k, i, to)
    &&& reads_as(p.clean[i], to) || confuses(k.confusions, p.clean[i], to)
}

/// Nothing else competes: either known words with one character replaced, or words of the list
/// that are near enough, and never both.
pub proof fn nothing_else_competes(
    list: Seq<Seq<char>>,
    p: PlaceView,
    k: KnowledgeView,
    j: int,
)
    requires
        k.dict == dict_of(list),
        0 <= j < options_of(p, k).len(),
    ensures
        ({
            let c = options_of(p, k)[j];
            &&& c.evidence is Variant ==> exists|i: int, to: char|
                is_known_replacement(c, p, k, i, to)
            &&& c.evidence is Lookup ==> no_replacement_competes(p, k) && exists|w: Seq<char>|
                is_near_word(c, list, p, k, w)
        }),
{
    let c = options_of(p, k)[j];
    if fast_candidates(p, k).len() > 0 {
        let vs = variants_of(p.clean, k.confusions);
        lemma_variant_candidate_source(vs, p, k, j);
        let x = choose|x: int|
            0 <= x < vs.len() && variant_passes(#[trigger] vs[x], p, k) && variant_candidates(
                vs,
                p,
                k,
            )[j] == variant_candidate(vs[x], p, k);
        nothing_else_is_tried(p.clean, k.confusions, x);
        diffs_patch_wrong_into_right(p.clean, vs[x].text);
        lemma_allowed(p, vs[x].text, k);
        assert(is_known_replacement(c, p, k, vs[x].pos as int, vs[x].to));
    } else {
        let ws = k.dict.candidates(p.clean)->0;
        lemma_lookup_candidate_source(ws, p, k, j);
        let x = choose|x: int|
            0 <= x < ws.len() && lookup_passes(#[trigger] ws[x], p, k) && lookup_candidates(
                ws,
                p,
                k,
            )[j] == lookup_candidate(ws[x], p, k);
        assert(ws.contains(ws[x]));
        proposed_words_are_listed(list, p.clean, ws[x]);
        diffs_patch_wrong_into_right(p.clean, ws[x]);
        lemma_allowed(p, ws[x], k);
        assert(is_near_word(c, list, p, k, ws[x]));
        assert forall|i: int, letter: char|
            0 <= i < p.clean.len() && #[trigger] reads_as(p.clean[i], letter) implies !replacement_may_compete(
            p,
            k,
            i,
            letter,
        ) by {
            if replacement_may_compete(p, k, i, letter) {
                known_readings_compete(p, k, i, letter);
                let cs = options_of(p, k);
                let y = choose|y: int|
                    0 <= y < cs.len() && replaces(#[trigger] cs[y], p, k, i, letter);
                lemma_lookup_candidate_source(ws, p, k, y);
            }
        }
    }
}

/// Whether no reading of a digit or mark may compete.
pub open spec fn no_replacement_competes(p: PlaceView, k: KnowledgeView) -> bool {
    forall|i: int, letter: char|
        0 <= i < p.clean.len() && #[trigger] reads_as(p.clean[i], letter)
            ==> !replacement_may_compete(p, k, i, letter)
}

/// How often the error that a difference shows was counted.
pub open spec fn counted(d: DiffView, k: KnowledgeView) -> nat {
    if k.error_matrix.contains_key((d.wrong_text, d.right_text)) {
        k.error_matrix[(d.wrong_text, d.right_text)] as nat
    } else {
        0
    }
}

/// Whether the error that a difference shows supports a correction.
pub open spec fn is_supported(d: DiffView, k: KnowledgeView) -> bool {
    k.error_matrix.contains_key((d.wrong_text, d.right_text)) && counted(d, k)
        >= k.settings.min_rule_freq
}

/// The count of an error and the number of characters on its longer side.
pub open spec fn weight(d: DiffView, k: KnowledgeView) -> (nat, nat) {
    (
        counted(d, k),
        vstd::math::max(d.wrong_text.len() as int, d.right_text.len() as int) as nat,
    )
}

/// A dictionary word is supported by the errors between it and the wrong word that were counted
/// often enough, in order, each with its count and the length of its longer side; the others are
/// counted against it.
pub proof fn counted_errors_support(ds: Seq<DiffView>, k: KnowledgeView)
    requires
        forall|i: int|
            0 <= i < ds.len() ==> (#[trigger] ds[i]).wrong_text.len() <= usize::MAX
                && ds[i].right_text.len() <= usize::MAX,
    ensures
        ({
            let kept = ds.filter(|d: DiffView| is_supported(d, k));
            let s = support_of(ds, k);
            &&& s.len() == kept.len()
            &&& forall|i: int|
                0 <= i < s.len() ==> (#[trigger] s[i].0 as nat, s[i].1 as nat) == weight(kept[i], k)
        }),
    decreases ds.len(),
{
    reveal(Seq::filter);
    if ds.len() > 0 {
        assert forall|i: int| 0 <= i < ds.drop_last().len() implies (
        #[trigger] ds.drop_last()[i]).wrong_text.len() <= usize::MAX
            && ds.drop_last()[i].right_text.len() <= usize::MAX by {
            assert(ds[i].wrong_text.len() <= usize::MAX);
        }
        counted_errors_support(ds.drop_last(), k);
        let rest = ds.drop_last().filter(|d: DiffView| is_supported(d, k));
        let before = support_of(ds.drop_last(), k);
        let s = support_of(ds, k);
        let kept = ds.filter(|d: DiffView| is_supported(d, k));
        assert(ds[ds.len() - 1] == ds.last());
        assert forall|i: int| 0 <= i < s.len() implies (#[trigger] s[i].0 as nat, s[i].1 as nat)
            == weight(kept[i], k) by {
            if i < before.len() {
                assert(s[i] == before[i]);
                assert((before[i].0 as nat, before[i].1 as nat) == weight(rest[i], k));
            }
        }
    }
}

/// What a dictionary word competes with: the support of the errors that it corrects, how many
/// of them have none, and a reason that tells its distance.
pub proof fn dictionary_words_show_their_evidence(w: Seq<char>, p: PlaceView, k: KnowledgeView)
    ensures
        ({
            let c = lookup_candidate(w, p, k);
            let ds = diffs_between(p.clean, w);
            &&& c.evidence matches EvidenceView::Lookup { support, unsupported, dist } && support
                == support_of(ds, k) && support.len() + unsupported == ds.len() && dist
                == edit_distance(p.clean, w)
            &&& c.hits == hits_of(w, p, k)
            &&& c.hits.len() == 0 ==> c.reason == "n-gram dist="@ + decimal(
                edit_distance(p.clean, w),
            )
        }),
{
    lemma_support_len(diffs_between(p.clean, w), k);
}

proof fn lemma_support_len(ds: Seq<DiffView>, k: KnowledgeView)
    ensures
        support_of(ds, k).len() <= ds.len(),
    decreases ds.len(),
{
    if ds.len() > 0 {
        lemma_support_len(ds.drop_last(), k);
    }
}

/// A candidate with one character replaced may always win. A dictionary word may win only with a
/// rank above zero and with support: an error that was counted often enough, or a run of stems
/// that was counted.
pub proof fn support_lets_a_word_win(c: CandidateView, rank: i64)
    ensures
        may_win(c, rank) <==> (c.evidence is Variant || (rank > 0 && (c.evidence->support.len() > 0
            || exists|i: int| 0 <= i < c.hits.len() && (#[trigger] c.hits[i]).freq > 0))),
{
}

/// The winner is the first candidate of the greatest rank among those that may win.
pub proof fn the_best_candidate_wins(cs: Seq<CandidateView>, ranks: Seq<i64>, b: int)
    requires
        cs.len() == ranks.len(),
        0 <= b < cs.len(),
        may_win(cs[b], ranks[b]),
        forall|i: int|
            0 <= i < b && #[trigger] may_win(cs[i], ranks[i]) ==> ranks[i] < ranks[b],
        forall|i: int|
            b < i < cs.len() && #[trigger] may_win(cs[i], ranks[i]) ==> ranks[i] <= ranks[b],
    ensures
        best_of(cs, ranks, cs.len()) == Some(b),
{
    winner_has_the_greatest_rank(cs, ranks, cs.len());
    let w = best_of(cs, ranks, cs.len())->0;
    if best_of(cs, ranks, cs.len()) is None {
        assert(!may_win(cs[b], ranks[b]));
    } else if w < b {
        assert(may_win(cs[w], ranks[w]));
    } else if b < w {
        assert(may_win(cs[b], ranks[b]));
    }
}

/// A corrected word takes its case from the original, position by position: where the original
/// has a capital, its character is raised, and every other stays as it is.
pub proof fn case_is_taken_from_the_original(original: Seq<char>, corrected: Seq<char>, i: int)
    requires
        0 <= i < corrected.len(),
    ensures
        recased(original, corrected).len() == corrected.len(),
        i >= original.len() || !uppercase(original[i]) ==> recased(original, corrected)[i]
            == corrected[i],
        0 < i < original.len() && uppercase(original[i]) ==> recased(original, corrected)[i]
            == raised(corrected[i]),
        i == 0 && original.len() > 0 && uppercase(original[0]) ==> recased(original, corrected)[0]
            == raised(raised(corrected[0])),
{
}

/// A count is shown as it is below two to the power of fifty-three.
pub proof fn counts_are_shown_as_they_are(n: nat)
    requires
        n < 9007199254740992,
        n <= usize::MAX,
    ensures
        shown_count(n) == n,
{
    assert(double_step(n) == 1);
    assert(n / 1 == n);
    assert(n % 1 == 0);
}

/// A word with one character replaced gives as its reason the two characters, the place counted
/// from one, and the count; and behind it the longest run of stems that it completes, if there
/// is one.
pub proof fn replacements_give_their_reason(v: VariantView, p: PlaceView, k: KnowledgeView)
    ensures
        ({
            let c = variant_candidate(v, p, k);
            let n = if k.ocr_confusions.contains_key((v.from, v.to)) {
                k.ocr_confusions[(v.from, v.to)] as nat
            } else {
                1
            };
            let own = "OCR «"@ + seq![v.from] + "»→«"@ + seq![v.to] + "» поз."@ + decimal(v.pos + 1)
                + " freq="@ + decimal(shown_count(n));
            &&& c.hits == hits_of(v.text, p, k)
            &&& c.hits.len() == 0 ==> c.reason == own
            &&& c.hits.len() > 0 ==> c.reason == own + " + "@ + hit_label(c.hits[0])
        }),
{
}

/// The runs of stems that a word completes are looked up around its place, under its stem, up to
/// the greatest length, and count only if they were counted often enough.
pub proof fn runs_are_looked_up_around_the_place(w: Seq<char>, p: PlaceView, k: KnowledgeView)
    ensures
        hits_of(w, p, k) == context_hits(
            stem_of(w),
            (Surroundings {
                before: p.before,
                after: p.after,
                ngrams: k.ngrams,
                min_freq: k.settings.min_ngram_freq as nat,
            }),
            k.settings.max_ngram as nat,
        ),
{
}

/// The distance between neighbouring double-precision numbers is one up to two to the power of
/// fifty-three, and from there on such that a number is at least two to the power of fifty-two
/// steps and less than twice as many.
pub proof fn double_steps_keep_their_precision(n: nat)
    ensures
        double_step(n) >= 1,
        n < double_step(n) * 9007199254740992,
        n < 9007199254740992 ==> double_step(n) == 1,
        n >= 9007199254740992 ==> double_step(n) * 4503599627370496 <= n,
    decreases n,
{
    if n >= 9007199254740992 {
        double_steps_keep_their_precision(n / 2);
        let s = double_step(n / 2);
        assert(double_step(n) == 2 * s);
        assert(n < (2 * s) * 9007199254740992) by (nonlinear_arith)
            requires
                n / 2 < s * 9007199254740992,
        ;
        if n / 2 >= 9007199254740992 {
            assert((2 * s) * 4503599627370496 <= n) by (nonlinear_arith)
                requires
                    s * 4503599627370496 <= n / 2,
            ;
        }
    }
}

/// A count is shown as the nearest double-precision number, and of two that are equally near the
/// one that is an even number of steps; never as more than a machine word holds.
pub proof fn counts_are_shown_to_the_nearest_double(n: nat)
    ensures
        ({
            let step = double_step(n);
            let d = nearest_double(n);
            &&& d as int % step as int == 0
            &&& 2 * (d - n) <= step
            &&& 2 * (n - d) <= step
            &&& 2 * (d - n) == step || 2 * (n - d) == step ==> (d as int / step as int) % 2 == 0
            &&& shown_count(n) == (if d <= usize::MAX {
                d
            } else {
                usize::MAX as nat
            })
        }),
{
    double_steps_keep_their_precision(n);
    let step = double_step(n);
    let low = n / step;
    let rest = n % step;
    let up = if 2 * rest > step || (2 * rest == step && low % 2 == 1) {
        low + 1
    } else {
        low
    };
    let d = nearest_double(n);
    assert(d == up * step);
    assert(n == low * step + rest && 0 <= rest < step) by (nonlinear_arith)
        requires
            step >= 1,
            low == n / step,
            rest == n % step,
    ;
    assert((low + 1) * step == low * step + step) by (nonlinear_arith);
    assert(d as int % step as int == 0 && d as int / step as int == up) by (nonlinear_arith)
        requires
            d == up * step,
            step >= 1,
    ;
}

/// Raising a character gives the first character of its uppercase mapping, and of a small Russian
/// letter its capital.
pub proof fn small_letters_are_raised_to_capitals(c: char)
    ensures
        uppercased(c).len() > 0 ==> raised(c) == uppercased(c)[0],
        uppercased(c).len() == 0 ==> raised(c) == c,
        'а' <= c <= 'я' ==> raised(c) as int == c as int - 32,
        c == 'ё' ==> raised(c) == 'Ё',
        c == 'і' ==> raised(c) == 'І',
        c == 'ѣ' ==> raised(c) == 'Ѣ',
        c == 'ѳ' ==> raised(c) == 'Ѳ',
        c == 'ѵ' ==> raised(c) == 'Ѵ',
{
    reveal(uppercased);
}

} // verus!

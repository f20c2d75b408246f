//! What becomes of a text: which words stand around a word, what is put in its place, and what is
//! reported.

use crate::candidates::KnowledgeView;
use crate::chars::lowered;
use crate::correct::{
    all_changes, best_of, change_of, corrected_text, decided_changes, decided_words,
    lemma_decided_lengths, lemma_planned_are_examined, place_at, plan_of, planned_upto,
    plans_are_well_formed, shown_around, variant_wins, winner_at, PlanView,
};
use crate::laws::ngrams::letter_stem;
use crate::laws::words::{
    before_initial, contexts_tell_of_the_neighbours, has_surname_ending, is_initial,
    letters_are_the_alphabetic_characters, surnames_go_by_their_ending, word_chars_alone,
};
use crate::merge::{merge_changes, merged_words, CorrectionView};
use crate::text::{spaced, split_words};
use crate::words::{punct_after, punct_before};
use vstd::prelude::*;

verus! {

/// The stems of a word's neighbours are those of up to six words before it and up to six behind
/// it; it is taken for a surname if it ends like one or stands beside an initial.
pub proof fn six_words_on_each_side_are_neighbours(words: Seq<Seq<char>>, i: int, x: int)
    requires
        0 <= i < words.len(),
    ensures
        ({
            let p = place_at(words, i);
            &&& p.clean == lowered(word_chars_alone(words[i]))
            &&& p.original_case == word_chars_alone(words[i])
            &&& p.is_surname_ctx <==> has_surname_ending(p.clean) || before_initial(words, i) || (i
                > 0 && is_initial(words[i - 1]))
            &&& p.before.len() == (if i < 6 {
                i
            } else {
                6
            })
            &&& p.after.len() == (if words.len() - i - 1 < 6 {
                words.len() - i - 1
            } else {
                6
            })
            &&& 0 <= x < p.before.len() ==> p.before[x] == letter_stem(
                words[i - p.before.len() + x],
            )
            &&& 0 <= x < p.after.len() ==> p.after[x] == letter_stem(words[i + 1 + x])
        }),
{
    let p = place_at(words, i);
    contexts_tell_of_the_neighbours(words, i);
    surnames_go_by_their_ending(p.clean);
    if 0 <= x < p.before.len() {
        letters_are_the_alphabetic_characters(words[i - p.before.len() + x]);
    }
    if 0 <= x < p.after.len() {
        letters_are_the_alphabetic_characters(words[i + 1 + x]);
    }
}

/// A word is shown with up to three words before it and up to three behind it.
pub proof fn three_words_on_each_side_are_shown(
    before: Seq<Seq<char>>,
    w: Seq<char>,
    after: Seq<Seq<char>>,
)
    ensures
        ({
            let words = before + seq![w] + after;
            let front = if before.len() <= 3 {
                before
            } else {
                before.skip(before.len() - 3)
            };
            let back = if after.len() <= 3 {
                after
            } else {
                after.take(3)
            };
            shown_around(words, before.len() as int) == spaced(front + seq![w] + back)
        }),
{
    let words = before + seq![w] + after;
    let i = before.len() as int;
    let front = if before.len() <= 3 {
        before
    } else {
        before.skip(before.len() - 3)
    };
    let back = if after.len() <= 3 {
        after
    } else {
        after.take(3)
    };
    assert(words.subrange(i - front.len(), i + 1 + back.len()) =~= front + seq![w] + back);
}

proof fn lemma_planned_ascend(words: Seq<Seq<char>>, n: nat, k: KnowledgeView, a: int, b: int)
    requires
        0 <= a < b < planned_upto(words, n, k).len(),
    ensures
        planned_upto(words, n, k)[a].index < planned_upto(words, n, k)[b].index,
    decreases n,
{
    if n > 0 {
        let before = planned_upto(words, (n - 1) as nat, k);
        if b < before.len() {
            lemma_planned_ascend(words, (n - 1) as nat, k, a, b);
        } else {
            lemma_planned_are_examined(words, (n - 1) as nat, k, a);
        }
    }
}

/// The examined words of a text come in its order, each once, with the place, what stands
/// around it and what it is shown with.
pub proof fn examined_words_come_in_order(text: Seq<char>, k: KnowledgeView, a: int, b: int)
    requires
        0 <= a < plan_of(text, k).planned.len(),
    ensures
        ({
            let plan = plan_of(text, k);
            let p = plan.planned[a];
            let w = plan.words[p.index as int];
            &&& plan.words == merged_words(split_words(text), k.dict)
            &&& plan.merges == merge_changes(split_words(text), k.dict)
            &&& p.index < plan.words.len()
            &&& a < b < plan.planned.len() ==> p.index < plan.planned[b].index
            &&& p.original == word_chars_alone(w)
            &&& p.prefix_punct == punct_before(w)
            &&& p.suffix_punct == punct_after(w)
            &&& p.context == shown_around(plan.words, p.index as int)
            &&& p.options == crate::correct::options_of(place_at(plan.words, p.index as int), k)
        }),
{
    let plan = plan_of(text, k);
    lemma_planned_are_examined(plan.words, plan.words.len(), k, a);
    let i = plan.planned[a].index as int;
    contexts_tell_of_the_neighbours(plan.words, i);
    if a < b < plan.planned.len() {
        lemma_planned_ascend(plan.words, plan.words.len(), k, a, b);
    }
}

/// Whether each examined word has a place of its own.
pub open spec fn places_differ(plan: PlanView) -> bool {
    forall|a: int, b: int|
        0 <= a < b < plan.planned.len() ==> (#[trigger] plan.planned[a]).index != (
        #[trigger] plan.planned[b]).index
}

proof fn lemma_decided(plan: PlanView, ranks: Seq<Seq<i64>>, n: nat, j: int)
    requires
        plan.wf(),
        places_differ(plan),
        0 <= j < n <= plan.planned.len(),
    ensures
        ({
            let p = plan.planned[j];
            decided_words(plan, ranks, n)[p.index as int] == match winner_at(plan, ranks, j) {
                Some(b) => p.prefix_punct + p.options[b].corrected + p.suffix_punct,
                None => plan.words[p.index as int],
            }
        }),
    decreases n,
{
    lemma_decided_lengths(plan, ranks, (n - 1) as nat);
    assert(plan.planned[n - 1].index < plan.words.len());
    assert(plan.planned[j].index < plan.words.len());
    if j < n - 1 {
        lemma_decided(plan, ranks, (n - 1) as nat, j);
        assert(plan.planned[j].index != plan.planned[n - 1].index);
    } else {
        assert forall|x: int| 0 <= x < n - 1 implies (#[trigger] plan.planned[x]).index
            != plan.planned[j].index by {}
        crate::correct::lemma_undecided_stays(
            plan,
            ranks,
            (n - 1) as nat,
            plan.planned[j].index as int,
        );
    }
}

/// An examined word for which a candidate wins is replaced by that candidate, between what stood
/// before and after the word; one without a winner stays. The words are then joined by single
/// spaces.
pub proof fn winners_are_put_in_their_places(
    text: Seq<char>,
    k: KnowledgeView,
    ranks: Seq<Seq<i64>>,
    j: int,
)
    requires
        0 <= j < plan_of(text, k).planned.len(),
    ensures
        ({
            let plan = plan_of(text, k);
            let out = decided_words(plan, ranks, plan.planned.len());
            let p = plan.planned[j];
            let w = plan.words[p.index as int];
            &&& corrected_text(plan, ranks) == spaced(out)
            &&& out.len() == plan.words.len()
            &&& out[p.index as int] == match winner_at(plan, ranks, j) {
                Some(b) => punct_before(w) + p.options[b].corrected + punct_after(w),
                None => w,
            }
        }),
{
    let plan = plan_of(text, k);
    plans_are_well_formed(text, k);
    assert forall|a: int, b: int| 0 <= a < b < plan.planned.len() implies (
    #[trigger] plan.planned[a]).index != (#[trigger] plan.planned[b]).index by {
        examined_words_come_in_order(text, k, a, b);
    }
    examined_words_come_in_order(text, k, j, j);
    lemma_decided_lengths(plan, ranks, plan.planned.len());
    lemma_decided(plan, ranks, plan.planned.len(), j);
}

/// The changes that winners make, one for each examined word that has one.
pub open spec fn changes_of_winners(plan: PlanView, ranks: Seq<Seq<i64>>) -> Seq<Seq<CorrectionView>> {
    Seq::new(
        plan.planned.len(),
        |j: int|
            match winner_at(plan, ranks, j) {
                Some(b) => seq![change_of(
                    plan.planned[j],
                    plan.planned[j].options[b],
                    ranks[j][b],
                )],
                None => Seq::empty(),
            },
    )
}

proof fn lemma_changes(plan: PlanView, ranks: Seq<Seq<i64>>, n: nat)
    requires
        n <= plan.planned.len(),
    ensures
        decided_changes(plan, ranks, n) == changes_of_winners(plan, ranks).take(
            n as int,
        ).flatten(),
    decreases n,
{
    let all = changes_of_winners(plan, ranks);
    all.take(n as int).lemma_flatten_and_flatten_alt_are_equivalent();
    if n > 0 {
        lemma_changes(plan, ranks, (n - 1) as nat);
        all.take(n - 1).lemma_flatten_and_flatten_alt_are_equivalent();
        assert(all.take(n as int).drop_last() =~= all.take(n - 1));
        assert(decided_changes(plan, ranks, n) =~= all.take(n as int).flatten());
    }
}

/// The joins are reported first, and then one change for each examined word that a candidate
/// wins, in the order of the text: the word as it was, what it became, the differences, the
/// place, the rank and the reason.
pub proof fn every_winner_is_reported(plan: PlanView, ranks: Seq<Seq<i64>>, j: int)
    requires
        0 <= j < plan.planned.len(),
    ensures
        all_changes(plan, ranks) == plan.merges + changes_of_winners(plan, ranks).flatten(),
        winner_at(plan, ranks, j) is Some ==> {
            let p = plan.planned[j];
            let b = winner_at(plan, ranks, j)->0;
            let c = changes_of_winners(plan, ranks)[j];
            &&& c.len() == 1
            &&& c[0].original == p.original
            &&& c[0].corrected == p.options[b].corrected
            &&& c[0].diffs == p.options[b].diffs
            &&& c[0].context == p.context
            &&& c[0].rank == ranks[j][b]
            &&& c[0].reason == p.options[b].reason
            &&& !c[0].is_merge
        },
        winner_at(plan, ranks, j) is None ==> changes_of_winners(plan, ranks)[j].len() == 0,
{
    let all = changes_of_winners(plan, ranks);
    lemma_changes(plan, ranks, plan.planned.len());
    assert(all.take(all.len() as int) =~= all);
}

/// Whether the winner for the examined word `j` is a word with one character replaced.
pub open spec fn replacement_wins(plan: PlanView, ranks: Seq<Seq<i64>>, j: int) -> bool {
    winner_at(plan, ranks, j) matches Some(b) && plan.planned[j].options[b].evidence is Variant
}

/// The words that a word with one character replaced wins are counted, and each examined word is
/// decided by its own candidates and ranks.
pub proof fn wins_are_counted(plan: PlanView, ranks: Seq<Seq<i64>>, n: nat)
    ensures
        variant_wins(plan, ranks, 0) == 0,
        variant_wins(plan, ranks, n + 1) == variant_wins(plan, ranks, n) + (if replacement_wins(
            plan,
            ranks,
            n as int,
        ) {
            1nat
        } else {
            0nat
        }),
        winner_at(plan, ranks, n as int) == best_of(
            plan.planned[n as int].options,
            ranks[n as int],
            plan.planned[n as int].options.len(),
        ),
{
}

} // verus!

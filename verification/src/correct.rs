//! Correcting a text: which words are examined, which candidate wins, and what becomes
//! of the text.

use crate::candidates::{
    candidate_views, fast_candidates, lookup_candidate, lookup_candidates, lookup_corrections,
    lookup_passes, mark_to_letter, slow_candidates, support_of, variant_candidate,
    variant_candidates, variant_corrections, variant_passes, Candidate, CandidateView, Evidence,
    EvidenceView, Knowledge, KnowledgeView, Place, PlaceView,
};
use crate::chars::lowered;
use crate::counts::lists_table;
use crate::dictionary::{candidates_are_words, dict_of, DictView};
use crate::diffs::{clone_diffs, diffs_between, diffs_patch_wrong_into_right, patched, DiffView};
use crate::merge::{
    correction_views, is_fragment, joining_keeps_the_order, known_word_survives_joining,
    known_words_are_not_merged, merge_changes, merge_split_words, merged_words,
    merging_adds_no_words, place_after_joining, Correction, CorrectionView,
};
use crate::morphology::{
    ending_differs, looks_like_surname, normalize_for_ngram, stem_of, surname_like,
};
use crate::ngrams::{hit_views, HitView, NgramHit};
use crate::order::by_count;
use crate::records::Record;
use crate::text::{
    chars_of, clone_range, join_spaced, letters, letters_of, lower_chars, spaced, split_words,
    text_of, texts, words_of,
};
use crate::variants::{
    at_least, bootstrap_pairs, digits_and_marks_make_variants, frequent_lists_name_the_same_pairs,
    other_variants_do_not_depend_on_order, others, same_pairs, variant_at, variants_of, VariantView,
};
use crate::words::{
    beside_initials, build_word_contexts, context_at, context_views, contexts_of, inner_chars,
    is_surname_in_context, policy_admits, proper_noun, recased, word_is_correctable, WordContext,
};
use vstd::prelude::*;

verus! {

/// The corrections that compete for a word: those with one character replaced if there are
/// any, else those that the dictionary offers.
pub open spec fn options_of(p: PlaceView, k: KnowledgeView) -> Seq<CandidateView> {
    let fast = fast_candidates(p, k);
    if fast.len() > 0 {
        fast
    } else {
        slow_candidates(p, k)
    }
}

/// The corrections that compete for a word.
pub fn correction_options(p: &Place, k: &Knowledge) -> (r: Vec<Candidate>)
    ensures
        candidate_views(r@) == options_of(p@, k@),
{
    let fast = variant_corrections(p, k);
    assert(candidate_views(fast@).len() == fast.len());
    if fast.len() > 0 {
        fast
    } else {
        lookup_corrections(p, k)
    }
}

/// Whether a run of stems among the hits was counted at all.
pub open spec fn completes_counted_run(hits: Seq<HitView>) -> bool {
    exists|i: int| 0 <= i < hits.len() && (#[trigger] hits[i]).freq > 0
}

/// Whether a candidate may win with the rank given. A variant always may. A dictionary word
/// needs a counted error or a counted run of stems, and a positive score.
pub open spec fn may_win(c: CandidateView, rank: i64) -> bool {
    match c.evidence {
        EvidenceView::Variant { .. } => true,
        EvidenceView::Lookup { support, .. } => (support.len() > 0 || completes_counted_run(c.hits))
            && rank > 0,
    }
}

/// The winner among the first `n` candidates: the first of the greatest rank that may win.
pub open spec fn best_of(cs: Seq<CandidateView>, ranks: Seq<i64>, n: nat) -> Option<int>
    decreases n,
{
    if n == 0 {
        None
    } else {
        let before = best_of(cs, ranks, (n - 1) as nat);
        if may_win(cs[n - 1], ranks[n - 1]) && (before is None || ranks[n - 1] > ranks[before->0]) {
            Some(n - 1)
        } else {
            before
        }
    }
}

/// The winner has the greatest rank of all candidates that may win, and every candidate
/// before it has a lower one; there is no winner only if no candidate may win.
pub proof fn winner_has_the_greatest_rank(cs: Seq<CandidateView>, ranks: Seq<i64>, n: nat)
    requires
        n <= cs.len(),
        n <= ranks.len(),
    ensures
        match best_of(cs, ranks, n) {
            Some(b) => {
                &&& 0 <= b < n
                &&& may_win(cs[b], ranks[b])
                &&& forall|i: int|
                    0 <= i < n && #[trigger] may_win(cs[i], ranks[i]) ==> ranks[i] <= ranks[b]
                &&& forall|i: int|
                    0 <= i < b && #[trigger] may_win(cs[i], ranks[i]) ==> ranks[i] < ranks[b]
            },
            None => forall|i: int| 0 <= i < n ==> !#[trigger] may_win(cs[i], ranks[i]),
        },
    decreases n,
{
    if n > 0 {
        winner_has_the_greatest_rank(cs, ranks, (n - 1) as nat);
    }
}

/// Whether a run of stems among the hits was counted at all.
fn has_counted_run(hits: &Vec<NgramHit>) -> (r: bool)
    ensures
        r == completes_counted_run(hit_views(hits@)),
{
    let ghost all = hit_views(hits@);
    let mut i: usize = 0;
    while i < hits.len()
        invariant
            i <= hits.len(),
            all == hit_views(hits@),
            forall|x: int| 0 <= x < i ==> (#[trigger] all[x]).freq == 0,
        decreases hits.len() - i,
    {
        assert(all[i as int] == hits@[i as int]@);
        if hits[i].freq > 0 {
            return true;
        }
        i += 1;
    }
    false
}

/// Whether a candidate may win with the rank given.
fn can_win(c: &Candidate, rank: i64) -> (r: bool)
    ensures
        r == may_win(c@, rank),
{
    match &c.evidence {
        Evidence::Variant { .. } => true,
        Evidence::Lookup { support, .. } => (support.len() > 0 || has_counted_run(&c.hits)) && rank
            > 0,
    }
}

/// The winner among the candidates, each with its rank: the first of the greatest rank that
/// may win.
pub fn find_best_correction(options: &[Candidate], ranks: &[i64]) -> (r: Option<usize>)
    requires
        options@.len() == ranks@.len(),
    ensures
        r is Some == best_of(candidate_views(options@), ranks@, options@.len()) is Some,
        r is Some ==> r->0 == best_of(candidate_views(options@), ranks@, options@.len())->0 && r->0
            < options@.len(),
{
    let ghost cs = candidate_views(options@);
    let mut best: Option<usize> = None;
    let mut i: usize = 0;
    while i < options.len()
        invariant
            i <= options.len(),
            options@.len() == ranks@.len(),
            cs == candidate_views(options@),
            best is Some == best_of(cs, ranks@, i as nat) is Some,
            best is Some ==> best->0 == best_of(cs, ranks@, i as nat)->0 && best->0 < i,
        decreases options.len() - i,
    {
        assert(cs[i as int] == options@[i as int]@);
        if can_win(&options[i], ranks[i]) {
            let better = match best {
                Some(b) => ranks[i] > ranks[b],
                None => true,
            };
            if better {
                best = Some(i);
            }
        }
        i += 1;
    }
    best
}

/// How many stems on each side of a word count as its neighbours.
pub const NEIGHBOURS: usize = 6;

/// How many words on each side of a word are shown with it.
pub const SHOWN_WORDS: usize = 3;

/// The position `n` places before `i`, or the first one.
pub open spec fn back(i: int, n: nat) -> int {
    if i >= n {
        i - n
    } else {
        0
    }
}

/// The position `n` places after `i`, or the end.
pub open spec fn ahead(i: int, n: nat, len: nat) -> int {
    if i + n <= len {
        i + n
    } else {
        len as int
    }
}

/// The position `n` places before `i`, or the first one.
pub fn step_back(i: usize, n: usize) -> (r: usize)
    ensures
        r == back(i as int, n as nat),
{
    if i >= n {
        i - n
    } else {
        0
    }
}

/// The position `n` places after `i`, or the end.
pub fn step_ahead(i: usize, n: usize, len: usize) -> (r: usize)
    requires
        i <= len,
    ensures
        r == ahead(i as int, n as nat, len as nat),
{
    if n <= len - i {
        i + n
    } else {
        len
    }
}

/// A word with up to three words on each side of it.
pub open spec fn shown_around(words: Seq<Seq<char>>, i: int) -> Seq<char> {
    spaced(
        words.subrange(
            back(i, SHOWN_WORDS as nat),
            ahead(i, (SHOWN_WORDS + 1) as nat, words.len()),
        ),
    )
}

/// Renders a word with up to three words on each side of it.
pub fn show_around(words: &[String], i: usize) -> (r: String)
    requires
        i < words@.len(),
    ensures
        r@ == shown_around(texts(words@), i as int),
{
    let from: usize = step_back(i, SHOWN_WORDS);
    let to: usize = step_ahead(i, SHOWN_WORDS + 1, words.len());
    let part = clone_range(words, from, to);
    join_spaced(part.as_slice())
}

/// The stem of a word of the text.
pub open spec fn word_stem(w: Seq<char>) -> Seq<char> {
    stem_of(lowered(letters(w)))
}

/// The stems of the words of a text.
pub open spec fn word_stems(words: Seq<Seq<char>>) -> Seq<Seq<char>> {
    Seq::new(words.len(), |i: int| word_stem(words[i]))
}

/// The letters of a word in lower case.
pub fn lower_letters(w: &str) -> (r: String)
    ensures
        r@ == lowered(letters(w@)),
{
    let only = letters_of(chars_of(w).as_slice());
    text_of(lower_chars(only.as_slice()).as_slice())
}

/// The stems of the words of a text.
pub fn stems_of_words(words: &[String]) -> (r: Vec<String>)
    ensures
        texts(r@) == word_stems(texts(words@)),
{
    let ghost ws = texts(words@);
    let mut out: Vec<String> = Vec::new();
    let mut i: usize = 0;
    while i < words.len()
        invariant
            i <= words.len(),
            ws == texts(words@),
            texts(out@) == word_stems(ws).take(i as int),
        decreases words.len() - i,
    {
        let ghost done = texts(out@);
        let clean = lower_letters(words[i].as_str());
        out.push(normalize_for_ngram(clean.as_str()));
        assert(texts(out@) =~= done.push(word_stem(ws[i as int])));
        assert(word_stems(ws).take(i + 1) =~= done.push(word_stem(ws[i as int])));
        i += 1;
    }
    assert(word_stems(ws).take(ws.len() as int) =~= word_stems(ws));
    out
}

/// Whether the word at position `i` is examined: it is long enough, unknown, and the policy
/// admits it.
pub open spec fn examined(words: Seq<Seq<char>>, i: int, k: KnowledgeView) -> bool {
    let ctx = context_at(words, i);
    &&& ctx.clean.len() >= k.settings.min_word_len
    &&& !k.dict.knows(ctx.clean)
    &&& policy_admits(k.settings.policy, proper_noun(ctx))
}

/// The word at position `i` with what stands around it.
pub open spec fn place_at(words: Seq<Seq<char>>, i: int) -> PlaceView {
    let ctx = context_at(words, i);
    let stems = word_stems(words);
    PlaceView {
        clean: ctx.clean,
        original_case: ctx.original_case,
        is_surname_ctx: surname_like(ctx.clean) || beside_initials(words, i),
        before: stems.subrange(back(i, NEIGHBOURS as nat), i),
        after: stems.subrange(i + 1, ahead(i, (NEIGHBOURS + 1) as nat, words.len())),
    }
}

/// An examined word with the corrections that compete for it.
#[derive(Debug)]
pub struct PlannedWord {
    pub index: usize,
    pub original: String,
    pub prefix_punct: String,
    pub suffix_punct: String,
    pub context: String,
    pub options: Vec<Candidate>,
}

/// The mathematical content of a `PlannedWord`.
#[verifier::ext_equal]
pub struct PlannedView {
    pub index: nat,
    pub original: Seq<char>,
    pub prefix_punct: Seq<char>,
    pub suffix_punct: Seq<char>,
    pub context: Seq<char>,
    pub options: Seq<CandidateView>,
}

impl View for PlannedWord {
    type V = PlannedView;

    open spec fn view(&self) -> PlannedView {
        PlannedView {
            index: self.index as nat,
            original: self.original@,
            prefix_punct: self.prefix_punct@,
            suffix_punct: self.suffix_punct@,
            context: self.context@,
            options: candidate_views(self.options@),
        }
    }
}

/// The contents of a list of examined words.
pub open spec fn planned_views(ps: Seq<PlannedWord>) -> Seq<PlannedView> {
    Seq::new(ps.len(), |i: int| ps[i]@)
}

/// The word at position `i` with the corrections that compete for it.
pub open spec fn planned_at(words: Seq<Seq<char>>, i: int, k: KnowledgeView) -> PlannedView {
    let ctx = context_at(words, i);
    PlannedView {
        index: i as nat,
        original: ctx.original_case,
        prefix_punct: ctx.prefix_punct,
        suffix_punct: ctx.suffix_punct,
        context: shown_around(words, i),
        options: options_of(place_at(words, i), k),
    }
}

/// The examined words among the first `n`.
pub open spec fn planned_upto(words: Seq<Seq<char>>, n: nat, k: KnowledgeView) -> Seq<PlannedView>
    decreases n,
{
    if n == 0 {
        Seq::empty()
    } else {
        let before = planned_upto(words, (n - 1) as nat, k);
        if examined(words, n - 1, k) {
            before.push(planned_at(words, n - 1, k))
        } else {
            before
        }
    }
}

/// What is to be decided about a text.
#[derive(Debug)]
pub struct Plan {
    /// The words of the text, torn ones joined.
    pub words: Vec<String>,
    /// The joins that were made.
    pub merges: Vec<Correction>,
    /// The examined words.
    pub planned: Vec<PlannedWord>,
}

/// The mathematical content of a `Plan`.
#[verifier::ext_equal]
pub struct PlanView {
    pub words: Seq<Seq<char>>,
    pub merges: Seq<CorrectionView>,
    pub planned: Seq<PlannedView>,
}

impl View for Plan {
    type V = PlanView;

    open spec fn view(&self) -> PlanView {
        PlanView {
            words: texts(self.words@),
            merges: correction_views(self.merges@),
            planned: planned_views(self.planned@),
        }
    }
}

impl PlanView {
    /// Whether every examined word is a word of the text.
    pub open spec fn wf(self) -> bool {
        forall|j: int| 0 <= j < self.planned.len() ==> (#[trigger] self.planned[j]).index
            < self.words.len()
    }
}

/// The plan for a text.
pub open spec fn plan_of(text: Seq<char>, k: KnowledgeView) -> PlanView {
    let raw = split_words(text);
    let words = merged_words(raw, k.dict);
    PlanView {
        words,
        merges: merge_changes(raw, k.dict),
        planned: planned_upto(words, words.len(), k),
    }
}

proof fn lemma_planned_in_range(words: Seq<Seq<char>>, n: nat, k: KnowledgeView)
    ensures
        forall|j: int|
            0 <= j < planned_upto(words, n, k).len() ==> (#[trigger] planned_upto(
                words,
                n,
                k,
            )[j]).index < n,
    decreases n,
{
    if n > 0 {
        lemma_planned_in_range(words, (n - 1) as nat, k);
        let before = planned_upto(words, (n - 1) as nat, k);
        assert forall|j: int| 0 <= j < planned_upto(words, n, k).len() implies (
        #[trigger] planned_upto(words, n, k)[j]).index < n by {
            if j < before.len() {
                assert(before[j].index < n);
            }
        }
    }
}

/// Examines the word at position `i`.
fn plan_word(words: &[String], stems: &[String], ctx: &WordContext, i: usize, k: &Knowledge) -> (r:
    PlannedWord)
    requires
        i < words@.len(),
        ctx@ == context_at(texts(words@), i as int),
        texts(stems@) == word_stems(texts(words@)),
    ensures
        r@ == planned_at(texts(words@), i as int, k@),
{
    let ghost ws = texts(words@);
    assert(stems@.len() == texts(stems@).len());
    assert(words@.len() == words.len());
    let is_surname_ctx = looks_like_surname(ctx.clean.as_str()) || is_surname_in_context(words, i);
    let prev_stems = clone_range(stems, step_back(i, NEIGHBOURS), i);
    let next_stems = clone_range(stems, i + 1, step_ahead(i, NEIGHBOURS + 1, words.len()));
    let place = Place {
        clean: ctx.clean.as_str(),
        original_case: ctx.original_case.as_str(),
        is_surname_ctx,
        prev_stems: prev_stems.as_slice(),
        next_stems: next_stems.as_slice(),
    };
    assert(place@ =~= place_at(ws, i as int));
    let options = correction_options(&place, k);
    PlannedWord {
        index: i,
        original: ctx.original_case.clone(),
        prefix_punct: ctx.prefix_punct.clone(),
        suffix_punct: ctx.suffix_punct.clone(),
        context: show_around(words, i),
        options,
    }
}

/// Splits a text, joins torn words, and finds the corrections that compete for each
/// examined word.
pub fn plan_corrections(text: &str, k: &Knowledge) -> (r: Plan)
    ensures
        r@ == plan_of(text@, k@),
        r@.wf(),
{
    let raw = words_of(text);
    let (words, merges) = merge_split_words(raw.as_slice(), k.dict);
    let ghost ws = texts(words@);
    let contexts = build_word_contexts(words.as_slice());
    let stems = stems_of_words(words.as_slice());
    let mut planned: Vec<PlannedWord> = Vec::new();
    let mut i: usize = 0;
    assert(context_views(contexts@).len() == contexts@.len());
    assert(planned_views(planned@) =~= planned_upto(ws, 0, k@));
    while i < contexts.len()
        invariant
            i <= contexts.len(),
            ws == texts(words@),
            contexts@.len() == words@.len(),
            context_views(contexts@) == contexts_of(ws),
            texts(stems@) == word_stems(ws),
            planned_views(planned@) == planned_upto(ws, i as nat, k@),
        decreases contexts.len() - i,
    {
        let ctx = &contexts[i];
        assert(context_views(contexts@)[i as int] == ctx@);
        assert(contexts_of(ws)[i as int] == context_at(ws, i as int));
        let long_enough = chars_of(ctx.clean.as_str()).len() >= k.settings.min_word_len;
        if long_enough && word_is_correctable(ctx, words.as_slice(), i, k.dict, k.settings.policy) {
            let ghost done = planned_views(planned@);
            planned.push(plan_word(words.as_slice(), stems.as_slice(), ctx, i, k));
            assert(planned_views(planned@) =~= done.push(planned_at(ws, i as int, k@)));
        }
        i += 1;
    }
    proof {
        lemma_planned_in_range(ws, ws.len(), k@);
    }
    Plan { words, merges, planned }
}

/// The winner for the examined word `j`, if there is one.
pub open spec fn winner_at(plan: PlanView, ranks: Seq<Seq<i64>>, j: int) -> Option<int> {
    best_of(plan.planned[j].options, ranks[j], plan.planned[j].options.len())
}

/// The words of the text with the first `n` examined words decided.
pub open spec fn decided_words(plan: PlanView, ranks: Seq<Seq<i64>>, n: nat) -> Seq<Seq<char>>
    decreases n,
{
    if n == 0 {
        plan.words
    } else {
        let before = decided_words(plan, ranks, (n - 1) as nat);
        let p = plan.planned[n - 1];
        match winner_at(plan, ranks, n - 1) {
            Some(b) => before.update(
                p.index as int,
                p.prefix_punct + p.options[b].corrected + p.suffix_punct,
            ),
            None => before,
        }
    }
}

/// The change that a winner makes.
pub open spec fn change_of(p: PlannedView, c: CandidateView, rank: i64) -> CorrectionView {
    CorrectionView {
        original: p.original,
        corrected: c.corrected,
        diffs: c.diffs,
        context: p.context,
        rank,
        reason: c.reason,
        is_merge: false,
    }
}

/// The changes that the first `n` examined words get.
pub open spec fn decided_changes(plan: PlanView, ranks: Seq<Seq<i64>>, n: nat) -> Seq<CorrectionView>
    decreases n,
{
    if n == 0 {
        Seq::empty()
    } else {
        let before = decided_changes(plan, ranks, (n - 1) as nat);
        match winner_at(plan, ranks, n - 1) {
            Some(b) => before.push(
                change_of(plan.planned[n - 1], plan.planned[n - 1].options[b], ranks[n - 1][b]),
            ),
            None => before,
        }
    }
}

/// How many of the first `n` examined words a variant wins.
pub open spec fn variant_wins(plan: PlanView, ranks: Seq<Seq<i64>>, n: nat) -> nat
    decreases n,
{
    if n == 0 {
        0
    } else {
        let before = variant_wins(plan, ranks, (n - 1) as nat);
        match winner_at(plan, ranks, n - 1) {
            Some(b) if plan.planned[n - 1].options[b].evidence is Variant => before + 1,
            _ => before,
        }
    }
}

/// A list of ranks for each examined word.
pub open spec fn rank_lists(ranks: Seq<Vec<i64>>) -> Seq<Seq<i64>> {
    Seq::new(ranks.len(), |j: int| ranks[j]@)
}

/// Whether there is one rank for each candidate of each examined word.
pub open spec fn ranks_fit(plan: PlanView, ranks: Seq<Seq<i64>>) -> bool {
    &&& ranks.len() == plan.planned.len()
    &&& forall|j: int|
        0 <= j < ranks.len() ==> (#[trigger] ranks[j]).len() == plan.planned[j].options.len()
}

/// The text with every examined word decided.
pub open spec fn corrected_text(plan: PlanView, ranks: Seq<Seq<i64>>) -> Seq<char> {
    spaced(decided_words(plan, ranks, plan.planned.len()))
}

/// All changes to the text: first the joins, then the corrected words.
pub open spec fn all_changes(plan: PlanView, ranks: Seq<Seq<i64>>) -> Seq<CorrectionView> {
    plan.merges + decided_changes(plan, ranks, plan.planned.len())
}

/// What correcting a record did.
#[derive(Debug)]
pub struct Corrected {
    pub corrections: Vec<Correction>,
    /// How many words a variant won.
    pub fast_hits: usize,
    /// How many words a dictionary word won.
    pub slow_hits: usize,
}

pub proof fn lemma_decided_lengths(plan: PlanView, ranks: Seq<Seq<i64>>, n: nat)
    requires
        plan.wf(),
        n <= plan.planned.len(),
    ensures
        decided_words(plan, ranks, n).len() == plan.words.len(),
        decided_changes(plan, ranks, n).len() <= n,
        variant_wins(plan, ranks, n) <= decided_changes(plan, ranks, n).len(),
    decreases n,
{
    if n > 0 {
        lemma_decided_lengths(plan, ranks, (n - 1) as nat);
    }
}

/// Decides every examined word by the ranks of its candidates and writes the corrected text
/// into the record.
pub fn pass2_correct_record(rec: &mut Record, plan: Plan, ranks: &[Vec<i64>]) -> (r: Corrected)
    requires
        plan@.wf(),
        ranks_fit(plan@, rank_lists(ranks@)),
    ensures
        final(rec).text@ == corrected_text(plan@, rank_lists(ranks@)),
        final(rec).title == old(rec).title,
        final(rec).date == old(rec).date,
        correction_views(r.corrections@) == all_changes(plan@, rank_lists(ranks@)),
        r.fast_hits == variant_wins(plan@, rank_lists(ranks@), plan@.planned.len()),
        r.fast_hits + r.slow_hits == decided_changes(
            plan@,
            rank_lists(ranks@),
            plan@.planned.len(),
        ).len(),
{
    let ghost pv = plan@;
    let ghost rs = rank_lists(ranks@);
    let mut words = plan.words;
    let mut corrections = plan.merges;
    let planned = plan.planned;
    let ghost merges = correction_views(corrections@);
    let mut fast_hits: usize = 0;
    let mut slow_hits: usize = 0;
    let mut j: usize = 0;
    assert(pv.planned.len() == planned.len());
    assert(rs.len() == ranks.len());
    assert(correction_views(corrections@) =~= merges + decided_changes(pv, rs, 0));
    while j < planned.len()
        invariant
            j <= planned.len(),
            pv.wf(),
            ranks_fit(pv, rs),
            rs == rank_lists(ranks@),
            pv.planned == planned_views(planned@),
            ranks@.len() == planned@.len(),
            merges == pv.merges,
            texts(words@) == decided_words(pv, rs, j as nat),
            words@.len() == pv.words.len(),
            correction_views(corrections@) == merges + decided_changes(pv, rs, j as nat),
            fast_hits <= j,
            slow_hits <= j,
            fast_hits == variant_wins(pv, rs, j as nat),
            fast_hits + slow_hits == decided_changes(pv, rs, j as nat).len(),
        decreases planned.len() - j,
    {
        let p = &planned[j];
        assert(pv.planned[j as int] == p@);
        assert(rs[j as int] == ranks@[j as int]@);
        assert(candidate_views(p.options@).len() == p.options@.len());
        let best = find_best_correction(p.options.as_slice(), ranks[j].as_slice());
        let ghost done = correction_views(corrections@);
        let ghost sofar = texts(words@);
        if let Some(b) = best {
            let c = &p.options[b];
            assert(candidate_views(p.options@)[b as int] == c@);
            let mut token = p.prefix_punct.clone();
            token.append(c.corrected.as_str());
            token.append(p.suffix_punct.as_str());
            let change = Correction {
                original: p.original.clone(),
                corrected: c.corrected.clone(),
                diffs: clone_diffs(c.diffs.as_slice()),
                context: p.context.clone(),
                rank: ranks[j][b],
                reason: c.reason.clone(),
                is_merge: false,
            };
            let ghost view = change_of(p@, c@, rs[j as int][b as int]);
            assert(change@ =~= view);
            corrections.push(change);
            assert(correction_views(corrections@) =~= done.push(view));
            assert(correction_views(corrections@) =~= merges + decided_changes(
                pv,
                rs,
                (j + 1) as nat,
            ));
            let ghost tv = token@;
            words.set(p.index, token);
            assert(texts(words@) =~= sofar.update(p.index as int, tv));
            match &c.evidence {
                Evidence::Variant { .. } => {
                    fast_hits += 1;
                },
                Evidence::Lookup { .. } => {
                    slow_hits += 1;
                },
            }
        }
        j += 1;
    }
    rec.text = join_spaced(words.as_slice());
    Corrected { corrections, fast_hits, slow_hits }
}

pub proof fn lemma_undecided_stays(plan: PlanView, ranks: Seq<Seq<i64>>, n: nat, i: int)
    requires
        plan.wf(),
        n <= plan.planned.len(),
        0 <= i < plan.words.len(),
        forall|j: int| 0 <= j < n ==> (#[trigger] plan.planned[j]).index != i,
    ensures
        decided_words(plan, ranks, n)[i] == plan.words[i],
    decreases n,
{
    if n > 0 {
        lemma_undecided_stays(plan, ranks, (n - 1) as nat, i);
        lemma_decided_lengths(plan, ranks, (n - 1) as nat);
        assert(plan.planned[n - 1].index != i);
    }
}

pub proof fn lemma_planned_are_examined(words: Seq<Seq<char>>, n: nat, k: KnowledgeView, j: int)
    requires
        0 <= j < planned_upto(words, n, k).len(),
    ensures
        ({
            let p = planned_upto(words, n, k)[j];
            p.index < n && examined(words, p.index as int, k) && p == planned_at(
                words,
                p.index as int,
                k,
            )
        }),
    decreases n,
{
    if n > 0 {
        let before = planned_upto(words, (n - 1) as nat, k);
        if j < before.len() {
            lemma_planned_are_examined(words, (n - 1) as nat, k, j);
        }
    }
}

/// The plan for a text examines only words of the text.
pub proof fn plans_are_well_formed(text: Seq<char>, k: KnowledgeView)
    ensures
        plan_of(text, k).wf(),
{
    let words = plan_of(text, k).words;
    lemma_planned_in_range(words, words.len(), k);
}

/// A word that is not examined is left as it is: a known word, one that is too short, and
/// one that the policy protects.
pub proof fn unexamined_words_stay(text: Seq<char>, k: KnowledgeView, ranks: Seq<Seq<i64>>, i: int)
    requires
        0 <= i < plan_of(text, k).words.len(),
        ({
            let ctx = context_at(plan_of(text, k).words, i);
            k.dict.knows(ctx.clean) || ctx.clean.len() < k.settings.min_word_len || !policy_admits(
                k.settings.policy,
                proper_noun(ctx),
            )
        }),
    ensures
        decided_words(plan_of(text, k), ranks, plan_of(text, k).planned.len())[i] == plan_of(
            text,
            k,
        ).words[i],
{
    let plan = plan_of(text, k);
    plans_are_well_formed(text, k);
    assert forall|j: int| 0 <= j < plan.planned.len() implies (#[trigger] plan.planned[j]).index
        != i by {
        lemma_planned_are_examined(plan.words, plan.words.len(), k, j);
    }
    lemma_undecided_stays(plan, ranks, plan.planned.len(), i);
}

/// Unless it is told to correct proper nouns, a run leaves every word alone that is taken
/// for one.
pub proof fn proper_nouns_are_protected(
    text: Seq<char>,
    k: KnowledgeView,
    ranks: Seq<Seq<i64>>,
    i: int,
)
    requires
        0 <= i < plan_of(text, k).words.len(),
        !k.settings.policy.fix_proper_nouns,
        !k.settings.policy.only_proper_nouns,
        proper_noun(context_at(plan_of(text, k).words, i)),
    ensures
        decided_words(plan_of(text, k), ranks, plan_of(text, k).planned.len())[i] == plan_of(
            text,
            k,
        ).words[i],
{
    unexamined_words_stay(text, k, ranks, i);
}

/// Whether a word of a text is known, and so are its letters alone, if it has letters.
pub open spec fn is_known_word(w: Seq<char>, d: DictView) -> bool {
    d.knows(lowered(inner_chars(w))) && !is_fragment(w, d)
}

/// A word that the dictionary has is not touched: it is not joined with its neighbours, and it
/// is not corrected. It stands in the result at the place that joining gives it.
pub proof fn known_words_are_not_touched(
    text: Seq<char>,
    k: KnowledgeView,
    ranks: Seq<Seq<i64>>,
    j: int,
)
    requires
        0 <= j < split_words(text).len(),
        is_known_word(split_words(text)[j], k.dict),
    ensures
        ({
            let out = decided_words(plan_of(text, k), ranks, plan_of(text, k).planned.len());
            let i = place_after_joining(split_words(text), j, k.dict);
            0 <= i < out.len() && out[i] == split_words(text)[j]
        }),
{
    let raw = split_words(text);
    let plan = plan_of(text, k);
    known_word_survives_joining(raw, j, k.dict);
    let i = place_after_joining(raw, j, k.dict);
    unexamined_words_stay(text, k, ranks, i);
    plans_are_well_formed(text, k);
    lemma_decided_lengths(plan, ranks, plan.planned.len());
}

/// Known words keep their order: of two of them the first stands before the second in the
/// result, each untouched.
pub proof fn known_words_keep_their_order(
    text: Seq<char>,
    k: KnowledgeView,
    ranks: Seq<Seq<i64>>,
    i: int,
    j: int,
)
    requires
        0 <= i < j < split_words(text).len(),
        is_known_word(split_words(text)[i], k.dict),
        is_known_word(split_words(text)[j], k.dict),
    ensures
        ({
            let raw = split_words(text);
            let out = decided_words(plan_of(text, k), ranks, plan_of(text, k).planned.len());
            let a = place_after_joining(raw, i, k.dict);
            let b = place_after_joining(raw, j, k.dict);
            0 <= a < b < out.len() && out[a] == raw[i] && out[b] == raw[j]
        }),
{
    known_words_are_not_touched(text, k, ranks, i);
    known_words_are_not_touched(text, k, ranks, j);
    joining_keeps_the_order(split_words(text), i, j, k.dict);
}

proof fn lemma_nothing_planned(words: Seq<Seq<char>>, n: nat, k: KnowledgeView)
    requires
        forall|i: int| 0 <= i < n ==> !examined(words, i, k),
    ensures
        planned_upto(words, n, k) == Seq::<PlannedView>::empty(),
    decreases n,
{
    if n > 0 {
        lemma_nothing_planned(words, (n - 1) as nat, k);
        assert(!examined(words, n - 1, k));
    }
}

/// A text in which every word is known is not changed, except that the space between its
/// words becomes one space.
pub proof fn known_text_is_only_respaced(text: Seq<char>, k: KnowledgeView, ranks: Seq<Seq<i64>>)
    requires
        forall|j: int|
            0 <= j < split_words(text).len() ==> is_known_word(
                #[trigger] split_words(text)[j],
                k.dict,
            ),
    ensures
        corrected_text(plan_of(text, k), ranks) == spaced(split_words(text)),
        all_changes(plan_of(text, k), ranks) == Seq::<CorrectionView>::empty(),
{
    let raw = split_words(text);
    assert forall|j: int| 0 <= j < raw.len() implies !is_fragment(#[trigger] raw[j], k.dict) by {
        assert(is_known_word(raw[j], k.dict));
    }
    known_words_are_not_merged(raw, k.dict);
    assert forall|i: int| 0 <= i < raw.len() implies !examined(raw, i, k) by {
        assert(is_known_word(raw[i], k.dict));
    }
    lemma_nothing_planned(raw, raw.len(), k);
    assert(all_changes(plan_of(text, k), ranks) =~= Seq::<CorrectionView>::empty());
}

/// Correcting never makes a text longer in words, and after the joins it keeps their number.
pub proof fn correcting_keeps_the_word_count(text: Seq<char>, k: KnowledgeView, ranks: Seq<Seq<i64>>)
    ensures
        decided_words(plan_of(text, k), ranks, plan_of(text, k).planned.len()).len() == merged_words(
            split_words(text),
            k.dict,
        ).len(),
        merged_words(split_words(text), k.dict).len() <= split_words(text).len(),
{
    plans_are_well_formed(text, k);
    lemma_decided_lengths(plan_of(text, k), ranks, plan_of(text, k).planned.len());
    merging_adds_no_words(split_words(text), k.dict);
}

/// Whether a candidate puts the word `w` in place of a word: in the case of the original, and
/// with the differences that turn one into the other.
pub open spec fn puts(c: CandidateView, p: PlaceView, w: Seq<char>) -> bool {
    c.corrected == recased(p.original_case, w) && patched(p.clean, c.diffs) == w
}

pub proof fn lemma_variant_candidate_source(
    vs: Seq<VariantView>,
    p: PlaceView,
    k: KnowledgeView,
    i: int,
)
    requires
        0 <= i < variant_candidates(vs, p, k).len(),
    ensures
        exists|j: int|
            0 <= j < vs.len() && variant_passes(#[trigger] vs[j], p, k) && variant_candidates(
                vs,
                p,
                k,
            )[i] == variant_candidate(vs[j], p, k),
    decreases vs.len(),
{
    if vs.len() > 0 {
        let rest = vs.drop_last();
        let before = variant_candidates(rest, p, k);
        if i < before.len() {
            lemma_variant_candidate_source(rest, p, k, i);
            let j = choose|j: int|
                0 <= j < rest.len() && variant_passes(#[trigger] rest[j], p, k) && before[i]
                    == variant_candidate(rest[j], p, k);
            assert(vs[j] == rest[j]);
        } else {
            assert(variant_passes(vs[vs.len() - 1], p, k));
        }
    }
}

pub proof fn lemma_lookup_candidate_source(ws: Seq<Seq<char>>, p: PlaceView, k: KnowledgeView, i: int)
    requires
        0 <= i < lookup_candidates(ws, p, k).len(),
    ensures
        exists|j: int|
            0 <= j < ws.len() && lookup_passes(#[trigger] ws[j], p, k) && lookup_candidates(
                ws,
                p,
                k,
            )[i] == lookup_candidate(ws[j], p, k),
    decreases ws.len(),
{
    if ws.len() > 0 {
        let rest = ws.drop_last();
        let before = lookup_candidates(rest, p, k);
        if i < before.len() {
            lemma_lookup_candidate_source(rest, p, k, i);
            let j = choose|j: int|
                0 <= j < rest.len() && lookup_passes(#[trigger] rest[j], p, k) && before[i]
                    == lookup_candidate(rest[j], p, k);
            assert(ws[j] == rest[j]);
        } else {
            assert(lookup_passes(ws[ws.len() - 1], p, k));
        }
    }
}

/// Every correction that competes for a word puts a dictionary word in its place.
pub proof fn corrections_are_dictionary_words(
    list: Seq<Seq<char>>,
    p: PlaceView,
    k: KnowledgeView,
    i: int,
)
    requires
        k.dict == dict_of(list),
        0 <= i < options_of(p, k).len(),
    ensures
        exists|w: Seq<char>|
            (k.dict.words.contains(w) || k.dict.knows(w)) && #[trigger] puts(
                options_of(p, k)[i],
                p,
                w,
            ),
{
    if fast_candidates(p, k).len() > 0 {
        let vs = variants_of(p.clean, k.confusions);
        lemma_variant_candidate_source(vs, p, k, i);
        let j = choose|j: int|
            0 <= j < vs.len() && variant_passes(#[trigger] vs[j], p, k) && variant_candidates(
                vs,
                p,
                k,
            )[i] == variant_candidate(vs[j], p, k);
        diffs_patch_wrong_into_right(p.clean, vs[j].text);
        assert(puts(options_of(p, k)[i], p, vs[j].text));
    } else {
        let ws = k.dict.candidates(p.clean)->0;
        lemma_lookup_candidate_source(ws, p, k, i);
        let j = choose|j: int|
            0 <= j < ws.len() && lookup_passes(#[trigger] ws[j], p, k) && lookup_candidates(
                ws,
                p,
                k,
            )[i] == lookup_candidate(ws[j], p, k);
        candidates_are_words(list, p.clean, j);
        diffs_patch_wrong_into_right(p.clean, ws[j]);
        assert(puts(options_of(p, k)[i], p, ws[j]));
    }
}

/// No correction changes only the ending of a surname into that of another surname, unless it
/// turns a digit or mark into a letter.
pub proof fn surnames_keep_their_endings(p: PlaceView, k: KnowledgeView, i: int)
    requires
        p.is_surname_ctx,
        surname_like(p.clean),
        0 <= i < options_of(p, k).len(),
    ensures
        (options_of(p, k)[i].evidence matches EvidenceView::Variant { mark_to_letter, .. }
            && mark_to_letter) || exists|w: Seq<char>| #[trigger]
            puts(options_of(p, k)[i], p, w) && !(surname_like(w) && ending_differs(p.clean, w)),
{
    if fast_candidates(p, k).len() > 0 {
        let vs = variants_of(p.clean, k.confusions);
        lemma_variant_candidate_source(vs, p, k, i);
        let j = choose|j: int|
            0 <= j < vs.len() && variant_passes(#[trigger] vs[j], p, k) && variant_candidates(
                vs,
                p,
                k,
            )[i] == variant_candidate(vs[j], p, k);
        diffs_patch_wrong_into_right(p.clean, vs[j].text);
        assert(puts(options_of(p, k)[i], p, vs[j].text));
    } else {
        let ws = k.dict.candidates(p.clean)->0;
        lemma_lookup_candidate_source(ws, p, k, i);
        let j = choose|j: int|
            0 <= j < ws.len() && lookup_passes(#[trigger] ws[j], p, k) && lookup_candidates(
                ws,
                p,
                k,
            )[i] == lookup_candidate(ws[j], p, k);
        diffs_patch_wrong_into_right(p.clean, ws[j]);
        assert(puts(options_of(p, k)[i], p, ws[j]));
    }
}

proof fn lemma_only_others_count(vs: Seq<VariantView>, p: PlaceView, k: KnowledgeView)
    requires
        !k.dict.knows(p.clean),
    ensures
        variant_candidates(vs, p, k) == variant_candidates(others(vs, p.clean), p, k),
    decreases vs.len(),
{
    if vs.len() > 0 {
        lemma_only_others_count(vs.drop_last(), p, k);
        let out = others(vs, p.clean);
        if vs.last().text != p.clean {
            assert(out.drop_last() =~= others(vs.drop_last(), p.clean));
        }
    }
}

/// What competes for an unknown word does not depend on the order in which confusions are
/// listed.
pub proof fn variant_corrections_do_not_depend_on_order(
    p: PlaceView,
    k: KnowledgeView,
    a: Seq<((char, char), usize)>,
    b: Seq<((char, char), usize)>,
)
    requires
        !k.dict.knows(p.clean),
        same_pairs(a, b),
    ensures
        variant_candidates(variants_of(p.clean, a), p, k) == variant_candidates(
            variants_of(p.clean, b),
            p,
            k,
        ),
{
    other_variants_do_not_depend_on_order(p.clean, a, b);
    lemma_only_others_count(variants_of(p.clean, a), p, k);
    lemma_only_others_count(variants_of(p.clean, b), p, k);
}

/// What competes for an unknown word, if its confusions are those that were counted often
/// enough: the variants that generating them from the table gives, whatever the order in which
/// the table is listed, else what the dictionary offers.
pub proof fn options_come_from_generated_variants(
    p: PlaceView,
    k: KnowledgeView,
    es: Seq<((char, char), usize)>,
)
    requires
        k.is_grounded(),
        !k.dict.knows(p.clean),
        lists_table(es, k.ocr_confusions),
        es.len() <= usize::MAX,
    ensures
        ({
            let generated = variants_of(
                p.clean,
                by_count(at_least(es, k.settings.min_confusion_freq)),
            );
            let fast = variant_candidates(generated, p, k);
            &&& fast_candidates(p, k) == fast
            &&& options_of(p, k) == (if fast.len() > 0 {
                fast
            } else {
                slow_candidates(p, k)
            })
        }),
{
    let min = k.settings.min_confusion_freq;
    let sorted = by_count(at_least(es, min));
    frequent_lists_name_the_same_pairs(k.confusions, es, k.ocr_confusions, min);
    variant_corrections_do_not_depend_on_order(p, k, k.confusions, sorted);
}

proof fn lemma_plan_upto_same(
    words: Seq<Seq<char>>,
    n: nat,
    k: KnowledgeView,
    other: Seq<((char, char), usize)>,
)
    requires
        same_pairs(k.confusions, other),
    ensures
        planned_upto(words, n, k) == planned_upto(
            words,
            n,
            (KnowledgeView { confusions: other, ..k }),
        ),
    decreases n,
{
    if n > 0 {
        lemma_plan_upto_same(words, (n - 1) as nat, k, other);
        if examined(words, n - 1, k) {
            let p = place_at(words, n - 1);
            variant_corrections_do_not_depend_on_order(p, k, k.confusions, other);
            lemma_variant_candidates_same(variants_of(p.clean, other), p, k, other);
            lemma_lookup_candidates_same(p, k, other);
        }
    }
}

proof fn lemma_variant_candidates_same(
    vs: Seq<VariantView>,
    p: PlaceView,
    k: KnowledgeView,
    other: Seq<((char, char), usize)>,
)
    ensures
        variant_candidates(vs, p, k) == variant_candidates(
            vs,
            p,
            (KnowledgeView { confusions: other, ..k }),
        ),
    decreases vs.len(),
{
    if vs.len() > 0 {
        lemma_variant_candidates_same(vs.drop_last(), p, k, other);
    }
}

proof fn lemma_support_same(
    ds: Seq<DiffView>,
    k: KnowledgeView,
    other: Seq<((char, char), usize)>,
)
    ensures
        support_of(ds, k) == support_of(ds, (KnowledgeView { confusions: other, ..k })),
    decreases ds.len(),
{
    if ds.len() > 0 {
        lemma_support_same(ds.drop_last(), k, other);
    }
}

proof fn lemma_lookup_upto_same(
    ws: Seq<Seq<char>>,
    p: PlaceView,
    k: KnowledgeView,
    other: Seq<((char, char), usize)>,
)
    ensures
        lookup_candidates(ws, p, k) == lookup_candidates(
            ws,
            p,
            (KnowledgeView { confusions: other, ..k }),
        ),
    decreases ws.len(),
{
    if ws.len() > 0 {
        lemma_lookup_upto_same(ws.drop_last(), p, k, other);
        lemma_support_same(diffs_between(p.clean, ws.last()), k, other);
    }
}

proof fn lemma_lookup_candidates_same(
    p: PlaceView,
    k: KnowledgeView,
    other: Seq<((char, char), usize)>,
)
    ensures
        slow_candidates(p, k) == slow_candidates(p, (KnowledgeView { confusions: other, ..k })),
{
    if let Some(ws) = k.dict.candidates(p.clean) {
        lemma_lookup_upto_same(ws, p, k, other);
    }
}

/// What is decided about a text does not depend on the order in which confusions are listed.
pub proof fn plan_does_not_depend_on_order(
    text: Seq<char>,
    k: KnowledgeView,
    other: Seq<((char, char), usize)>,
)
    requires
        same_pairs(k.confusions, other),
    ensures
        plan_of(text, k) == plan_of(text, (KnowledgeView { confusions: other, ..k })),
{
    let words = merged_words(split_words(text), k.dict);
    lemma_plan_upto_same(words, words.len(), k, other);
}

proof fn lemma_passing_variant_is_candidate(
    vs: Seq<VariantView>,
    p: PlaceView,
    k: KnowledgeView,
    i: int,
)
    requires
        0 <= i < vs.len(),
        variant_passes(vs[i], p, k),
    ensures
        variant_candidates(vs, p, k).len() > 0,
    decreases vs.len(),
{
    if i < vs.len() - 1 {
        let rest = vs.drop_last();
        assert(rest[i] == vs[i]);
        lemma_passing_variant_is_candidate(rest, p, k, i);
    }
}

/// A digit or mark that stands for a letter of a known word is corrected, whatever the ranks:
/// some candidate wins.
pub proof fn digits_and_marks_are_corrected(
    p: PlaceView,
    k: KnowledgeView,
    pos: nat,
    x: int,
    ranks: Seq<i64>,
)
    requires
        pos < p.clean.len(),
        0 <= x < bootstrap_pairs().len(),
        p.clean[pos as int] == bootstrap_pairs()[x].0,
        mark_to_letter(bootstrap_pairs()[x].0, bootstrap_pairs()[x].1),
        k.dict.knows(p.clean.update(pos as int, bootstrap_pairs()[x].1)),
        ranks.len() == options_of(p, k).len(),
    ensures
        options_of(p, k) == fast_candidates(p, k),
        best_of(options_of(p, k), ranks, options_of(p, k).len()) is Some,
{
    let vs = variants_of(p.clean, k.confusions);
    let pair = bootstrap_pairs()[x];
    let v = variant_at(p.clean, pair.0, pair.1, pos);
    digits_and_marks_make_variants(p.clean, k.confusions, pos, x);
    let i = choose|i: int| 0 <= i < vs.len() && vs[i] == v;
    assert(variant_passes(vs[i], p, k));
    lemma_passing_variant_is_candidate(vs, p, k, i);
    let cs = options_of(p, k);
    lemma_variant_candidate_source(vs, p, k, 0);
    assert(may_win(cs[0], ranks[0]));
    winner_has_the_greatest_rank(cs, ranks, cs.len());
}

} // verus!

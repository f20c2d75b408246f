//! Corrections that a word could get, each with the evidence for it.

use crate::align::{distance_covers_length_gap, edit_distance, levenshtein};
use crate::chars::alphabetic;
use crate::counts::lists_table;
use crate::dictionary::{DictView, Dictionary};
use crate::diffs::{diff_views, diffs_between, extract_diffs, longer_side, AlignDiff, DiffView};
use crate::learned::{acceptable, correction_is_acceptable, LearnedPairs, LearnedView};
use crate::morphology::{normalize_for_ngram, stem_of};
use crate::ngrams::{
    context_hits, hit_label, hit_views, label_of_hit, ngram_context, surroundings, HitView,
    NgramHit, Surroundings,
};
use crate::order::by_count;
use crate::settings::Settings;
use crate::stats::GlobalStats;
use crate::text::{chars_of, decimal, push_decimal, texts};
use crate::variants::{
    at_least, frequent_confusions, lists_frequent, variant_views, variants_of,
    variants_replace_one_character, variants_with, Variant, VariantView,
};
use crate::words::{recased, restore_case};
use vstd::prelude::*;

verus! {

/// What a correction is judged by.
pub struct Knowledge<'a> {
    pub dict: &'a Dictionary,
    pub stats: &'a GlobalStats,
    pub learned: &'a LearnedPairs,
    /// The confusions that make variants, the most frequent first.
    pub confusions: Vec<((char, char), usize)>,
    pub settings: Settings,
}

/// The mathematical content of `Knowledge`.
#[verifier::ext_equal]
pub struct KnowledgeView {
    pub dict: DictView,
    pub error_matrix: Map<(Seq<char>, Seq<char>), usize>,
    pub ocr_confusions: Map<(char, char), usize>,
    pub ngrams: Map<Seq<Seq<char>>, usize>,
    pub learned: LearnedView,
    pub confusions: Seq<((char, char), usize)>,
    pub settings: Settings,
}

impl<'a> View for Knowledge<'a> {
    type V = KnowledgeView;

    open spec fn view(&self) -> KnowledgeView {
        KnowledgeView {
            dict: self.dict@,
            error_matrix: self.stats.error_matrix@,
            ocr_confusions: self.stats.ocr_confusions@,
            ngrams: self.stats.ngrams@,
            learned: self.learned@,
            confusions: self.confusions@,
            settings: self.settings,
        }
    }
}

impl KnowledgeView {
    /// Whether the confusions that make variants are exactly those that were counted often
    /// enough.
    pub open spec fn is_grounded(self) -> bool {
        lists_frequent(self.confusions, self.ocr_confusions, self.settings.min_confusion_freq)
    }
}

impl<'a> Knowledge<'a> {
    /// Gathers what corrections are judged by: the confusions that were counted often enough
    /// make variants, the most frequent first. Confusions of one count come in no particular
    /// order.
    pub fn new(
        dict: &'a Dictionary,
        stats: &'a GlobalStats,
        learned: &'a LearnedPairs,
        settings: Settings,
    ) -> (k: Self)
        ensures
            k.dict == dict,
            k.stats == stats,
            k.learned == learned,
            k.settings == settings,
            k@.is_grounded(),
            exists|es: Seq<((char, char), usize)>| #[trigger]
                lists_table(es, stats.ocr_confusions@) && k@.confusions == by_count(
                    at_least(es, settings.min_confusion_freq),
                ),
    {
        let confusions = frequent_confusions(stats, settings.min_confusion_freq);
        Knowledge { dict, stats, learned, confusions, settings }
    }
}

/// A word with what stands around it.
pub struct Place<'a> {
    /// The word in lower case, without outer punctuation.
    pub clean: &'a str,
    /// The word as it was written, without outer punctuation.
    pub original_case: &'a str,
    /// Whether the word is or may be a surname.
    pub is_surname_ctx: bool,
    pub prev_stems: &'a [String],
    pub next_stems: &'a [String],
}

/// The mathematical content of a `Place`.
#[verifier::ext_equal]
pub struct PlaceView {
    pub clean: Seq<char>,
    pub original_case: Seq<char>,
    pub is_surname_ctx: bool,
    pub before: Seq<Seq<char>>,
    pub after: Seq<Seq<char>>,
}

impl<'a> View for Place<'a> {
    type V = PlaceView;

    open spec fn view(&self) -> PlaceView {
        PlaceView {
            clean: self.clean@,
            original_case: self.original_case@,
            is_surname_ctx: self.is_surname_ctx,
            before: texts(self.prev_stems@),
            after: texts(self.next_stems@),
        }
    }
}

/// The evidence for a correction, besides the runs of stems that it completes.
#[derive(Debug)]
pub enum Evidence {
    /// One character was replaced: how often the two were confused, once at least, and
    /// whether a digit or mark became a letter.
    Variant { confusion_freq: usize, mark_to_letter: bool },
    /// The dictionary has the word: the errors that were counted often enough, each with
    /// its count and the length of its longer side; how many were not; the distance.
    Lookup { support: Vec<(usize, usize)>, unsupported: usize, dist: usize },
}

/// The mathematical content of an `Evidence`.
#[verifier::ext_equal]
pub enum EvidenceView {
    Variant { confusion_freq: nat, mark_to_letter: bool },
    Lookup { support: Seq<(usize, usize)>, unsupported: nat, dist: nat },
}

impl View for Evidence {
    type V = EvidenceView;

    open spec fn view(&self) -> EvidenceView {
        match self {
            Evidence::Variant { confusion_freq, mark_to_letter } => EvidenceView::Variant {
                confusion_freq: *confusion_freq as nat,
                mark_to_letter: *mark_to_letter,
            },
            Evidence::Lookup { support, unsupported, dist } => EvidenceView::Lookup {
                support: support@,
                unsupported: *unsupported as nat,
                dist: *dist as nat,
            },
        }
    }
}

/// A correction that a word could get.
#[derive(Debug)]
pub struct Candidate {
    /// The corrected word in the case of the original.
    pub corrected: String,
    pub diffs: Vec<AlignDiff>,
    pub reason: String,
    /// The runs of stems that the corrected word completes, the longest first.
    pub hits: Vec<NgramHit>,
    pub evidence: Evidence,
}

/// The mathematical content of a `Candidate`.
#[verifier::ext_equal]
pub struct CandidateView {
    pub corrected: Seq<char>,
    pub diffs: Seq<DiffView>,
    pub reason: Seq<char>,
    pub hits: Seq<HitView>,
    pub evidence: EvidenceView,
}

impl View for Candidate {
    type V = CandidateView;

    open spec fn view(&self) -> CandidateView {
        CandidateView {
            corrected: self.corrected@,
            diffs: diff_views(self.diffs@),
            reason: self.reason@,
            hits: hit_views(self.hits@),
            evidence: self.evidence@,
        }
    }
}

/// The contents of a list of candidates.
pub open spec fn candidate_views(cs: Seq<Candidate>) -> Seq<CandidateView> {
    Seq::new(cs.len(), |i: int| cs[i]@)
}

/// Two to the power of 53: from there on a double-precision number skips whole numbers.
pub const DOUBLE_LIMIT: u128 = 9007199254740992;

/// The distance between neighbouring double-precision numbers around `n`.
pub open spec fn double_step(n: nat) -> nat
    decreases n,
{
    if n < DOUBLE_LIMIT {
        1
    } else {
        2 * double_step(n / 2)
    }
}

/// The double-precision number next to `n`; of two equally near the one with the even multiple.
pub open spec fn nearest_double(n: nat) -> nat {
    let step = double_step(n);
    let low = n / step;
    let rest = n % step;
    (if 2 * rest > step || (2 * rest == step && low % 2 == 1) {
        low + 1
    } else {
        low
    }) * step
}

/// A count as it is shown: through a double-precision number.
pub open spec fn shown_count(n: nat) -> nat {
    if nearest_double(n) > usize::MAX {
        usize::MAX as nat
    } else {
        nearest_double(n)
    }
}

/// A count as it is shown: through a double-precision number.
fn count_to_show(n: usize) -> (r: usize)
    ensures
        r == shown_count(n as nat),
{
    let wide: u128 = n as u128;
    let mut step: u128 = 1;
    let mut left: u128 = wide;
    while left >= DOUBLE_LIMIT
        invariant
            wide == n,
            1 <= step,
            step == 1 || left >= 1,
            step * left <= wide,
            double_step(wide as nat) == step * double_step(left as nat),
        decreases left,
    {
        assert(step * 2 <= step * left && (2 * step) * (left / 2) <= step * left) by (nonlinear_arith)
            requires
                left >= 2,
                step >= 1,
        ;
        assert(step * (2 * double_step((left / 2) as nat)) == (2 * step) * double_step(
            (left / 2) as nat,
        )) by (nonlinear_arith);
        left = left / 2;
        step = 2 * step;
    }
    assert(double_step(wide as nat) == step) by (nonlinear_arith)
        requires
            double_step(wide as nat) == step * double_step(left as nat),
            double_step(left as nat) == 1,
    ;
    let low: u128 = wide / step;
    let rest: u128 = wide % step;
    assert(low * step <= wide && wide == low * step + rest && rest < step) by (nonlinear_arith)
        requires
            step >= 1,
            low == wide / step,
            rest == wide % step,
    ;
    assert(step <= wide || step == 1) by {
        if left >= 1 {
            assert(step <= step * left) by (nonlinear_arith)
                requires
                    step >= 1,
                    left >= 1,
            ;
        }
    }
    assert((low + 1) * step == low * step + step) by (nonlinear_arith);
    let units: u128 = if 2 * rest > step || (2 * rest == step && low % 2 == 1) {
        low + 1
    } else {
        low
    };
    let near: u128 = units * step;
    if near > usize::MAX as u128 {
        usize::MAX
    } else {
        near as usize
    }
}

/// What surrounds a place, for the runs of stems.
pub open spec fn around(p: PlaceView, k: KnowledgeView) -> Surroundings {
    Surroundings {
        before: p.before,
        after: p.after,
        ngrams: k.ngrams,
        min_freq: k.settings.min_ngram_freq as nat,
    }
}

/// The runs of stems that a word completes at a place.
pub open spec fn hits_of(word: Seq<char>, p: PlaceView, k: KnowledgeView) -> Seq<HitView> {
    context_hits(stem_of(word), around(p, k), k.settings.max_ngram as nat)
}

/// A reason with the first hit behind it, if there is one.
pub open spec fn reason_with(reason: Seq<char>, hits: Seq<HitView>) -> Seq<char> {
    if hits.len() > 0 {
        reason + " + "@ + hit_label(hits[0])
    } else {
        reason
    }
}

/// Adds the first hit to a reason, if there is one.
fn add_hit(reason: String, hits: &Vec<NgramHit>) -> (r: String)
    ensures
        r@ == reason_with(reason@, hit_views(hits@)),
{
    let mut out = reason;
    if hits.len() > 0 {
        out.append(" + ");
        out.append(label_of_hit(&hits[0]).as_str());
        assert(hit_views(hits@)[0] == hits@[0]@);
    }
    assert(out@ =~= reason_with(reason@, hit_views(hits@)));
    out
}

/// Whether a digit or mark becomes a letter.
pub open spec fn mark_to_letter(from: char, to: char) -> bool {
    !alphabetic(from) && alphabetic(to)
}

/// Whether a variant can be a correction: it is a known word, and it is acceptable or
/// turns a digit or mark into a letter.
pub open spec fn variant_passes(v: VariantView, p: PlaceView, k: KnowledgeView) -> bool {
    k.dict.knows(v.text) && (acceptable(p.clean, v.text, p.is_surname_ctx, k.learned)
        || mark_to_letter(v.from, v.to))
}

/// How often two characters were confused; once, if nothing is known.
pub open spec fn confusion_count(k: KnowledgeView, from: char, to: char) -> nat {
    if k.ocr_confusions.contains_key((from, to)) {
        k.ocr_confusions[(from, to)] as nat
    } else {
        1
    }
}

/// A variant as a candidate.
pub open spec fn variant_candidate(v: VariantView, p: PlaceView, k: KnowledgeView) -> CandidateView {
    let freq = confusion_count(k, v.from, v.to);
    let hits = hits_of(v.text, p, k);
    CandidateView {
        corrected: recased(p.original_case, v.text),
        diffs: diffs_between(p.clean, v.text),
        reason: reason_with(
            "OCR «"@ + seq![v.from] + "»→«"@ + seq![v.to] + "» поз."@ + decimal(v.pos + 1)
                + " freq="@ + decimal(shown_count(freq)),
            hits,
        ),
        hits,
        evidence: EvidenceView::Variant {
            confusion_freq: freq,
            mark_to_letter: mark_to_letter(v.from, v.to),
        },
    }
}

/// The variants that can be corrections, in order.
pub open spec fn variant_candidates(
    vs: Seq<VariantView>,
    p: PlaceView,
    k: KnowledgeView,
) -> Seq<CandidateView>
    decreases vs.len(),
{
    if vs.len() == 0 {
        Seq::empty()
    } else {
        let before = variant_candidates(vs.drop_last(), p, k);
        if variant_passes(vs.last(), p, k) {
            before.push(variant_candidate(vs.last(), p, k))
        } else {
            before
        }
    }
}

/// The corrections with one character replaced.
pub open spec fn fast_candidates(p: PlaceView, k: KnowledgeView) -> Seq<CandidateView> {
    variant_candidates(variants_of(p.clean, k.confusions), p, k)
}

/// Makes a candidate of a variant.
fn candidate_of_variant(v: &Variant, p: &Place, k: &Knowledge) -> (r: Candidate)
    requires
        v.pos < p.clean@.len(),
    ensures
        r@ == variant_candidate(v@, p@, k@),
{
    let clean = chars_of(p.clean);
    assert(v.pos < clean.len());
    let freq: usize = match k.stats.ocr_confusions.get((v.from, v.to)) {
        Some(n) => n,
        None => 1,
    };
    let stem = normalize_for_ngram(v.text.as_str());
    let hits = ngram_context(
        stem.as_str(),
        p.prev_stems,
        p.next_stems,
        k.stats,
        k.settings.min_ngram_freq,
        k.settings.max_ngram,
    );
    assert(surroundings(p.prev_stems@, p.next_stems@, k.stats, k.settings.min_ngram_freq) =~= around(
        p@,
        k@,
    ));
    let text = chars_of(v.text.as_str());
    let diffs = extract_diffs(clean.as_slice(), text.as_slice());
    let mut reason = "OCR «".to_string();
    reason.push(v.from);
    reason.append("»→«");
    reason.push(v.to);
    reason.append("» поз.");
    push_decimal(&mut reason, v.pos + 1);
    reason.append(" freq=");
    push_decimal(&mut reason, count_to_show(freq));
    assert(reason@ =~= "OCR «"@ + seq![v.from] + "»→«"@ + seq![v.to] + "» поз."@ + decimal(
        v@.pos + 1,
    ) + " freq="@ + decimal(shown_count(freq as nat)));
    let mark: bool = !v.from.is_alphabetic() && v.to.is_alphabetic();
    Candidate {
        corrected: restore_case(p.original_case, v.text.as_str()),
        diffs,
        reason: add_hit(reason, &hits),
        hits,
        evidence: Evidence::Variant { confusion_freq: freq, mark_to_letter: mark },
    }
}

/// The corrections of a word with one character replaced, in the order of their texts.
pub fn variant_corrections(p: &Place, k: &Knowledge) -> (r: Vec<Candidate>)
    ensures
        candidate_views(r@) == fast_candidates(p@, k@),
{
    let variants = variants_with(p.clean, k.confusions.as_slice());
    let ghost all = variant_views(variants@);
    let mut out: Vec<Candidate> = Vec::new();
    let mut i: usize = 0;
    assert(candidate_views(out@) =~= variant_candidates(all.take(0), p@, k@));
    while i < variants.len()
        invariant
            i <= variants.len(),
            all == variant_views(variants@),
            all == variants_of(p.clean@, k.confusions@),
            candidate_views(out@) == variant_candidates(all.take(i as int), p@, k@),
        decreases variants.len() - i,
    {
        let v = &variants[i];
        assert(all[i as int] == v@);
        assert(all.take(i + 1).drop_last() =~= all.take(i as int));
        let passes = k.dict.contains(v.text.as_str()) && (correction_is_acceptable(
            p.clean,
            v.text.as_str(),
            p.is_surname_ctx,
            k.learned,
        ) || (!v.from.is_alphabetic() && v.to.is_alphabetic()));
        if passes {
            let ghost done = candidate_views(out@);
            proof {
                variants_replace_one_character(p.clean@, k.confusions@, i as int);
            }
            out.push(candidate_of_variant(v, p, k));
            assert(candidate_views(out@) =~= done.push(variant_candidate(v@, p@, k@)));
        }
        i += 1;
    }
    assert(all.take(all.len() as int) =~= all);
    out
}

/// Whether the dictionary word `word` can be a correction: it is near enough, but not the
/// word itself, and acceptable.
pub open spec fn lookup_passes(word: Seq<char>, p: PlaceView, k: KnowledgeView) -> bool {
    0 < edit_distance(p.clean, word) <= k.settings.max_edit_dist && acceptable(
        p.clean,
        word,
        p.is_surname_ctx,
        k.learned,
    )
}

/// Whether an error was counted often enough to support a correction.
pub open spec fn supports(d: DiffView, k: KnowledgeView) -> bool {
    k.error_matrix.contains_key((d.wrong_text, d.right_text)) && k.error_matrix[(
        d.wrong_text,
        d.right_text,
    )] >= k.settings.min_rule_freq
}

/// The errors that support a correction, each with its count and its length.
pub open spec fn support_of(ds: Seq<DiffView>, k: KnowledgeView) -> Seq<(usize, usize)>
    decreases ds.len(),
{
    if ds.len() == 0 {
        Seq::empty()
    } else {
        let before = support_of(ds.drop_last(), k);
        let d = ds.last();
        if supports(d, k) {
            before.push((k.error_matrix[(d.wrong_text, d.right_text)], longer_side(d) as usize))
        } else {
            before
        }
    }
}

/// A dictionary word as a candidate.
pub open spec fn lookup_candidate(word: Seq<char>, p: PlaceView, k: KnowledgeView) -> CandidateView {
    let diffs = diffs_between(p.clean, word);
    let dist = edit_distance(p.clean, word);
    let support = support_of(diffs, k);
    let hits = hits_of(word, p, k);
    CandidateView {
        corrected: recased(p.original_case, word),
        diffs,
        reason: reason_with("n-gram dist="@ + decimal(dist), hits),
        hits,
        evidence: EvidenceView::Lookup {
            support,
            unsupported: (diffs.len() - support.len()) as nat,
            dist,
        },
    }
}

/// The dictionary words that can be corrections, in order.
pub open spec fn lookup_candidates(
    ws: Seq<Seq<char>>,
    p: PlaceView,
    k: KnowledgeView,
) -> Seq<CandidateView>
    decreases ws.len(),
{
    if ws.len() == 0 {
        Seq::empty()
    } else {
        let before = lookup_candidates(ws.drop_last(), p, k);
        if lookup_passes(ws.last(), p, k) {
            before.push(lookup_candidate(ws.last(), p, k))
        } else {
            before
        }
    }
}

/// The corrections that the dictionary offers.
pub open spec fn slow_candidates(p: PlaceView, k: KnowledgeView) -> Seq<CandidateView> {
    match k.dict.candidates(p.clean) {
        Some(ws) => lookup_candidates(ws, p, k),
        None => Seq::empty(),
    }
}

/// The errors that support a correction, each with its count and its length.
fn supporting(diffs: &Vec<AlignDiff>, k: &Knowledge) -> (r: Vec<(usize, usize)>)
    ensures
        r@ == support_of(diff_views(diffs@), k@),
        r@.len() <= diffs@.len(),
{
    let ghost all = diff_views(diffs@);
    let mut out: Vec<(usize, usize)> = Vec::new();
    let mut i: usize = 0;
    while i < diffs.len()
        invariant
            i <= diffs.len(),
            all == diff_views(diffs@),
            out@ == support_of(all.take(i as int), k@),
            out@.len() <= i,
        decreases diffs.len() - i,
    {
        let d = &diffs[i];
        assert(all[i as int] == d@);
        assert(all.take(i + 1).drop_last() =~= all.take(i as int));
        if let Some(freq) = k.stats.error_matrix.get(&d.wrong_text, &d.right_text) {
            if freq >= k.settings.min_rule_freq {
                let wrong: usize = chars_of(d.wrong_text.as_str()).len();
                let right: usize = chars_of(d.right_text.as_str()).len();
                let longer: usize = if wrong >= right {
                    wrong
                } else {
                    right
                };
                out.push((freq, longer));
            }
        }
        i += 1;
    }
    assert(all.take(all.len() as int) =~= all);
    out
}

/// Makes a candidate of a dictionary word.
fn candidate_of_word(word: &String, dist: usize, p: &Place, k: &Knowledge) -> (r: Candidate)
    requires
        dist == edit_distance(p.clean@, word@),
    ensures
        r@ == lookup_candidate(word@, p@, k@),
{
    let clean = chars_of(p.clean);
    let text = chars_of(word.as_str());
    let diffs = extract_diffs(clean.as_slice(), text.as_slice());
    let support = supporting(&diffs, k);
    let unsupported: usize = diffs.len() - support.len();
    let stem = normalize_for_ngram(word.as_str());
    let hits = ngram_context(
        stem.as_str(),
        p.prev_stems,
        p.next_stems,
        k.stats,
        k.settings.min_ngram_freq,
        k.settings.max_ngram,
    );
    assert(surroundings(p.prev_stems@, p.next_stems@, k.stats, k.settings.min_ngram_freq) =~= around(
        p@,
        k@,
    ));
    let mut reason = "n-gram dist=".to_string();
    push_decimal(&mut reason, dist);
    Candidate {
        corrected: restore_case(p.original_case, word.as_str()),
        diffs,
        reason: add_hit(reason, &hits),
        hits,
        evidence: Evidence::Lookup { support, unsupported, dist },
    }
}

/// The corrections of a word that the dictionary offers, in the order of the dictionary.
pub fn lookup_corrections(p: &Place, k: &Knowledge) -> (r: Vec<Candidate>)
    ensures
        candidate_views(r@) == slow_candidates(p@, k@),
{
    let mut out: Vec<Candidate> = Vec::new();
    let words = match k.dict.candidates_for(p.clean) {
        Some(ws) => ws,
        None => {
            assert(candidate_views(out@) =~= Seq::<CandidateView>::empty());
            return out;
        },
    };
    let clean = chars_of(p.clean);
    let ghost all = texts(words@);
    let mut i: usize = 0;
    assert(candidate_views(out@) =~= lookup_candidates(all.take(0), p@, k@));
    while i < words.len()
        invariant
            i <= words.len(),
            clean@ == p.clean@,
            all == texts(words@),
            candidate_views(out@) == lookup_candidates(all.take(i as int), p@, k@),
        decreases words.len() - i,
    {
        let word = &words[i];
        assert(all[i as int] == word@);
        assert(all.take(i + 1).drop_last() =~= all.take(i as int));
        let text = chars_of(word.as_str());
        let gap: usize = if clean.len() >= text.len() {
            clean.len() - text.len()
        } else {
            text.len() - clean.len()
        };
        proof {
            distance_covers_length_gap(clean@, text@);
        }
        if gap <= k.settings.max_edit_dist {
            let dist: usize = levenshtein(clean.as_slice(), text.as_slice());
            if dist > 0 && dist <= k.settings.max_edit_dist && correction_is_acceptable(
                p.clean,
                word.as_str(),
                p.is_surname_ctx,
                k.learned,
            ) {
                let ghost done = candidate_views(out@);
                out.push(candidate_of_word(word, dist, p, k));
                assert(candidate_views(out@) =~= done.push(lookup_candidate(word@, p@, k@)));
            }
        }
        i += 1;
    }
    assert(all.take(all.len() as int) =~= all);
    out
}

} // verus!

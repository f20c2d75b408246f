//! The character errors that are frequent enough to be believed, and which corrections
//! they explain.

use crate::align::{
    alignment, aligns, build_alignment, cost_at, edit_distance, lemma_step_in_bounds, right_at,
    wrong_at, AlignOp,
};
use crate::counts::lists_table;
use crate::morphology::{correction_is_morphologically_safe, morphology_kept};
use crate::sets::{LetterSet, PairSet};
use crate::stats::GlobalStats;
use crate::tables::{LetterCounts, PairCounts};
use crate::text::chars_of;
use vstd::prelude::*;

verus! {

/// The keys that were counted at least `min` times.
pub open spec fn frequent<K>(m: Map<K, usize>, min: usize) -> Set<K> {
    Set::new(|k: K| m.contains_key(k) && m[k] >= min)
}

/// The character errors that count as learned.
pub struct LearnedPairs {
    pub subs: PairSet,
    pub insertions: LetterSet,
    pub deletions: LetterSet,
}

/// The mathematical content of `LearnedPairs`.
#[verifier::ext_equal]
pub struct LearnedView {
    pub subs: Set<(char, char)>,
    pub insertions: Set<char>,
    pub deletions: Set<char>,
}

impl View for LearnedPairs {
    type V = LearnedView;

    open spec fn view(&self) -> LearnedView {
        LearnedView {
            subs: self.subs@,
            insertions: self.insertions@,
            deletions: self.deletions@,
        }
    }
}

proof fn lemma_frequent_listed<K>(es: Seq<(K, usize)>, m: Map<K, usize>, min: usize, s: Set<K>)
    requires
        lists_table(es, m),
        forall|k: K|
            s.contains(k) <==> exists|i: int| 0 <= i < es.len() && (#[trigger] es[i]).0 == k && es[i].1
                >= min,
    ensures
        s == frequent(m, min),
{
    assert forall|k: K| frequent(m, min).contains(k) implies s.contains(k) by {
        let i = choose|i: int| 0 <= i < es.len() && es[i].0 == k;
        assert(es[i].0 == k);
    }
    assert(s =~= frequent(m, min));
}

/// The pairs that were counted at least `min` times.
pub fn frequent_pairs(t: &PairCounts, min: usize) -> (r: PairSet)
    ensures
        r@ == frequent(t@, min),
{
    let es = t.entries();
    let mut out = PairSet::new();
    let mut i: usize = 0;
    while i < es.len()
        invariant
            i <= es.len(),
            forall|k: (char, char)|
                out@.contains(k) <==> exists|x: int| 0 <= x < i && (#[trigger] es@[x]).0 == k && es@[x].1
                    >= min,
        decreases es.len() - i,
    {
        let ghost before = out@;
        if es[i].1 >= min {
            out.insert(es[i].0);
        }
        proof {
            assert forall|k: (char, char)| out@.contains(k) implies exists|x: int|
                0 <= x < i + 1 && (#[trigger] es@[x]).0 == k && es@[x].1 >= min by {
                if before.contains(k) {
                    let x = choose|x: int|
                        0 <= x < i && (#[trigger] es@[x]).0 == k && es@[x].1 >= min;
                    assert(es@[x].0 == k);
                } else {
                    assert(es@[i as int].0 == k);
                }
            }
        }
        i += 1;
    }
    proof {
        lemma_frequent_listed(es@, t@, min, out@);
    }
    out
}

/// The characters that were counted at least `min` times.
pub fn frequent_letters(t: &LetterCounts, min: usize) -> (r: LetterSet)
    ensures
        r@ == frequent(t@, min),
{
    let es = t.entries();
    let mut out = LetterSet::new();
    let mut i: usize = 0;
    while i < es.len()
        invariant
            i <= es.len(),
            forall|k: char|
                out@.contains(k) <==> exists|x: int| 0 <= x < i && (#[trigger] es@[x]).0 == k && es@[x].1
                    >= min,
        decreases es.len() - i,
    {
        let ghost before = out@;
        if es[i].1 >= min {
            out.insert(es[i].0);
        }
        proof {
            assert forall|k: char| out@.contains(k) implies exists|x: int|
                0 <= x < i + 1 && (#[trigger] es@[x]).0 == k && es@[x].1 >= min by {
                if before.contains(k) {
                    let x = choose|x: int|
                        0 <= x < i && (#[trigger] es@[x]).0 == k && es@[x].1 >= min;
                    assert(es@[x].0 == k);
                } else {
                    assert(es@[i as int].0 == k);
                }
            }
        }
        i += 1;
    }
    proof {
        lemma_frequent_listed(es@, t@, min, out@);
    }
    out
}

/// What statistics teach: the errors that were counted at least `min` times.
pub open spec fn learned_from(s: &GlobalStats, min: usize) -> LearnedView {
    LearnedView {
        subs: frequent(s.ocr_confusions@, min),
        insertions: frequent(s.ocr_insertions@, min),
        deletions: frequent(s.ocr_deletions@, min),
    }
}

impl LearnedPairs {
    /// Takes from the statistics the errors that were counted at least `min_freq` times.
    pub fn build(stats: &GlobalStats, min_freq: usize) -> (r: Self)
        ensures
            r@ == learned_from(stats, min_freq),
    {
        LearnedPairs {
            subs: frequent_pairs(&stats.ocr_confusions, min_freq),
            insertions: frequent_letters(&stats.ocr_insertions, min_freq),
            deletions: frequent_letters(&stats.ocr_deletions, min_freq),
        }
    }

    /// How many substitutions, insertions and deletions are learned.
    pub fn sizes(&self) -> (r: (usize, usize, usize))
        ensures
            r.0 == self@.subs.len(),
            r.1 == self@.insertions.len(),
            r.2 == self@.deletions.len(),
    {
        (self.subs.len(), self.insertions.len(), self.deletions.len())
    }
}

/// Whether step `k` of an alignment is a match or an error that is learned.
pub open spec fn step_learned(
    l: LearnedView,
    a: Seq<char>,
    b: Seq<char>,
    ops: Seq<AlignOp>,
    k: nat,
) -> bool {
    match ops[k as int] {
        AlignOp::Match => true,
        AlignOp::Sub => l.subs.contains(
            (a[wrong_at(ops, k) as int], b[right_at(ops, k) as int]),
        ),
        AlignOp::Del => l.deletions.contains(a[wrong_at(ops, k) as int]),
        AlignOp::Ins => l.insertions.contains(b[right_at(ops, k) as int]),
    }
}

/// Whether learned errors explain a correction: the lengths differ by two at most, every
/// step of the alignment is learned, and a word of more than four characters has two
/// edits at most.
pub open spec fn explained(wrong: Seq<char>, right: Seq<char>, l: LearnedView) -> bool {
    &&& wrong.len() <= right.len() + 2
    &&& right.len() <= wrong.len() + 2
    &&& forall|k: nat|
        k < alignment(wrong, right).len() ==> #[trigger] step_learned(
            l,
            wrong,
            right,
            alignment(wrong, right),
            k,
        )
    &&& wrong.len() > 4 ==> edit_distance(wrong, right) <= 2
}

/// Whether learned errors explain a correction.
pub fn is_acceptable_ocr_correction(wrong: &str, right: &str, learned: &LearnedPairs) -> (r: bool)
    ensures
        r == explained(wrong@, right@, learned@),
{
    let wc = chars_of(wrong);
    let rc = chars_of(right);
    if (wc.len() > rc.len() && wc.len() - rc.len() > 2) || (rc.len() > wc.len() && rc.len()
        - wc.len() > 2) {
        return false;
    }
    let ops = build_alignment(wc.as_slice(), rc.as_slice());
    let mut ai: usize = 0;
    let mut bi: usize = 0;
    let mut total: usize = 0;
    let mut k: usize = 0;
    while k < ops.len()
        invariant
            k <= ops.len(),
            wc@ == wrong@,
            rc@ == right@,
            ops@ == alignment(wc@, rc@),
            aligns(wc@, rc@, ops@),
            ai == wrong_at(ops@, k as nat),
            bi == right_at(ops@, k as nat),
            total == cost_at(ops@, k as nat),
            total <= k,
            forall|x: nat| x < k ==> #[trigger] step_learned(learned@, wc@, rc@, ops@, x),
        decreases ops.len() - k,
    {
        proof {
            lemma_step_in_bounds(wc@, rc@, ops@, k as nat);
            assert(wc@.len() == wc.len() && rc@.len() == rc.len());
        }
        let ok = match ops[k] {
            AlignOp::Match => true,
            AlignOp::Sub => learned.subs.contains(&(wc[ai], rc[bi])),
            AlignOp::Del => learned.deletions.contains(&wc[ai]),
            AlignOp::Ins => learned.insertions.contains(&rc[bi]),
        };
        assert(ok == step_learned(learned@, wc@, rc@, ops@, k as nat));
        if !ok {
            return false;
        }
        if ops[k] != AlignOp::Ins {
            ai += 1;
        }
        if ops[k] != AlignOp::Del {
            bi += 1;
        }
        if ops[k] != AlignOp::Match {
            total += 1;
        }
        k += 1;
    }
    !(wc.len() > 4 && total > 2)
}

/// Whether a correction can be accepted: learned errors explain it and it leaves surnames alone.
pub open spec fn acceptable(
    wrong: Seq<char>,
    right: Seq<char>,
    surname_ctx: bool,
    l: LearnedView,
) -> bool {
    explained(wrong, right, l) && morphology_kept(wrong, right, surname_ctx)
}

/// Whether a correction can be accepted.
pub fn correction_is_acceptable(
    wrong: &str,
    right: &str,
    is_surname_ctx: bool,
    learned: &LearnedPairs,
) -> (r: bool)
    ensures
        r == acceptable(wrong@, right@, is_surname_ctx, learned@),
{
    is_acceptable_ocr_correction(wrong, right, learned) && correction_is_morphologically_safe(
        wrong,
        right,
        is_surname_ctx,
    )
}

/// The more is learned, the more corrections are explained.
pub proof fn learning_more_explains_more(
    wrong: Seq<char>,
    right: Seq<char>,
    less: LearnedView,
    more: LearnedView,
)
    requires
        less.subs.subset_of(more.subs),
        less.insertions.subset_of(more.insertions),
        less.deletions.subset_of(more.deletions),
        explained(wrong, right, less),
    ensures
        explained(wrong, right, more),
{
    let ops = alignment(wrong, right);
    assert forall|k: nat| k < ops.len() implies #[trigger] step_learned(
        more,
        wrong,
        right,
        ops,
        k,
    ) by {
        assert(step_learned(less, wrong, right, ops, k));
    }
}

/// The more often an error must have been counted, the less is learned.
pub proof fn stricter_threshold_learns_less<K>(m: Map<K, usize>, low: usize, high: usize)
    requires
        low <= high,
    ensures
        frequent(m, high).subset_of(frequent(m, low)),
{
}

} // verus!

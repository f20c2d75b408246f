//! Runs of stems: which ones are counted, and which ones a word completes.

use crate::counts::count_of;
use crate::stats::GlobalStats;
use crate::tables::ngram_keys;
use crate::text::{
    byte_len, byte_len_of, clone_range, decimal, join_spaced, push_decimal, spaced, texts,
};
use vstd::prelude::*;

verus! {

/// Whether every stem of a run takes at least two bytes.
pub open spec fn long_enough(run: Seq<Seq<char>>) -> bool {
    forall|i: int| 0 <= i < run.len() ==> byte_len(#[trigger] run[i]) >= 2
}

/// The counted runs of `n` stems that start at one of the first `k` positions.
pub open spec fn runs_starting(stems: Seq<Seq<char>>, n: nat, k: nat) -> Seq<Seq<Seq<char>>>
    decreases k,
{
    if k == 0 {
        Seq::empty()
    } else {
        let before = runs_starting(stems, n, (k - 1) as nat);
        let run = stems.subrange(k - 1, k - 1 + n);
        if long_enough(run) {
            before.push(run)
        } else {
            before
        }
    }
}

/// The counted runs of two to `max_n` stems, the shorter ones first.
pub open spec fn ngrams_of(stems: Seq<Seq<char>>, max_n: nat) -> Seq<Seq<Seq<char>>>
    decreases max_n,
{
    if max_n < 2 {
        Seq::empty()
    } else {
        let shorter = ngrams_of(stems, (max_n - 1) as nat);
        if max_n <= stems.len() {
            shorter + runs_starting(stems, max_n, (stems.len() - max_n + 1) as nat)
        } else {
            shorter
        }
    }
}

proof fn lemma_no_longer_runs(stems: Seq<Seq<char>>, max_n: nat)
    requires
        max_n >= stems.len(),
    ensures
        ngrams_of(stems, max_n) == ngrams_of(stems, stems.len()),
    decreases max_n,
{
    if max_n > stems.len() {
        if max_n < 2 {
            assert(ngrams_of(stems, stems.len()) =~= Seq::<Seq<Seq<char>>>::empty());
        } else {
            lemma_no_longer_runs(stems, (max_n - 1) as nat);
        }
    }
}

/// Whether every stem of a run takes at least two bytes.
fn is_long_enough(run: &Vec<String>) -> (r: bool)
    ensures
        r == long_enough(texts(run@)),
{
    let mut i: usize = 0;
    while i < run.len()
        invariant
            i <= run.len(),
            forall|x: int| 0 <= x < i ==> byte_len(#[trigger] texts(run@)[x]) >= 2,
        decreases run.len() - i,
    {
        if byte_len_of(run[i].as_str()) < 2 {
            assert(byte_len(texts(run@)[i as int]) < 2);
            return false;
        }
        i += 1;
    }
    true
}

/// The runs of two to `max_n` neighbouring stems in which every stem takes at least two bytes.
pub fn collect_ngrams(stems: &[String], max_n: usize) -> (r: Vec<Vec<String>>)
    ensures
        ngram_keys(r@) == ngrams_of(texts(stems@), max_n as nat),
{
    let ghost all = texts(stems@);
    let top: usize = if max_n < stems.len() {
        max_n
    } else {
        stems.len()
    };
    let mut out: Vec<Vec<String>> = Vec::new();
    let mut shorter: usize = 1;
    assert(ngram_keys(out@) =~= ngrams_of(all, 1));
    while shorter < top
        invariant
            1 <= shorter,
            shorter <= top || top <= 1 && shorter == 1,
            top <= stems.len(),
            all == texts(stems@),
            ngram_keys(out@) == ngrams_of(all, shorter as nat),
        decreases top - shorter,
    {
        let n: usize = shorter + 1;
        let ghost base = ngrams_of(all, shorter as nat);
        let last: usize = stems.len() - n;
        let mut k: usize = 0;
        assert(base + runs_starting(all, n as nat, 0) =~= base);
        while k <= last
            invariant
                2 <= n <= stems.len(),
                last == stems.len() - n,
                k <= last + 1,
                all == texts(stems@),
                ngram_keys(out@) == base + runs_starting(all, n as nat, k as nat),
            decreases last + 1 - k,
        {
            let run = clone_range(stems, k, k + n);
            let ghost sofar = ngram_keys(out@);
            if is_long_enough(&run) {
                out.push(run);
                assert(ngram_keys(out@) =~= sofar.push(texts(run@)));
            }
            assert(ngram_keys(out@) =~= base + runs_starting(all, n as nat, (k + 1) as nat));
            k += 1;
        }
        shorter += 1;
    }
    proof {
        if max_n as nat >= all.len() {
            lemma_no_longer_runs(all, max_n as nat);
        }
        if top <= 1 {
            assert(ngrams_of(all, top as nat) =~= ngrams_of(all, 1));
        }
    }
    out
}

/// A counted run that a word completes.
#[derive(Debug)]
pub struct NgramHit {
    pub n: usize,
    pub key: Vec<String>,
    pub freq: usize,
}

/// The mathematical content of an `NgramHit`.
#[verifier::ext_equal]
pub struct HitView {
    pub n: nat,
    pub key: Seq<Seq<char>>,
    pub freq: nat,
}

impl View for NgramHit {
    type V = HitView;

    open spec fn view(&self) -> HitView {
        HitView { n: self.n as nat, key: texts(self.key@), freq: self.freq as nat }
    }
}

/// The contents of a list of hits.
pub open spec fn hit_views(hs: Seq<NgramHit>) -> Seq<HitView> {
    Seq::new(hs.len(), |i: int| hs[i]@)
}

/// What surrounds a word: the stems before and after it, and the counted runs.
#[verifier::ext_equal]
pub struct Surroundings {
    pub before: Seq<Seq<char>>,
    pub after: Seq<Seq<char>>,
    pub ngrams: Map<Seq<Seq<char>>, usize>,
    pub min_freq: nat,
}

/// The run of `n` stems that ends in the word.
pub open spec fn run_before(stem: Seq<char>, s: Surroundings, n: nat) -> Seq<Seq<char>> {
    s.before.skip(s.before.len() - (n - 1)).push(stem)
}

/// The run of `n` stems that starts with the word.
pub open spec fn run_after(stem: Seq<char>, s: Surroundings, n: nat) -> Seq<Seq<char>> {
    seq![stem] + s.after.take(n - 1)
}

/// A run as a hit, if it is frequent enough.
pub open spec fn hit_if_frequent(run: Seq<Seq<char>>, s: Surroundings) -> Seq<HitView> {
    let freq = count_of(s.ngrams, run);
    if freq >= s.min_freq {
        seq![HitView { n: run.len(), key: run, freq }]
    } else {
        Seq::empty()
    }
}

/// The hits of exactly `n` stems: first the run before the word, then the one after it.
pub open spec fn hits_at(stem: Seq<char>, s: Surroundings, n: nat) -> Seq<HitView> {
    (if s.before.len() >= n - 1 {
        hit_if_frequent(run_before(stem, s, n), s)
    } else {
        Seq::empty()
    }) + (if s.after.len() >= n - 1 {
        hit_if_frequent(run_after(stem, s, n), s)
    } else {
        Seq::empty()
    })
}

/// The hits of `max_n` stems down to two.
pub open spec fn context_hits(stem: Seq<char>, s: Surroundings, max_n: nat) -> Seq<HitView>
    decreases max_n,
{
    if max_n < 2 {
        Seq::empty()
    } else {
        hits_at(stem, s, max_n) + context_hits(stem, s, (max_n - 1) as nat)
    }
}

/// What surrounds a word whose neighbours have the stems given.
pub open spec fn surroundings(
    prev_stems: Seq<String>,
    next_stems: Seq<String>,
    stats: &GlobalStats,
    min_freq: usize,
) -> Surroundings {
    Surroundings {
        before: texts(prev_stems),
        after: texts(next_stems),
        ngrams: stats.ngrams@,
        min_freq: min_freq as nat,
    }
}

/// Adds a run to the hits if it is frequent enough.
fn push_if_frequent(
    hits: &mut Vec<NgramHit>,
    key: Vec<String>,
    stats: &GlobalStats,
    min_freq: usize,
    Ghost(s): Ghost<Surroundings>,
)
    requires
        s.ngrams == stats.ngrams@,
        s.min_freq == min_freq,
    ensures
        hit_views(final(hits)@) == hit_views(old(hits)@) + hit_if_frequent(texts(key@), s),
{
    let ghost sofar = hit_views(hits@);
    let freq: usize = stats.ngram_freq(key.as_slice());
    if freq >= min_freq {
        let n: usize = key.len();
        let hit = NgramHit { n, key, freq };
        let ghost v = hit@;
        hits.push(hit);
        assert(hit_views(hits@) =~= sofar + seq![v]);
    }
    assert(hit_views(hits@) =~= sofar + hit_if_frequent(texts(key@), s));
}

/// The frequent runs that a word with the stem `cand_stem` completes between its neighbours,
/// from `max_n` stems down to two.
pub fn ngram_context(
    cand_stem: &str,
    prev_stems: &[String],
    next_stems: &[String],
    stats: &GlobalStats,
    min_freq: usize,
    max_n: usize,
) -> (r: Vec<NgramHit>)
    ensures
        hit_views(r@) == context_hits(
            cand_stem@,
            surroundings(prev_stems@, next_stems@, stats, min_freq),
            max_n as nat,
        ),
{
    let ghost s = surroundings(prev_stems@, next_stems@, stats, min_freq);
    let mut hits: Vec<NgramHit> = Vec::new();
    let mut n: usize = max_n;
    assert(hit_views(hits@) + context_hits(cand_stem@, s, n as nat) =~= context_hits(
        cand_stem@,
        s,
        n as nat,
    ));
    while n >= 2
        invariant
            s == surroundings(prev_stems@, next_stems@, stats, min_freq),
            hit_views(hits@) + context_hits(cand_stem@, s, n as nat) == context_hits(
                cand_stem@,
                s,
                max_n as nat,
            ),
        decreases n,
    {
        let ghost sofar = hit_views(hits@);
        let side: usize = n - 1;
        if prev_stems.len() >= side {
            let mut key = clone_range(prev_stems, prev_stems.len() - side, prev_stems.len());
            let ghost head = texts(key@);
            key.push(cand_stem.to_string());
            assert(texts(key@) =~= head.push(cand_stem@));
            assert(texts(key@) =~= run_before(cand_stem@, s, n as nat));
            push_if_frequent(&mut hits, key, stats, min_freq, Ghost(s));
        }
        if next_stems.len() >= side {
            let mut key: Vec<String> = Vec::new();
            key.push(cand_stem.to_string());
            let mut tail = clone_range(next_stems, 0, side);
            let ghost end = texts(tail@);
            key.append(&mut tail);
            assert(texts(key@) =~= seq![cand_stem@] + end);
            assert(texts(key@) =~= run_after(cand_stem@, s, n as nat));
            push_if_frequent(&mut hits, key, stats, min_freq, Ghost(s));
        }
        assert(hit_views(hits@) =~= sofar + hits_at(cand_stem@, s, n as nat));
        assert(hit_views(hits@) + context_hits(cand_stem@, s, (n - 1) as nat) =~= sofar + (hits_at(
            cand_stem@,
            s,
            n as nat,
        ) + context_hits(cand_stem@, s, (n - 1) as nat)));
        n -= 1;
    }
    assert(hit_views(hits@) + context_hits(cand_stem@, s, n as nat) =~= hit_views(hits@));
    hits
}

/// A hit in words: its length, its stems and its count.
pub open spec fn hit_label(h: HitView) -> Seq<char> {
    decimal(h.n) + "-gram «"@ + spaced(h.key) + "»:"@ + decimal(h.freq)
}

/// Renders a hit: its length, its stems and its count.
pub fn label_of_hit(h: &NgramHit) -> (r: String)
    ensures
        r@ == hit_label(h@),
{
    let mut out = String::new();
    push_decimal(&mut out, h.n);
    out.append("-gram «");
    out.append(join_spaced(h.key.as_slice()).as_str());
    out.append("»:");
    push_decimal(&mut out, h.freq);
    assert(out@ =~= hit_label(h@));
    out
}

} // verus!

//! What is learned from the texts: counts of errors, of confused characters and of n-grams.

use crate::counts::{count_of, lists_table};
use crate::examples::{ExampleBook, ExampleView};
use crate::tables::{
    ngram_list, repeated_only, rule_list, LetterCounts, NgramCounts, PairCounts, RuleCounts,
};
use crate::text::{clone_texts, texts};
use vstd::prelude::*;

verus! {

/// Everything that is counted while texts are read.
pub struct GlobalStats {
    /// Wrong stretches with the right ones that replace them.
    pub error_matrix: RuleCounts,
    /// Wrong characters with the right ones.
    pub ocr_confusions: PairCounts,
    /// Right characters that were missing.
    pub ocr_insertions: LetterCounts,
    /// Wrong characters that were too many.
    pub ocr_deletions: LetterCounts,
    /// Runs of stems of known words.
    pub ngrams: NgramCounts,
    /// Examples of substitutions.
    pub examples_sub: ExampleBook,
    /// Unknown words that were examined.
    pub total_oov: usize,
    /// Unknown words for which a known word was found.
    pub total_matched: usize,
    /// Unknown words left alone as proper nouns.
    pub skipped_proper_nouns: usize,
    /// Corrections found among single-character variants.
    pub fast_path_hits: usize,
    /// Corrections found among dictionary words.
    pub slow_path_hits: usize,
    /// Records that were read.
    pub processed: usize,
}

/// The mathematical content of `GlobalStats`.
#[verifier::ext_equal]
pub struct StatsView {
    pub error_matrix: Map<(Seq<char>, Seq<char>), usize>,
    pub ocr_confusions: Map<(char, char), usize>,
    pub ocr_insertions: Map<char, usize>,
    pub ocr_deletions: Map<char, usize>,
    pub ngrams: Map<Seq<Seq<char>>, usize>,
    pub examples_sub: Map<(char, char), Seq<ExampleView>>,
    pub total_oov: usize,
    pub total_matched: usize,
    pub skipped_proper_nouns: usize,
    pub fast_path_hits: usize,
    pub slow_path_hits: usize,
    pub processed: usize,
}

impl View for GlobalStats {
    type V = StatsView;

    open spec fn view(&self) -> StatsView {
        StatsView {
            error_matrix: self.error_matrix@,
            ocr_confusions: self.ocr_confusions@,
            ocr_insertions: self.ocr_insertions@,
            ocr_deletions: self.ocr_deletions@,
            ngrams: self.ngrams@,
            examples_sub: self.examples_sub@,
            total_oov: self.total_oov,
            total_matched: self.total_matched,
            skipped_proper_nouns: self.skipped_proper_nouns,
            fast_path_hits: self.fast_path_hits,
            slow_path_hits: self.slow_path_hits,
            processed: self.processed,
        }
    }
}

/// A copy of the counts that can be written down.
#[derive(Debug)]
pub struct Checkpoint {
    pub processed: usize,
    pub total_oov: usize,
    pub total_matched: usize,
    pub skipped_proper_nouns: usize,
    pub error_matrix: Vec<(String, String, usize)>,
    pub ocr_confusions: Vec<(char, char, usize)>,
    pub ocr_insertions: Vec<(char, usize)>,
    pub ocr_deletions: Vec<(char, usize)>,
    pub ngrams: Vec<(Vec<String>, usize)>,
}

/// The entries that a list of counted text pairs stands for.
pub open spec fn rule_triples(es: Seq<(String, String, usize)>) -> Seq<
    ((Seq<char>, Seq<char>), usize),
> {
    Seq::new(es.len(), |i: int| ((es[i].0@, es[i].1@), es[i].2))
}

/// The entries that a list of counted character pairs stands for.
pub open spec fn pair_triples(es: Seq<(char, char, usize)>) -> Seq<((char, char), usize)> {
    Seq::new(es.len(), |i: int| ((es[i].0, es[i].1), es[i].2))
}

/// A table after every entry of a list was written into it, from the first to the last.
pub open spec fn written<K>(m: Map<K, usize>, es: Seq<(K, usize)>) -> Map<K, usize>
    decreases es.len(),
{
    if es.len() == 0 {
        m
    } else {
        written(m, es.drop_last()).insert(es.last().0, es.last().1)
    }
}

impl Checkpoint {
    /// Whether the checkpoint holds exactly what the statistics count.
    pub open spec fn records(&self, s: StatsView) -> bool {
        &&& self.processed == s.processed
        &&& self.total_oov == s.total_oov
        &&& self.total_matched == s.total_matched
        &&& self.skipped_proper_nouns == s.skipped_proper_nouns
        &&& lists_table(rule_triples(self.error_matrix@), s.error_matrix)
        &&& lists_table(pair_triples(self.ocr_confusions@), s.ocr_confusions)
        &&& lists_table(self.ocr_insertions@, s.ocr_insertions)
        &&& lists_table(self.ocr_deletions@, s.ocr_deletions)
        &&& lists_table(ngram_list(self.ngrams@), s.ngrams)
    }
}

proof fn lemma_written_prefix<K>(m: Map<K, usize>, es: Seq<(K, usize)>, n: int)
    requires
        lists_table(es, m),
        0 <= n <= es.len(),
    ensures
        forall|k: K|
            written(Map::<K, usize>::empty(), es.take(n)).contains_key(k) <==> exists|i: int|
                0 <= i < n && (#[trigger] es[i]).0 == k,
        forall|k: K|
            written(Map::<K, usize>::empty(), es.take(n)).contains_key(k) ==> m.contains_key(k)
                && written(Map::<K, usize>::empty(), es.take(n))[k] == m[k],
    decreases n,
{
    let none = Map::<K, usize>::empty();
    if n > 0 {
        lemma_written_prefix(m, es, n - 1);
        assert(es.take(n).drop_last() =~= es.take(n - 1));
        assert(es.take(n).last() == es[n - 1]);
        let before = written(none, es.take(n - 1));
        let after = written(none, es.take(n));
        assert(after == before.insert(es[n - 1].0, es[n - 1].1));
        assert forall|k: K| after.contains_key(k) implies exists|i: int|
            0 <= i < n && (#[trigger] es[i]).0 == k by {
            if k == es[n - 1].0 {
                assert(es[n - 1].0 == k);
            } else {
                assert(before.contains_key(k));
                let i = choose|i: int| 0 <= i < n - 1 && (#[trigger] es[i]).0 == k;
                assert(es[i].0 == k);
            }
        }
        assert forall|k: K|
            (exists|i: int| 0 <= i < n && (#[trigger] es[i]).0 == k) implies after.contains_key(
            k,
        ) by {
            let i = choose|i: int| 0 <= i < n && (#[trigger] es[i]).0 == k;
            if i < n - 1 {
                assert(before.contains_key(k));
            }
        }
    } else {
        assert(es.take(0) =~= Seq::empty());
    }
}

/// Writing every listed entry of a table into an empty one gives the same table.
pub proof fn listed_table_is_rebuilt<K>(m: Map<K, usize>, es: Seq<(K, usize)>)
    requires
        lists_table(es, m),
    ensures
        written(Map::<K, usize>::empty(), es) == m,
{
    lemma_written_prefix(m, es, es.len() as int);
    assert(es.take(es.len() as int) =~= es);
    assert(written(Map::<K, usize>::empty(), es) =~= m) by {
        assert forall|k: K| m.contains_key(k) implies written(
            Map::<K, usize>::empty(),
            es,
        ).contains_key(k) by {
            let i = choose|i: int| 0 <= i < es.len() && es[i].0 == k;
            assert(es[i].0 == k);
        }
    }
}

/// The statistics after a checkpoint was read into them: its numbers replace those that were
/// there, its entries are written over the tables, and the rest stays.
pub open spec fn restored(before: StatsView, cp: &Checkpoint) -> StatsView {
    StatsView {
        processed: cp.processed,
        total_oov: cp.total_oov,
        total_matched: cp.total_matched,
        skipped_proper_nouns: cp.skipped_proper_nouns,
        error_matrix: written(before.error_matrix, rule_triples(cp.error_matrix@)),
        ocr_confusions: written(before.ocr_confusions, pair_triples(cp.ocr_confusions@)),
        ocr_insertions: written(before.ocr_insertions, cp.ocr_insertions@),
        ocr_deletions: written(before.ocr_deletions, cp.ocr_deletions@),
        ngrams: written(before.ngrams, ngram_list(cp.ngrams@)),
        ..before
    }
}

/// Statistics that count nothing.
pub open spec fn fresh_stats() -> StatsView {
    StatsView {
        error_matrix: Map::empty(),
        ocr_confusions: Map::empty(),
        ocr_insertions: Map::empty(),
        ocr_deletions: Map::empty(),
        ngrams: Map::empty(),
        examples_sub: Map::empty(),
        total_oov: 0,
        total_matched: 0,
        skipped_proper_nouns: 0,
        fast_path_hits: 0,
        slow_path_hits: 0,
        processed: 0,
    }
}

/// A checkpoint read into fresh statistics restores everything that was saved: all counts,
/// but not the examples and the numbers of corrections.
pub proof fn checkpoint_restores_counts(saved: StatsView, cp: &Checkpoint)
    requires
        cp.records(saved),
    ensures
        restored(fresh_stats(), cp) == (StatsView {
            examples_sub: Map::empty(),
            fast_path_hits: 0,
            slow_path_hits: 0,
            ..saved
        }),
{
    listed_table_is_rebuilt(saved.error_matrix, rule_triples(cp.error_matrix@));
    listed_table_is_rebuilt(saved.ocr_confusions, pair_triples(cp.ocr_confusions@));
    listed_table_is_rebuilt(saved.ocr_insertions, cp.ocr_insertions@);
    listed_table_is_rebuilt(saved.ocr_deletions, cp.ocr_deletions@);
    listed_table_is_rebuilt(saved.ngrams, ngram_list(cp.ngrams@));
}

fn flat_rules(es: Vec<((String, String), usize)>) -> (r: Vec<(String, String, usize)>)
    ensures
        rule_triples(r@) == rule_list(es@),
{
    let mut out: Vec<(String, String, usize)> = Vec::new();
    let mut i: usize = 0;
    while i < es.len()
        invariant
            i <= es.len(),
            rule_triples(out@) == rule_list(es@).take(i as int),
        decreases es.len() - i,
    {
        let ghost done = rule_triples(out@);
        let ghost next = rule_list(es@)[i as int];
        out.push((es[i].0.0.clone(), es[i].0.1.clone(), es[i].1));
        proof {
            assert(rule_triples(out@) =~= done.push(next));
            assert(rule_list(es@).take(i + 1) =~= done.push(next));
        }
        i += 1;
    }
    assert(rule_list(es@).take(es@.len() as int) =~= rule_list(es@));
    out
}

fn flat_pairs(es: Vec<((char, char), usize)>) -> (r: Vec<(char, char, usize)>)
    ensures
        pair_triples(r@) == es@,
{
    let mut out: Vec<(char, char, usize)> = Vec::new();
    let mut i: usize = 0;
    while i < es.len()
        invariant
            i <= es.len(),
            pair_triples(out@) == es@.take(i as int),
        decreases es.len() - i,
    {
        let ghost done = pair_triples(out@);
        out.push((es[i].0.0, es[i].0.1, es[i].1));
        proof {
            assert(pair_triples(out@) =~= done.push(es@[i as int]));
            assert(es@.take(i + 1) =~= done.push(es@[i as int]));
        }
        i += 1;
    }
    assert(es@.take(es@.len() as int) =~= es@);
    out
}

/// The statistics with the runs forgotten that were seen only once, if there are more runs
/// than `limit`.
pub open spec fn pruned(s: StatsView, limit: usize) -> StatsView {
    if s.ngrams.len() > limit {
        StatsView { ngrams: repeated_only(s.ngrams), ..s }
    } else {
        s
    }
}

/// Forgetting runs keeps the count of every run that was seen more than once.
pub proof fn pruning_keeps_repeated_runs(s: StatsView, limit: usize, run: Seq<Seq<char>>)
    requires
        count_of(s.ngrams, run) > 1,
    ensures
        count_of(pruned(s, limit).ngrams, run) == count_of(s.ngrams, run),
{
}

impl GlobalStats {
    /// Whether the statistics are in order.
    pub open spec fn wf(&self) -> bool {
        self.examples_sub.wf()
    }

    /// Statistics that count nothing yet.
    pub fn new() -> (s: Self)
        ensures
            s.wf(),
            s@ == fresh_stats(),
    {
        GlobalStats {
            error_matrix: RuleCounts::new(),
            ocr_confusions: PairCounts::new(),
            ocr_insertions: LetterCounts::new(),
            ocr_deletions: LetterCounts::new(),
            ngrams: NgramCounts::new(),
            examples_sub: ExampleBook::new(),
            total_oov: 0,
            total_matched: 0,
            skipped_proper_nouns: 0,
            fast_path_hits: 0,
            slow_path_hits: 0,
            processed: 0,
        }
    }

    /// How often a run of stems was counted.
    pub fn ngram_freq(&self, key: &[String]) -> (r: usize)
        ensures
            r == count_of(self.ngrams@, texts(key@)),
    {
        match self.ngrams.get(key) {
            Some(n) => n,
            None => 0,
        }
    }

    /// Forgets the runs that were seen only once, if there are more runs than `limit`.
    /// Returns how many runs there were and how many are left, if any were forgotten.
    pub fn prune_memory(&mut self, limit: usize) -> (r: Option<(usize, usize)>)
        requires
            old(self).wf(),
        ensures
            final(self).wf(),
            final(self)@ == pruned(old(self)@, limit),
            r == (if old(self)@.ngrams.len() > limit {
                Some((old(self)@.ngrams.len() as usize, final(self)@.ngrams.len() as usize))
            } else {
                None
            }),
    {
        let before: usize = self.ngrams.len();
        if before > limit {
            self.ngrams.drop_singles();
            let after: usize = self.ngrams.len();
            Some((before, after))
        } else {
            None
        }
    }

    /// A copy of the counts, in no particular order.
    pub fn to_checkpoint(&self) -> (cp: Checkpoint)
        ensures
            cp.records(self@),
    {
        let ngrams = self.ngrams.entries();
        Checkpoint {
            processed: self.processed,
            total_oov: self.total_oov,
            total_matched: self.total_matched,
            skipped_proper_nouns: self.skipped_proper_nouns,
            error_matrix: flat_rules(self.error_matrix.entries()),
            ocr_confusions: flat_pairs(self.ocr_confusions.entries()),
            ocr_insertions: self.ocr_insertions.entries(),
            ocr_deletions: self.ocr_deletions.entries(),
            ngrams,
        }
    }

    /// Reads a checkpoint into the statistics: its numbers replace those that were
    /// there, its entries are written over the tables.
    pub fn load_checkpoint(&mut self, cp: &Checkpoint)
        requires
            old(self).wf(),
        ensures
            final(self).wf(),
            final(self)@ == restored(old(self)@, cp),
    {
        self.processed = cp.processed;
        self.total_oov = cp.total_oov;
        self.total_matched = cp.total_matched;
        self.skipped_proper_nouns = cp.skipped_proper_nouns;
        restore_rules(&mut self.error_matrix, &cp.error_matrix);
        restore_pairs(&mut self.ocr_confusions, &cp.ocr_confusions);
        restore_letters(&mut self.ocr_insertions, &cp.ocr_insertions);
        restore_letters(&mut self.ocr_deletions, &cp.ocr_deletions);
        restore_runs(&mut self.ngrams, &cp.ngrams);
    }
}

fn restore_rules(t: &mut RuleCounts, es: &Vec<(String, String, usize)>)
    ensures
        final(t)@ == written(old(t)@, rule_triples(es@)),
{
    let ghost all = rule_triples(es@);
    let mut i: usize = 0;
    assert(all.take(0) =~= Seq::empty());
    while i < es.len()
        invariant
            i <= es.len(),
            all == rule_triples(es@),
            t@ == written(old(t)@, all.take(i as int)),
        decreases es.len() - i,
    {
        assert(all.take(i + 1).drop_last() =~= all.take(i as int));
        t.set((es[i].0.clone(), es[i].1.clone()), es[i].2);
        i += 1;
    }
    assert(all.take(all.len() as int) =~= all);
}

fn restore_pairs(t: &mut PairCounts, es: &Vec<(char, char, usize)>)
    ensures
        final(t)@ == written(old(t)@, pair_triples(es@)),
{
    let ghost all = pair_triples(es@);
    let mut i: usize = 0;
    assert(all.take(0) =~= Seq::empty());
    while i < es.len()
        invariant
            i <= es.len(),
            all == pair_triples(es@),
            t@ == written(old(t)@, all.take(i as int)),
        decreases es.len() - i,
    {
        assert(all.take(i + 1).drop_last() =~= all.take(i as int));
        t.set((es[i].0, es[i].1), es[i].2);
        i += 1;
    }
    assert(all.take(all.len() as int) =~= all);
}

fn restore_letters(t: &mut LetterCounts, es: &Vec<(char, usize)>)
    ensures
        final(t)@ == written(old(t)@, es@),
{
    let mut i: usize = 0;
    assert(es@.take(0) =~= Seq::empty());
    while i < es.len()
        invariant
            i <= es.len(),
            t@ == written(old(t)@, es@.take(i as int)),
        decreases es.len() - i,
    {
        assert(es@.take(i + 1).drop_last() =~= es@.take(i as int));
        t.set(es[i].0, es[i].1);
        i += 1;
    }
    assert(es@.take(es@.len() as int) =~= es@);
}

fn restore_runs(t: &mut NgramCounts, es: &Vec<(Vec<String>, usize)>)
    ensures
        final(t)@ == written(old(t)@, ngram_list(es@)),
{
    let ghost all = ngram_list(es@);
    let mut i: usize = 0;
    assert(all.take(0) =~= Seq::empty());
    while i < es.len()
        invariant
            i <= es.len(),
            all == ngram_list(es@),
            t@ == written(old(t)@, all.take(i as int)),
        decreases es.len() - i,
    {
        assert(all.take(i + 1).drop_last() =~= all.take(i as int));
        t.set(clone_texts(es[i].0.as_slice()), es[i].1);
        i += 1;
    }
    assert(all.take(all.len() as int) =~= all);
}

} // verus!

//! The course of a run: batches of lines, learning batch by batch, checkpoints, and the
//! place at which an interrupted run goes on.

use crate::chars::whitespace;
use crate::learn::{has_room_for, taught, Lesson, LessonView};
use crate::stats::{
    checkpoint_restores_counts, fresh_stats, pruned, restored, Checkpoint, GlobalStats, StatsView,
};
use crate::text::{
    chars_of, decimal, decimal_reads_back, ends_with, has_suffix, lemma_decimal_digits,
    number_in, parse_number, trim_chars, trimmed,
};
use vstd::prelude::*;

verus! {

/// Collects what lines hold into batches, from the first line that is not skipped on.
pub struct Intake<T> {
    seen: usize,
    skip: usize,
    size: usize,
    items: Vec<T>,
}

/// The mathematical content of an `Intake`.
#[verifier::ext_equal]
pub struct IntakeView<T> {
    /// How many lines were read.
    pub seen: nat,
    /// How many lines are skipped at the start.
    pub skip: nat,
    /// How many items make a batch.
    pub size: nat,
    /// The items that wait for their batch to be full.
    pub items: Seq<T>,
}

impl<T> View for Intake<T> {
    type V = IntakeView<T>;

    closed spec fn view(&self) -> IntakeView<T> {
        IntakeView {
            seen: self.seen as nat,
            skip: self.skip as nat,
            size: self.size as nat,
            items: self.items@,
        }
    }
}

/// What waits after a line: a line that holds nothing adds nothing.
pub open spec fn with_item<T>(items: Seq<T>, item: Option<T>) -> Seq<T> {
    match item {
        Some(x) => items.push(x),
        None => items,
    }
}

/// The state after one more line.
pub open spec fn after_line<T>(v: IntakeView<T>, item: Option<T>) -> IntakeView<T> {
    let seen = v.seen + 1;
    if seen <= v.skip {
        IntakeView { seen, ..v }
    } else {
        let items = with_item(v.items, item);
        IntakeView {
            seen,
            items: if items.len() >= v.size {
                Seq::empty()
            } else {
                items
            },
            ..v
        }
    }
}

/// The batch that one more line completes, if it does.
pub open spec fn batch_at<T>(v: IntakeView<T>, item: Option<T>) -> Option<Seq<T>> {
    let items = with_item(v.items, item);
    if v.seen + 1 <= v.skip || items.len() < v.size {
        None
    } else {
        Some(items)
    }
}

impl<T> Intake<T> {
    /// Starts before the first line.
    pub fn new(skip: usize, size: usize) -> (r: Self)
        ensures
            r@ == (IntakeView { seen: 0, skip: skip as nat, size: size as nat, items: Seq::<T>::empty() }),
    {
        Intake { seen: 0, skip, size, items: Vec::new() }
    }

    /// How many lines were read.
    pub fn lines_seen(&self) -> (r: usize)
        ensures
            r == self@.seen,
    {
        self.seen
    }

    /// Whether the next line is skipped.
    pub fn skips_next(&self) -> (r: bool)
        ensures
            r == (self@.seen + 1 <= self@.skip),
    {
        self.seen < self.skip
    }

    /// Takes what the next line holds; returns the batch that it completes, if it does.
    pub fn offer(&mut self, item: Option<T>) -> (r: Option<Vec<T>>)
        requires
            old(self)@.seen < usize::MAX,
        ensures
            final(self)@ == after_line(old(self)@, item),
            match r {
                Some(b) => batch_at(old(self)@, item) == Some(b@),
                None => batch_at(old(self)@, item) is None,
            },
    {
        self.seen += 1;
        if self.seen <= self.skip {
            return None;
        }
        if let Some(x) = item {
            self.items.push(x);
        }
        if self.items.len() < self.size {
            return None;
        }
        let mut batch: Vec<T> = Vec::new();
        batch.append(&mut self.items);
        assert(batch@ =~= with_item(old(self)@.items, item));
        Some(batch)
    }

    /// The items that wait after the last line.
    pub fn rest(self) -> (r: Vec<T>)
        ensures
            r@ == self@.items,
    {
        self.items
    }
}

/// The state after a list of lines.
pub open spec fn after_lines<T>(start: IntakeView<T>, lines: Seq<Option<T>>) -> IntakeView<T>
    decreases lines.len(),
{
    if lines.len() == 0 {
        start
    } else {
        after_line(after_lines(start, lines.drop_last()), lines.last())
    }
}

/// Everything that was handed out in batches, one batch after another.
pub open spec fn handed_out<T>(start: IntakeView<T>, lines: Seq<Option<T>>) -> Seq<T>
    decreases lines.len(),
{
    if lines.len() == 0 {
        Seq::empty()
    } else {
        let before = handed_out(start, lines.drop_last());
        match batch_at(after_lines(start, lines.drop_last()), lines.last()) {
            Some(b) => before + b,
            None => before,
        }
    }
}

/// What the lines after the first `skip` hold.
pub open spec fn held<T>(lines: Seq<Option<T>>, skip: nat) -> Seq<T>
    decreases lines.len(),
{
    if lines.len() <= skip {
        Seq::empty()
    } else {
        with_item(held(lines.drop_last(), skip), lines.last())
    }
}

/// Batches lose nothing, double nothing and keep the order: what was handed out, followed by
/// what waits, is what the lines hold that were not skipped.
pub proof fn batches_lose_nothing<T>(skip: nat, size: nat, lines: Seq<Option<T>>)
    ensures
        ({
            let start = IntakeView { seen: 0, skip, size, items: Seq::<T>::empty() };
            &&& after_lines(start, lines).seen == lines.len()
            &&& after_lines(start, lines).skip == skip
            &&& after_lines(start, lines).size == size
            &&& handed_out(start, lines) + after_lines(start, lines).items == held(lines, skip)
        }),
    decreases lines.len(),
{
    let start = IntakeView { seen: 0, skip, size, items: Seq::<T>::empty() };
    if lines.len() == 0 {
        assert(handed_out(start, lines) + after_lines(start, lines).items =~= held(lines, skip));
    } else {
        let before = lines.drop_last();
        batches_lose_nothing(skip, size, before);
        let v = after_lines(start, before);
        let given = handed_out(start, before);
        assert(lines.len() <= skip ==> held(before, skip) =~= held(lines, skip));
        assert(with_item(given + v.items, lines.last()) =~= given + with_item(v.items, lines.last()));
        assert(handed_out(start, lines) + after_lines(start, lines).items =~= held(lines, skip));
    }
}

/// Whether a checkpoint is written between two numbers of records.
pub open spec fn checkpoint_between(prev: nat, cur: nat, every: nat) -> bool {
    prev / every < cur / every
}

/// Whether a checkpoint is written between two numbers of records.
pub fn checkpoint_due(prev: usize, cur: usize, every: usize) -> (r: bool)
    requires
        every > 0,
    ensures
        r == checkpoint_between(prev as nat, cur as nat, every as nat),
{
    prev / every < cur / every
}

/// A checkpoint is written exactly if a multiple of `every` was reached or passed.
pub proof fn checkpoint_at_every_multiple(prev: nat, cur: nat, every: nat)
    requires
        every > 0,
        prev <= cur,
    ensures
        checkpoint_between(prev, cur, every) <==> exists|m: nat|
            prev < #[trigger] (m * every) <= cur,
{
    let p = prev / every;
    let c = cur / every;
    assert(c * every <= cur < c * every + every) by (nonlinear_arith)
        requires
            every > 0,
            c == cur / every,
    ;
    assert(p * every <= prev < p * every + every) by (nonlinear_arith)
        requires
            every > 0,
            p == prev / every,
    ;
    if p < c {
        assert(p * every + every <= c * every) by (nonlinear_arith)
            requires
                p + 1 <= c,
        ;
        assert(prev < c * every <= cur);
    }
    if exists|m: nat| prev < #[trigger] (m * every) <= cur {
        let m = choose|m: nat| prev < #[trigger] (m * every) <= cur;
        assert(p < m) by (nonlinear_arith)
            requires
                p * every < m * every,
        ;
        assert(m <= c) by (nonlinear_arith)
            requires
                m * every < c * every + every,
        ;
    }
}

/// The contents of a list of lessons.
pub open spec fn lesson_views(ls: Seq<Lesson>) -> Seq<LessonView> {
    Seq::new(ls.len(), |i: int| ls[i]@)
}

/// The statistics with a list of lessons recorded, from the first to the last.
pub open spec fn taught_all(s: StatsView, ls: Seq<LessonView>) -> StatsView
    decreases ls.len(),
{
    if ls.len() == 0 {
        s
    } else {
        taught(taught_all(s, ls.drop_last()), ls.last())
    }
}

/// Whether every table has room for what the lessons of a list count.
pub open spec fn has_room_for_all(s: StatsView, ls: Seq<LessonView>) -> bool
    decreases ls.len(),
{
    ls.len() == 0 || (has_room_for_all(s, ls.drop_last()) && has_room_for(
        taught_all(s, ls.drop_last()),
        ls.last(),
    ))
}

proof fn lemma_room_for_start(s: StatsView, ls: Seq<LessonView>, n: int)
    requires
        0 <= n <= ls.len(),
        has_room_for_all(s, ls),
    ensures
        has_room_for_all(s, ls.take(n)),
    decreases ls.len() - n,
{
    if n < ls.len() {
        lemma_room_for_start(s, ls, n + 1);
        assert(ls.take(n + 1).drop_last() =~= ls.take(n));
    } else {
        assert(ls.take(n) =~= ls);
    }
}

/// The statistics with a batch of lessons recorded and its records counted.
pub open spec fn after_batch(s: StatsView, ls: Seq<LessonView>) -> StatsView {
    let t = taught_all(s, ls);
    StatsView { processed: t.processed.wrapping_add(ls.len() as usize), ..t }
}

/// Records a batch of lessons and counts its records. Returns `false` if some count would
/// grow past `usize::MAX`; the statistics are then of no further use.
pub fn learn_batch(stats: &mut GlobalStats, lessons: &[Lesson]) -> (r: bool)
    requires
        old(stats).wf(),
    ensures
        final(stats).wf(),
        r == has_room_for_all(old(stats)@, lesson_views(lessons@)),
        r ==> final(stats)@ == after_batch(old(stats)@, lesson_views(lessons@)),
{
    let ghost start = stats@;
    let ghost all = lesson_views(lessons@);
    let mut i: usize = 0;
    assert(all.take(0) =~= Seq::empty());
    while i < lessons.len()
        invariant
            i <= lessons.len(),
            stats.wf(),
            start == old(stats)@,
            all == lesson_views(lessons@),
            has_room_for_all(start, all.take(i as int)),
            stats@ == taught_all(start, all.take(i as int)),
        decreases lessons.len() - i,
    {
        assert(all.take(i + 1).drop_last() =~= all.take(i as int));
        assert(all.take(i + 1).last() == lessons@[i as int]@);
        if !stats.record(&lessons[i]) {
            proof {
                if has_room_for_all(start, all) {
                    lemma_room_for_start(start, all, i + 1);
                }
            }
            return false;
        }
        i += 1;
    }
    assert(all.take(all.len() as int) =~= all);
    stats.count_processed(lessons.len());
    true
}

/// What is to be done after a batch.
#[derive(Debug)]
pub struct BatchEnd {
    /// How many runs of stems there were and how many are left, if any were forgotten.
    pub pruned: Option<(usize, usize)>,
    /// Whether a checkpoint is to be written.
    pub checkpoint: bool,
}

/// Records a full batch, forgets rare runs if there are too many, and tells whether a
/// checkpoint is to be written. Returns `None` if some count would grow past `usize::MAX`;
/// the statistics are then of no further use.
pub fn finish_batch(
    stats: &mut GlobalStats,
    lessons: &[Lesson],
    prune_limit: usize,
    checkpoint_every: usize,
) -> (r: Option<BatchEnd>)
    requires
        old(stats).wf(),
        checkpoint_every > 0,
    ensures
        final(stats).wf(),
        r is Some == has_room_for_all(old(stats)@, lesson_views(lessons@)),
        r is Some ==> {
            let batch = after_batch(old(stats)@, lesson_views(lessons@));
            &&& final(stats)@ == pruned(batch, prune_limit)
            &&& r->0.pruned == (if batch.ngrams.len() > prune_limit {
                Some((batch.ngrams.len() as usize, final(stats)@.ngrams.len() as usize))
            } else {
                None
            })
            &&& r->0.checkpoint == checkpoint_between(
                old(stats)@.processed as nat,
                final(stats)@.processed as nat,
                checkpoint_every as nat,
            )
        },
{
    let prev: usize = stats.processed;
    if !learn_batch(stats, lessons) {
        return None;
    }
    let pruned = stats.prune_memory(prune_limit);
    let cur: usize = stats.processed;
    Some(BatchEnd { pruned, checkpoint: checkpoint_due(prev, cur, checkpoint_every) })
}

/// The position that a progress note names, if it names one.
pub open spec fn noted_position(note: Seq<char>) -> Option<nat> {
    number_in(trimmed(note))
}

/// The position that a progress note names, if it names one that a machine word holds.
pub fn resume_position(note: &str) -> (r: Option<usize>)
    ensures
        match r {
            Some(n) => noted_position(note@) == Some(n as nat),
            None => noted_position(note@) is None || noted_position(note@)->0 > usize::MAX,
        },
{
    parse_number(trim_chars(chars_of(note).as_slice()).as_slice())
}

proof fn lemma_nothing_to_trim(s: Seq<char>)
    requires
        forall|i: int| 0 <= i < s.len() ==> !whitespace(#[trigger] s[i]),
    ensures
        trimmed(s) == s,
{
    if s.len() > 0 {
        assert(!whitespace(s[0]));
        assert(!whitespace(s[s.len() - 1]));
    }
    assert(trimmed(s) =~= s);
}

/// A position that was noted in decimal is read back.
pub proof fn noted_position_reads_back(n: nat)
    ensures
        noted_position(decimal(n)) == Some(n),
{
    reveal(whitespace);
    decimal_reads_back(n);
    lemma_decimal_digits(n);
    lemma_nothing_to_trim(decimal(n));
}

/// Whether a path names a compressed file.
pub fn is_compressed(path: &str) -> (r: bool)
    ensures
        r == has_suffix(path@, ".zst"@),
{
    ends_with(chars_of(path).as_slice(), ".zst")
}

/// Whether two statistics count the same, whatever their examples and numbers of corrections.
pub open spec fn same_counts(a: StatsView, b: StatsView) -> bool {
    a == (StatsView {
        examples_sub: a.examples_sub,
        fast_path_hits: a.fast_path_hits,
        slow_path_hits: a.slow_path_hits,
        ..b
    })
}

proof fn lemma_same_lessons(a: StatsView, b: StatsView, ls: Seq<LessonView>)
    requires
        same_counts(a, b),
    ensures
        same_counts(taught_all(a, ls), taught_all(b, ls)),
        has_room_for_all(a, ls) == has_room_for_all(b, ls),
    decreases ls.len(),
{
    if ls.len() > 0 {
        lemma_same_lessons(a, b, ls.drop_last());
    }
}

/// A run that goes on from a checkpoint counts what the run would have counted that wrote it.
pub proof fn resumed_run_counts_the_same(saved: StatsView, cp: &Checkpoint, ls: Seq<LessonView>)
    requires
        cp.records(saved),
    ensures
        has_room_for_all(restored(fresh_stats(), cp), ls) == has_room_for_all(saved, ls),
        same_counts(after_batch(restored(fresh_stats(), cp), ls), after_batch(saved, ls)),
{
    checkpoint_restores_counts(saved, cp);
    lemma_same_lessons(restored(fresh_stats(), cp), saved, ls);
}

} // verus!

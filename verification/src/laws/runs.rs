//! How a run goes through its lines, and what it writes of them.

use crate::chars::whitespace;
use crate::correct::{all_changes, corrected_text, plan_of};
use crate::display::{every_change_fills_one_row, merge_rows, pair_rows};
use crate::laws::text::trimmed_texts_stay;
use crate::learn::LessonView;
use crate::output::{
    nothing_written, ranks_by, record_read, written_of, written_of_line, Judgement,
};
use crate::records::{body_of, record_of_line};
use crate::runs::{after_batch, after_line, batch_at, held, noted_position, taught_all, IntakeView};
use crate::stats::StatsView;
use crate::text::{
    all_space, decimal, decimal_reads_back, lemma_decimal_digits, number_in,
    space_around_is_trimmed, trimmed,
};
use vstd::prelude::*;

verus! {

proof fn lemma_filter_push<A>(s: Seq<A>, x: A, f: spec_fn(A) -> bool)
    ensures
        s.push(x).filter(f) == (if f(x) {
            s.filter(f).push(x)
        } else {
            s.filter(f)
        }),
{
    reveal(Seq::filter);
    assert(s.push(x).drop_last() =~= s);
}

/// What a run takes of its lines is what the lines behind those that are skipped hold, in order.
pub proof fn lines_behind_the_skipped_are_taken<T>(lines: Seq<Option<T>>, skip: nat)
    ensures
        held(lines, skip) == (if skip < lines.len() {
            lines.skip(skip as int)
        } else {
            Seq::empty()
        }).filter(|x: Option<T>| x is Some).map_values(|x: Option<T>| x->0),
    decreases lines.len(),
{
    let f = |x: Option<T>| x is Some;
    let g = |x: Option<T>| x->0;
    if lines.len() > skip {
        let less = lines.drop_last();
        let last = lines.last();
        lines_behind_the_skipped_are_taken(less, skip);
        let a = if skip < less.len() {
            less.skip(skip as int)
        } else {
            Seq::empty()
        };
        assert(lines.skip(skip as int) =~= a.push(last));
        lemma_filter_push(a, last, f);
        assert(a.push(last).filter(f).map_values(g) =~= held(lines, skip));
    } else {
        reveal(Seq::filter);
        assert(Seq::<Option<T>>::empty().filter(f).map_values(g) =~= held(lines, skip));
    }
}

/// A batch is handed out as soon as it is full, and then has exactly as many items as a batch
/// has; what waits is never a full batch. A line that is skipped changes nothing but the number
/// of lines.
pub proof fn batches_are_full<T>(v: IntakeView<T>, item: Option<T>)
    requires
        v.items.len() < v.size,
    ensures
        ({
            let next = after_line(v, item);
            &&& next.seen == v.seen + 1
            &&& next.skip == v.skip
            &&& next.size == v.size
            &&& next.items.len() < v.size
            &&& v.seen < v.skip ==> next.items == v.items && batch_at(v, item) is None
            &&& v.seen >= v.skip && item is None ==> next.items == v.items && batch_at(v, item)
                is None
            &&& v.seen >= v.skip && item is Some && v.items.len() + 1 < v.size ==> next.items
                == v.items.push(item->0) && batch_at(v, item) is None
            &&& v.seen >= v.skip && item is Some && v.items.len() + 1 == v.size ==> next.items.len()
                == 0 && batch_at(v, item) == Some(v.items.push(item->0))
        }),
{
}

/// A position that was noted in decimal is read back whatever space stands around it.
pub proof fn noted_positions_are_read_back(before: Seq<char>, n: nat, after: Seq<char>)
    requires
        all_space(before),
        all_space(after),
    ensures
        noted_position(before + decimal(n) + after) == Some(n),
{
    reveal(whitespace);
    lemma_decimal_digits(n);
    decimal_reads_back(n);
    let s = decimal(n);
    assert(crate::chars::is_digit(s[0]));
    assert(crate::chars::is_digit(s[s.len() - 1]));
    trimmed_texts_stay(s);
    space_around_is_trimmed(before, s, after);
}

/// A note that is no number names no position.
pub proof fn other_notes_name_no_position(note: Seq<char>)
    ensures
        noted_position(note) == number_in(trimmed(note)),
        trimmed(note).len() == 0 ==> noted_position(note) is None,
{
}

/// A batch is recorded lesson by lesson, and its records are counted.
pub proof fn batches_count_their_records(s: StatsView, ls: Seq<LessonView>, l: LessonView)
    requires
        s.processed + ls.len() <= usize::MAX,
    ensures
        taught_all(s, Seq::empty()) == s,
        taught_all(s, ls.push(l)) == crate::learn::taught(taught_all(s, ls), l),
        after_batch(s, ls).processed == s.processed + ls.len(),
        after_batch(s, ls).error_matrix == taught_all(s, ls).error_matrix,
{
    assert(ls.push(l).drop_last() =~= ls);
    lemma_processed(s, ls);
}

proof fn lemma_processed(s: StatsView, ls: Seq<LessonView>)
    ensures
        taught_all(s, ls).processed == s.processed,
    decreases ls.len(),
{
    if ls.len() > 0 {
        lemma_processed(s, ls.drop_last());
    }
}

/// A line without a record writes nothing. A line with one writes the record with its text
/// corrected and its title and date as they were, and one row for each change to it.
pub proof fn every_record_is_written(line: Seq<char>, j: Judgement)
    ensures
        ({
            let w = written_of_line(line, j);
            match record_read(line, j) {
                None => w == nothing_written(),
                Some(rec) => {
                    let plan = plan_of(rec.text, j.knowledge);
                    let ranks = ranks_by(plan, j.ranking);
                    &&& w.records.len() == 1
                    &&& w.records[0].text == corrected_text(plan, ranks)
                    &&& w.records[0].title == rec.title
                    &&& w.records[0].date == rec.date
                    &&& w.merges == merge_rows(all_changes(plan, ranks))
                    &&& w.pairs == pair_rows(all_changes(plan, ranks))
                    &&& w.changes == w.merges.len() + w.pairs.len()
                },
            }
        }),
        body_of(line) is Some ==> record_read(line, j) == record_of_line(
            line,
            (j.reading)(body_of(line)->0),
        ),
        body_of(line) is None ==> record_read(line, j) is None,
{
    if let Some(rec) = record_read(line, j) {
        let plan = plan_of(rec.text, j.knowledge);
        every_change_fills_one_row(all_changes(plan, ranks_by(plan, j.ranking)));
    }
}

/// What is written of lines is what is written of each, in order.
pub proof fn lines_are_written_in_order(lines: Seq<Seq<char>>, line: Seq<char>, j: Judgement)
    ensures
        ({
            let before = written_of(lines, j);
            let after = written_of(lines.push(line), j);
            let w = written_of_line(line, j);
            &&& written_of(Seq::empty(), j) == nothing_written()
            &&& after.records == before.records + w.records
            &&& after.merges == before.merges + w.merges
            &&& after.pairs == before.pairs + w.pairs
            &&& after.changes == before.changes + w.changes
            &&& nothing_written().records.len() == 0
            &&& nothing_written().merges.len() == 0
            &&& nothing_written().pairs.len() == 0
            &&& nothing_written().changes == 0
        }),
{
    assert(lines.push(line).drop_last() =~= lines);
}

} // verus!

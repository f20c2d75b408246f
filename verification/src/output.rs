//! What the second pass writes of the lines of its input, line by line and batch by batch.

use crate::candidates::{CandidateView, KnowledgeView};
use crate::correct::{all_changes, corrected_text, plan_of, ranks_fit, PlanView};
use crate::display::{merge_rows, pair_rows};
use crate::records::{body_of, record_of_line, RecordView};
use crate::report::ScoredRowView;
use crate::runs::{after_lines, batch_at, batches_lose_nothing, handed_out, held, IntakeView};
use vstd::prelude::*;

verus! {

/// What a run writes: the corrected records, the rows of joins and of corrected words, and
/// how many changes there were.
#[verifier::ext_equal]
pub struct Written {
    pub records: Seq<RecordView>,
    pub merges: Seq<Seq<char>>,
    pub pairs: Seq<ScoredRowView>,
    pub changes: nat,
}

/// Nothing written.
pub open spec fn nothing_written() -> Written {
    Written { records: Seq::empty(), merges: Seq::empty(), pairs: Seq::empty(), changes: 0 }
}

/// What is written in two steps.
pub open spec fn followed_by(a: Written, b: Written) -> Written {
    Written {
        records: a.records + b.records,
        merges: a.merges + b.merges,
        pairs: a.pairs + b.pairs,
        changes: a.changes + b.changes,
    }
}

/// What judges the lines of a run: what corrections are judged by, what reading a body as
/// JSON gives, and the rank of each candidate.
pub struct Judgement {
    pub knowledge: KnowledgeView,
    pub reading: spec_fn(Seq<char>) -> Option<RecordView>,
    pub ranking: spec_fn(CandidateView) -> i64,
}

/// The ranks of all candidates of a plan.
pub open spec fn ranks_by(plan: PlanView, ranking: spec_fn(CandidateView) -> i64) -> Seq<Seq<i64>> {
    Seq::new(
        plan.planned.len(),
        |j: int|
            Seq::new(
                plan.planned[j].options.len(),
                |c: int| ranking(plan.planned[j].options[c]),
            ),
    )
}

/// Ranking every candidate gives ranks that fit the plan.
pub proof fn ranking_fits(plan: PlanView, ranking: spec_fn(CandidateView) -> i64)
    ensures
        ranks_fit(plan, ranks_by(plan, ranking)),
{
}

/// The record of a line, if it makes one.
pub open spec fn record_read(line: Seq<char>, j: Judgement) -> Option<RecordView> {
    let parsed = match body_of(line) {
        Some(body) => (j.reading)(body),
        None => None,
    };
    record_of_line(line, parsed)
}

/// What is written of a record.
pub open spec fn written_of_record(rec: RecordView, j: Judgement) -> Written {
    let plan = plan_of(rec.text, j.knowledge);
    let ranks = ranks_by(plan, j.ranking);
    let changes = all_changes(plan, ranks);
    Written {
        records: seq![RecordView { text: corrected_text(plan, ranks), ..rec }],
        merges: merge_rows(changes),
        pairs: pair_rows(changes),
        changes: changes.len(),
    }
}

/// What is written of a line: a line without a record writes nothing.
pub open spec fn written_of_line(line: Seq<char>, j: Judgement) -> Written {
    match record_read(line, j) {
        Some(rec) => written_of_record(rec, j),
        None => nothing_written(),
    }
}

/// What is written of a list of lines, from the first to the last.
pub open spec fn written_of(lines: Seq<Seq<char>>, j: Judgement) -> Written
    decreases lines.len(),
{
    if lines.len() == 0 {
        nothing_written()
    } else {
        followed_by(written_of(lines.drop_last(), j), written_of_line(lines.last(), j))
    }
}

/// Lines as they are offered to an intake: each is kept.
pub open spec fn offered(lines: Seq<Seq<char>>) -> Seq<Option<Seq<char>>> {
    Seq::new(lines.len(), |i: int| Some(lines[i]))
}

/// An intake before the first line.
pub open spec fn before_first(skip: nat, size: nat) -> IntakeView<Seq<char>> {
    IntakeView { seen: 0, skip, size, items: Seq::empty() }
}

/// What is written of the batches that a list of lines completes.
pub open spec fn written_of_batches(
    skip: nat,
    size: nat,
    lines: Seq<Seq<char>>,
    j: Judgement,
) -> Written
    decreases lines.len(),
{
    if lines.len() == 0 {
        nothing_written()
    } else {
        let rest = lines.drop_last();
        let before = written_of_batches(skip, size, rest, j);
        match batch_at(after_lines(before_first(skip, size), offered(rest)), Some(lines.last())) {
            Some(batch) => followed_by(before, written_of(batch, j)),
            None => before,
        }
    }
}

/// What a run writes: the batches as they are completed, and then what still waits.
pub open spec fn written_by_run(
    skip: nat,
    size: nat,
    lines: Seq<Seq<char>>,
    j: Judgement,
) -> Written {
    followed_by(
        written_of_batches(skip, size, lines, j),
        written_of(after_lines(before_first(skip, size), offered(lines)).items, j),
    )
}

proof fn lemma_written_of_sum(a: Seq<Seq<char>>, b: Seq<Seq<char>>, j: Judgement)
    ensures
        written_of(a + b, j) == followed_by(written_of(a, j), written_of(b, j)),
    decreases b.len(),
{
    if b.len() == 0 {
        assert(a + b =~= a);
        assert(followed_by(written_of(a, j), written_of(b, j)) =~= written_of(a, j));
    } else {
        assert((a + b).drop_last() =~= a + b.drop_last());
        lemma_written_of_sum(a, b.drop_last(), j);
        assert(written_of(a + b, j) =~= followed_by(written_of(a, j), written_of(b, j)));
    }
}

proof fn lemma_written_of_batches(skip: nat, size: nat, lines: Seq<Seq<char>>, j: Judgement)
    ensures
        written_of_batches(skip, size, lines, j) == written_of(
            handed_out(before_first(skip, size), offered(lines)),
            j,
        ),
    decreases lines.len(),
{
    if lines.len() > 0 {
        let rest = lines.drop_last();
        let start = before_first(skip, size);
        lemma_written_of_batches(skip, size, rest, j);
        assert(offered(lines).drop_last() =~= offered(rest));
        let given = handed_out(start, offered(rest));
        if let Some(batch) = batch_at(after_lines(start, offered(rest)), Some(lines.last())) {
            lemma_written_of_sum(given, batch, j);
        }
    }
}

proof fn lemma_held(skip: nat, lines: Seq<Seq<char>>)
    ensures
        held(offered(lines), skip) == (if lines.len() <= skip {
            Seq::empty()
        } else {
            lines.skip(skip as int)
        }),
    decreases lines.len(),
{
    if lines.len() > skip {
        let rest = lines.drop_last();
        assert(offered(lines).drop_last() =~= offered(rest));
        lemma_held(skip, rest);
        assert(held(offered(lines), skip) =~= lines.skip(skip as int));
    }
}

/// What a run writes does not depend on the size of its batches: it is what is written of the
/// lines that are not skipped, one after another.
pub proof fn output_does_not_depend_on_batches(
    skip: nat,
    size: nat,
    lines: Seq<Seq<char>>,
    j: Judgement,
)
    ensures
        written_by_run(skip, size, lines, j) == (if lines.len() <= skip {
            nothing_written()
        } else {
            written_of(lines.skip(skip as int), j)
        }),
{
    let start = before_first(skip, size);
    let given = handed_out(start, offered(lines));
    let items = after_lines(start, offered(lines)).items;
    lemma_written_of_batches(skip, size, lines, j);
    batches_lose_nothing(skip, size, offered(lines));
    lemma_held(skip, lines);
    lemma_written_of_sum(given, items, j);
}

/// Two runs over the same lines that differ only in the size of their batches write the same.
pub proof fn runs_of_any_batch_size_agree(
    skip: nat,
    one: nat,
    two: nat,
    lines: Seq<Seq<char>>,
    j: Judgement,
)
    ensures
        written_by_run(skip, one, lines, j) == written_by_run(skip, two, lines, j),
{
    output_does_not_depend_on_batches(skip, one, lines, j);
    output_does_not_depend_on_batches(skip, two, lines, j);
}

} // verus!

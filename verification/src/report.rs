//! What is written about a run: tables of counts, examples, and the changes to a text.

use crate::counts::lists_table;
use crate::examples::{
    example_views, examples_of, rule_name, rule_name_of, Example, ExampleBook, ExampleView,
};
use crate::order::{by_count, count_keys, count_order, descending, order_of, sort_by_count};
use crate::stats::GlobalStats;
use crate::tables::{ngram_list, rule_list};
use crate::text::{decimal, join_spaced, push_decimal, spaced, texts};
use vstd::prelude::*;

verus! {

/// A pair of confused characters with its count, as a row of a table.
pub open spec fn confusion_row(e: ((char, char), usize)) -> Seq<char> {
    seq![e.0.0] + "\t"@ + seq![e.0.1] + "\t"@ + decimal(e.1 as nat)
}

/// A character with its count, as a row of a table.
pub open spec fn letter_row(e: (char, usize)) -> Seq<char> {
    seq![e.0] + "\t"@ + decimal(e.1 as nat)
}

/// A list of counted pairs as rows, the greatest counts first.
pub open spec fn confusion_table(es: Seq<((char, char), usize)>) -> Seq<Seq<char>> {
    Seq::new(es.len(), |i: int| confusion_row(by_count(es)[i]))
}

/// A list of counted characters as rows, the greatest counts first.
pub open spec fn letter_table(es: Seq<(char, usize)>) -> Seq<Seq<char>> {
    Seq::new(es.len(), |i: int| letter_row(by_count(es)[i]))
}

/// Renders a list of counted pairs as rows, the greatest counts first.
pub fn confusion_rows(es: &[((char, char), usize)]) -> (r: Vec<String>)
    ensures
        texts(r@) == confusion_table(es@),
{
    let sorted = sort_by_count(es);
    let mut out: Vec<String> = Vec::new();
    let mut i: usize = 0;
    while i < sorted.len()
        invariant
            i <= sorted.len(),
            sorted@ == by_count(es@),
            texts(out@) == confusion_table(es@).take(i as int),
        decreases sorted.len() - i,
    {
        let (pair, n) = sorted[i];
        let mut row = String::new();
        row.push(pair.0);
        row.append("\t");
        row.push(pair.1);
        row.append("\t");
        push_decimal(&mut row, n);
        assert(row@ =~= confusion_row(sorted@[i as int]));
        let ghost done = texts(out@);
        out.push(row);
        assert(texts(out@) =~= done.push(confusion_row(sorted@[i as int])));
        assert(confusion_table(es@).take(i + 1) =~= done.push(confusion_row(sorted@[i as int])));
        i += 1;
    }
    assert(confusion_table(es@).take(es@.len() as int) =~= confusion_table(es@));
    out
}

/// Renders a list of counted characters as rows, the greatest counts first.
pub fn letter_rows(es: &[(char, usize)]) -> (r: Vec<String>)
    ensures
        texts(r@) == letter_table(es@),
{
    let sorted = sort_by_count(es);
    let mut out: Vec<String> = Vec::new();
    let mut i: usize = 0;
    while i < sorted.len()
        invariant
            i <= sorted.len(),
            sorted@ == by_count(es@),
            texts(out@) == letter_table(es@).take(i as int),
        decreases sorted.len() - i,
    {
        let (c, n) = sorted[i];
        let mut row = String::new();
        row.push(c);
        row.append("\t");
        push_decimal(&mut row, n);
        assert(row@ =~= letter_row(sorted@[i as int]));
        let ghost done = texts(out@);
        out.push(row);
        assert(texts(out@) =~= done.push(letter_row(sorted@[i as int])));
        assert(letter_table(es@).take(i + 1) =~= done.push(letter_row(sorted@[i as int])));
        i += 1;
    }
    assert(letter_table(es@).take(es@.len() as int) =~= letter_table(es@));
    out
}

/// An error with its count, under the label that a table of errors has for it.
pub open spec fn labelled(e: ((Seq<char>, Seq<char>), usize)) -> (Seq<char>, usize) {
    (e.0.0 + " -> "@ + e.0.1, e.1)
}

/// A list of counted errors under their labels, the greatest counts first.
pub open spec fn matrix_table(es: Seq<((Seq<char>, Seq<char>), usize)>) -> Seq<(Seq<char>, usize)> {
    Seq::new(es.len(), |i: int| labelled(by_count(es)[i]))
}

/// The contents of a list of labelled counts.
pub open spec fn label_list(es: Seq<(String, usize)>) -> Seq<(Seq<char>, usize)> {
    Seq::new(es.len(), |i: int| (es[i].0@, es[i].1))
}

/// Puts labels on a list of counted errors, the greatest counts first.
pub fn matrix_rows(es: &[((String, String), usize)]) -> (r: Vec<(String, usize)>)
    ensures
        label_list(r@) == matrix_table(rule_list(es@)),
{
    let ghost vs = rule_list(es@);
    let order = count_order(es);
    assert(count_keys(es@) =~= count_keys(vs));
    let mut out: Vec<(String, usize)> = Vec::new();
    let mut i: usize = 0;
    while i < order.len()
        invariant
            i <= order.len(),
            vs == rule_list(es@),
            order@ == order_of(count_keys(vs)),
            descending(count_keys(vs), order@),
            label_list(out@) == matrix_table(vs).take(i as int),
        decreases order.len() - i,
    {
        assert(order@[i as int] < es@.len());
        let e = &es[order[i]];
        let mut label = e.0.0.clone();
        label.append(" -> ");
        label.append(e.0.1.as_str());
        let ghost row = labelled(by_count(vs)[i as int]);
        assert(by_count(vs)[i as int] == vs[order@[i as int] as int]);
        assert(label@ =~= row.0);
        let ghost done = label_list(out@);
        out.push((label, e.1));
        assert(label_list(out@) =~= done.push(row));
        assert(matrix_table(vs).take(i + 1) =~= done.push(row));
        i += 1;
    }
    assert(matrix_table(vs).take(vs.len() as int) =~= matrix_table(vs));
    out
}

/// How many runs of each length are reported.
pub const TOP_RUNS: usize = 500;

/// The runs of `n` stems that were counted at least `min` times, in order.
pub open spec fn runs_of_length(es: Seq<(Seq<Seq<char>>, usize)>, n: nat, min: nat) -> Seq<
    (Seq<Seq<char>>, usize),
>
    decreases es.len(),
{
    if es.len() == 0 {
        Seq::empty()
    } else {
        let before = runs_of_length(es.drop_last(), n, min);
        if es.last().0.len() == n && es.last().1 >= min {
            before.push(es.last())
        } else {
            before
        }
    }
}

/// A run of stems with its count, as a row of a table.
pub open spec fn run_row(n: nat, e: (Seq<Seq<char>>, usize)) -> Seq<char> {
    decimal(n) + "\t"@ + decimal(e.1 as nat) + "\t"@ + spaced(e.0)
}

/// How many rows a table has that shows at most `most` of `len` entries.
pub open spec fn at_most(len: nat, most: nat) -> nat {
    if len <= most {
        len
    } else {
        most
    }
}

/// The most frequent runs of `n` stems as rows, the greatest counts first.
pub open spec fn rows_of_length(es: Seq<(Seq<Seq<char>>, usize)>, n: nat, min: nat) -> Seq<Seq<char>> {
    let runs = runs_of_length(es, n, min);
    Seq::new(at_most(runs.len(), TOP_RUNS as nat), |i: int| run_row(n, by_count(runs)[i]))
}

/// The most frequent runs as rows, from `max_n` stems down to two.
pub open spec fn ngram_table(es: Seq<(Seq<Seq<char>>, usize)>, max_n: nat, min: nat) -> Seq<Seq<char>>
    decreases max_n,
{
    if max_n < 2 {
        Seq::empty()
    } else {
        rows_of_length(es, max_n, min) + ngram_table(es, (max_n - 1) as nat, min)
    }
}

/// The smaller of two numbers.
pub fn lesser(a: usize, b: usize) -> (r: usize)
    ensures
        r == at_most(a as nat, b as nat),
{
    if a <= b {
        a
    } else {
        b
    }
}

/// Where the runs of `n` stems stand that were counted at least `min` times, with their counts.
fn pick_length(es: &[(Vec<String>, usize)], n: usize, min: usize) -> (r: Vec<(usize, usize)>)
    ensures
        r@.len() == runs_of_length(ngram_list(es@), n as nat, min as nat).len(),
        forall|i: int|
            0 <= i < r@.len() ==> (#[trigger] r@[i]).0 < es@.len() && (
            ngram_list(es@)[r@[i].0 as int] == runs_of_length(
                ngram_list(es@),
                n as nat,
                min as nat,
            )[i]) && r@[i].1 == es@[r@[i].0 as int].1,
{
    let ghost vs = ngram_list(es@);
    let mut out: Vec<(usize, usize)> = Vec::new();
    let mut i: usize = 0;
    while i < es.len()
        invariant
            i <= es.len(),
            vs == ngram_list(es@),
            out@.len() == runs_of_length(vs.take(i as int), n as nat, min as nat).len(),
            forall|x: int|
                0 <= x < out@.len() ==> (#[trigger] out@[x]).0 < es@.len() && (vs[out@[x].0 as int]
                    == runs_of_length(vs.take(i as int), n as nat, min as nat)[x]) && out@[x].1
                    == es@[out@[x].0 as int].1,
        decreases es.len() - i,
    {
        assert(vs.take(i + 1).drop_last() =~= vs.take(i as int));
        assert(vs[i as int] == (texts(es@[i as int].0@), es@[i as int].1));
        if es[i].0.len() == n && es[i].1 >= min {
            out.push((i, es[i].1));
        }
        i += 1;
    }
    assert(vs.take(vs.len() as int) =~= vs);
    out
}

/// Adds the most frequent runs of `n` stems as rows.
fn add_rows_of_length(out: &mut Vec<String>, es: &[(Vec<String>, usize)], n: usize, min: usize)
    ensures
        texts(final(out)@) == texts(old(out)@) + rows_of_length(
            ngram_list(es@),
            n as nat,
            min as nat,
        ),
{
    let ghost start = texts(out@);
    let ghost vs = ngram_list(es@);
    let ghost runs = runs_of_length(vs, n as nat, min as nat);
    let ghost rows = rows_of_length(vs, n as nat, min as nat);
    let picked = pick_length(es, n, min);
    let order = count_order(picked.as_slice());
    assert(count_keys(picked@) =~= count_keys(runs)) by {
        assert forall|x: int| 0 <= x < runs.len() implies picked@[x].1 == runs[x].1 by {
            assert(vs[picked@[x].0 as int].1 == es@[picked@[x].0 as int].1);
        }
    }
    let count: usize = lesser(picked.len(), TOP_RUNS);
    let mut i: usize = 0;
    assert(texts(out@) =~= start + rows.take(0));
    while i < count
        invariant
            i <= count,
            count == at_most(runs.len(), TOP_RUNS as nat),
            vs == ngram_list(es@),
            runs == runs_of_length(vs, n as nat, min as nat),
            rows == rows_of_length(vs, n as nat, min as nat),
            picked@.len() == runs.len(),
            forall|x: int|
                0 <= x < picked@.len() ==> (#[trigger] picked@[x]).0 < es@.len() && (
                vs[picked@[x].0 as int] == runs[x]) && picked@[x].1 == es@[picked@[x].0 as int].1,
            order@ == order_of(count_keys(runs)),
            descending(count_keys(runs), order@),
            texts(out@) == start + rows.take(i as int),
        decreases count - i,
    {
        let ghost at = order@[i as int] as int;
        assert(at < runs.len());
        let pick = picked[order[i]];
        let e = &es[pick.0];
        assert(runs[at] == (texts(e.0@), e.1));
        assert(by_count(runs)[i as int] == runs[at]);
        let mut row = String::new();
        push_decimal(&mut row, n);
        row.append("\t");
        push_decimal(&mut row, e.1);
        row.append("\t");
        row.append(join_spaced(e.0.as_slice()).as_str());
        assert(row@ =~= rows[i as int]);
        let ghost done = texts(out@);
        out.push(row);
        assert(texts(out@) =~= done.push(rows[i as int]));
        assert(start + rows.take(i + 1) =~= done.push(rows[i as int]));
        i += 1;
    }
    assert(rows.take(rows.len() as int) =~= rows);
}

/// Renders the most frequent runs as rows, from `max_n` stems down to two.
pub fn ngram_rows(es: &[(Vec<String>, usize)], max_n: usize, min: usize) -> (r: Vec<String>)
    ensures
        texts(r@) == ngram_table(ngram_list(es@), max_n as nat, min as nat),
{
    let ghost vs = ngram_list(es@);
    let mut out: Vec<String> = Vec::new();
    let mut n: usize = max_n;
    assert(texts(out@) + ngram_table(vs, max_n as nat, min as nat) =~= ngram_table(
        vs,
        max_n as nat,
        min as nat,
    ));
    while n >= 2
        invariant
            vs == ngram_list(es@),
            texts(out@) + ngram_table(vs, n as nat, min as nat) == ngram_table(
                vs,
                max_n as nat,
                min as nat,
            ),
        decreases n,
    {
        let ghost done = texts(out@);
        add_rows_of_length(&mut out, es, n, min);
        assert(texts(out@) + ngram_table(vs, (n - 1) as nat, min as nat) =~= done + ngram_table(
            vs,
            n as nat,
            min as nat,
        ));
        n -= 1;
    }
    assert(texts(out@) + ngram_table(vs, n as nat, min as nat) =~= texts(out@));
    out
}

/// A row with a score in it, in two parts around the score. `rank` stands for the score.
#[derive(Debug)]
pub struct ScoredRow {
    pub head: String,
    pub rank: i64,
    pub tail: String,
}

/// The mathematical content of a `ScoredRow`.
#[verifier::ext_equal]
pub struct ScoredRowView {
    pub head: Seq<char>,
    pub rank: i64,
    pub tail: Seq<char>,
}

impl View for ScoredRow {
    type V = ScoredRowView;

    open spec fn view(&self) -> ScoredRowView {
        ScoredRowView { head: self.head@, rank: self.rank, tail: self.tail@ }
    }
}

/// The contents of a list of rows.
pub open spec fn scored_views(rs: Seq<ScoredRow>) -> Seq<ScoredRowView> {
    Seq::new(rs.len(), |i: int| rs[i]@)
}

/// For how many pairs examples are reported.
pub const TOP_PAIRS: usize = 50;

/// How many examples of a pair are reported.
pub const TOP_EXAMPLES: usize = 5;

/// An example of a pair as a row.
pub open spec fn example_row(p: (char, char), e: ExampleView) -> ScoredRowView {
    ScoredRowView {
        head: e.original + "\t"@ + e.corrected + "\t"@ + rule_name(p.0, p.1) + "\t"@,
        rank: e.rank,
        tail: "\t"@ + e.reason + "\t"@ + e.context,
    }
}

/// The first examples of a pair as rows.
pub open spec fn rows_of_pair(p: (char, char), es: Seq<ExampleView>) -> Seq<ScoredRowView> {
    Seq::new(at_most(es.len(), TOP_EXAMPLES as nat), |i: int| example_row(p, es[i]))
}

/// The first examples of the first `n` pairs as rows.
pub open spec fn example_table(
    pairs: Seq<((char, char), usize)>,
    book: Map<(char, char), Seq<ExampleView>>,
    n: nat,
) -> Seq<ScoredRowView>
    decreases n,
{
    if n == 0 {
        Seq::empty()
    } else {
        example_table(pairs, book, (n - 1) as nat) + rows_of_pair(
            pairs[n - 1].0,
            examples_of(book, pairs[n - 1].0),
        )
    }
}

/// Renders an example of a pair as a row.
fn row_of_example(from: char, to: char, e: &Example) -> (r: ScoredRow)
    ensures
        r@ == example_row((from, to), e@),
{
    let mut head = e.original.clone();
    head.append("\t");
    head.append(e.corrected.as_str());
    head.append("\t");
    head.append(rule_name_of(from, to).as_str());
    head.append("\t");
    let mut tail = "\t".to_string();
    tail.append(e.reason.as_str());
    tail.append("\t");
    tail.append(e.context.as_str());
    let r = ScoredRow { head, rank: e.rank, tail };
    assert(r@ =~= example_row((from, to), e@));
    r
}

/// Adds the first examples of a pair as rows.
fn add_rows_of_pair(out: &mut Vec<ScoredRow>, from: char, to: char, list: &Vec<Example>)
    ensures
        scored_views(final(out)@) == scored_views(old(out)@) + rows_of_pair(
            (from, to),
            example_views(list@),
        ),
{
    let ghost start = scored_views(out@);
    let ghost rows = rows_of_pair((from, to), example_views(list@));
    let count: usize = lesser(list.len(), TOP_EXAMPLES);
    let mut i: usize = 0;
    assert(scored_views(out@) =~= start + rows.take(0));
    while i < count
        invariant
            i <= count,
            count == at_most(list@.len(), TOP_EXAMPLES as nat),
            rows == rows_of_pair((from, to), example_views(list@)),
            scored_views(out@) == start + rows.take(i as int),
        decreases count - i,
    {
        let ghost done = scored_views(out@);
        out.push(row_of_example(from, to, &list[i]));
        assert(scored_views(out@) =~= done.push(rows[i as int]));
        assert(start + rows.take(i + 1) =~= done.push(rows[i as int]));
        i += 1;
    }
    assert(rows.take(rows.len() as int) =~= rows);
}

/// Renders the first examples of the first pairs of a list.
pub fn example_rows(pairs: &[((char, char), usize)], book: &ExampleBook) -> (r: Vec<ScoredRow>)
    requires
        book.wf(),
    ensures
        scored_views(r@) == example_table(pairs@, book@, at_most(pairs@.len(), TOP_PAIRS as nat)),
{
    let mut out: Vec<ScoredRow> = Vec::new();
    let count: usize = lesser(pairs.len(), TOP_PAIRS);
    let mut i: usize = 0;
    assert(scored_views(out@) =~= example_table(pairs@, book@, 0));
    while i < count
        invariant
            i <= count,
            count <= pairs@.len(),
            book.wf(),
            scored_views(out@) == example_table(pairs@, book@, i as nat),
        decreases count - i,
    {
        let (from, to) = pairs[i].0;
        let ghost done = scored_views(out@);
        match book.get(from, to) {
            Some(list) => {
                add_rows_of_pair(&mut out, from, to, list);
            },
            None => {
                assert(rows_of_pair((from, to), examples_of(book@, (from, to))) =~= Seq::empty());
                assert(done + Seq::<ScoredRowView>::empty() =~= done);
            },
        }
        i += 1;
    }
    out
}

/// Everything that is written after the texts were learned from. The first row of each table
/// names its columns.
pub struct Artifacts {
    /// The counted errors under their labels.
    pub matrix: Vec<(String, usize)>,
    pub confusions: Vec<String>,
    pub insertions: Vec<String>,
    pub deletions: Vec<String>,
    pub ngrams: Vec<String>,
    /// The names of the columns of the examples.
    pub example_columns: String,
    pub examples: Vec<ScoredRow>,
}

/// A table with a row above it.
pub open spec fn under(header: Seq<char>, rows: Seq<Seq<char>>) -> Seq<Seq<char>> {
    seq![header] + rows
}

/// Puts a row above a table.
fn put_under(header: &str, rows: Vec<String>) -> (r: Vec<String>)
    ensures
        texts(r@) == under(header@, texts(rows@)),
{
    let mut out: Vec<String> = Vec::new();
    out.push(header.to_string());
    let mut more = rows;
    let ghost rv = texts(rows@);
    out.append(&mut more);
    assert(texts(out@) =~= under(header@, rv));
    out
}

/// Whether artifacts show the statistics. Entries of one count come in no particular order;
/// the examples follow the order of the confusions.
pub open spec fn shows(a: Artifacts, s: GlobalStats, max_n: nat, min: nat) -> bool {
    &&& exists|es: Seq<((Seq<char>, Seq<char>), usize)>| #[trigger]
        lists_table(es, s.error_matrix@) && label_list(a.matrix@) == matrix_table(es)
    &&& exists|es: Seq<((char, char), usize)>| #[trigger]
        lists_table(es, s.ocr_confusions@) && texts(a.confusions@) == under(
            "char_from\tchar_to\tfrequency"@,
            confusion_table(es),
        ) && scored_views(a.examples@) == example_table(
            by_count(es),
            s.examples_sub@,
            at_most(es.len(), TOP_PAIRS as nat),
        )
    &&& exists|es: Seq<(char, usize)>| #[trigger]
        lists_table(es, s.ocr_insertions@) && texts(a.insertions@) == under(
            "char_inserted\tfrequency"@,
            letter_table(es),
        )
    &&& exists|es: Seq<(char, usize)>| #[trigger]
        lists_table(es, s.ocr_deletions@) && texts(a.deletions@) == under(
            "char_deleted\tfrequency"@,
            letter_table(es),
        )
    &&& exists|es: Seq<(Seq<Seq<char>>, usize)>| #[trigger]
        lists_table(es, s.ngrams@) && texts(a.ngrams@) == under(
            "n\tfrequency\tngram"@,
            ngram_table(es, max_n, min),
        )
    &&& a.example_columns@ == "original\tcorrected\trule\tscore\treason\tcontext"@
}

/// Collects everything that is written after the texts were learned from.
pub fn collect_artifacts(stats: &GlobalStats, max_ngram: usize, min_ngram_freq: usize) -> (r: Artifacts)
    requires
        stats.wf(),
    ensures
        shows(r, *stats, max_ngram as nat, min_ngram_freq as nat),
{
    let rules = stats.error_matrix.entries();
    let matrix = matrix_rows(rules.as_slice());
    let pairs = stats.ocr_confusions.entries();
    let confusions = put_under(
        "char_from\tchar_to\tfrequency",
        confusion_rows(pairs.as_slice()),
    );
    let sorted = sort_by_count(pairs.as_slice());
    let examples = example_rows(sorted.as_slice(), &stats.examples_sub);
    let ins = stats.ocr_insertions.entries();
    let insertions = put_under("char_inserted\tfrequency", letter_rows(ins.as_slice()));
    let dels = stats.ocr_deletions.entries();
    let deletions = put_under("char_deleted\tfrequency", letter_rows(dels.as_slice()));
    let runs = stats.ngrams.entries();
    let ngrams = put_under(
        "n\tfrequency\tngram",
        ngram_rows(runs.as_slice(), max_ngram, min_ngram_freq),
    );
    proof {
        assert(lists_table(rule_list(rules@), stats.error_matrix@));
        assert(lists_table(pairs@, stats.ocr_confusions@));
        assert(lists_table(ins@, stats.ocr_insertions@));
        assert(lists_table(dels@, stats.ocr_deletions@));
        assert(lists_table(ngram_list(runs@), stats.ngrams@));
    }
    Artifacts {
        matrix,
        confusions,
        insertions,
        deletions,
        ngrams,
        example_columns: "original\tcorrected\trule\tscore\treason\tcontext".to_string(),
        examples,
    }
}

} // verus!

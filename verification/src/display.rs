//! What is shown while a run goes on: the most frequent errors, examples of them, and the
//! changes to a text.

use crate::counts::lists_table;
use crate::diffs::{diff_views, AlignDiff, DiffView};
use crate::examples::{example_views, examples_of, Example, ExampleBook, ExampleView};
use crate::merge::{correction_views, Correction, CorrectionView};
use crate::order::{by_count, sort_by_count};
use crate::records::{Record, RecordView};
use crate::report::{at_most, lesser, scored_views, ScoredRow, ScoredRowView};
use crate::stats::GlobalStats;
use crate::text::{
    chars_of, decimal, join_with, joined, push_decimal, replace_chars, replaced_from, text_of,
    texts,
};
use rand::rngs::ThreadRng;
use rand::seq::SliceRandom;
use vstd::prelude::*;

verus! {

/// How many substitutions are shown.
pub const SHOWN_SUBS: usize = 12;

/// How many insertions, and how many deletions, are shown.
pub const SHOWN_LETTERS: usize = 8;

/// A substitution with its count.
pub open spec fn sub_item(e: ((char, char), usize)) -> Seq<char> {
    seq![e.0.0] + "→"@ + seq![e.0.1] + "("@ + decimal(e.1 as nat) + ")"@
}

/// An insertion or deletion with its count, behind its sign.
pub open spec fn letter_item(sign: char, e: (char, usize)) -> Seq<char> {
    seq![sign, e.0] + "("@ + decimal(e.1 as nat) + ")"@
}

/// The most frequent substitutions of a list, the greatest counts first.
pub open spec fn top_subs(es: Seq<((char, char), usize)>) -> Seq<char> {
    joined(
        Seq::new(at_most(es.len(), SHOWN_SUBS as nat), |i: int| sub_item(by_count(es)[i])),
        ", "@,
    )
}

/// The most frequent insertions or deletions of a list, the greatest counts first.
pub open spec fn top_letters(sign: char, es: Seq<(char, usize)>) -> Seq<char> {
    joined(
        Seq::new(
            at_most(es.len(), SHOWN_LETTERS as nat),
            |i: int| letter_item(sign, by_count(es)[i]),
        ),
        ", "@,
    )
}

/// Renders the most frequent substitutions of a list.
pub fn show_top_subs(es: &[((char, char), usize)]) -> (r: String)
    ensures
        r@ == top_subs(es@),
{
    let sorted = sort_by_count(es);
    let count: usize = lesser(sorted.len(), SHOWN_SUBS);
    let ghost items = Seq::new(
        at_most(es@.len(), SHOWN_SUBS as nat),
        |i: int| sub_item(by_count(es@)[i]),
    );
    let mut out: Vec<String> = Vec::new();
    let mut i: usize = 0;
    while i < count
        invariant
            i <= count,
            count == items.len(),
            count <= sorted@.len(),
            sorted@ == by_count(es@),
            forall|x: int| 0 <= x < items.len() ==> #[trigger] items[x] == sub_item(sorted@[x]),
            texts(out@) == items.take(i as int),
        decreases count - i,
    {
        let (pair, n) = sorted[i];
        let mut item = String::new();
        item.push(pair.0);
        item.append("→");
        item.push(pair.1);
        item.append("(");
        push_decimal(&mut item, n);
        item.append(")");
        assert(item@ =~= items[i as int]);
        let ghost done = texts(out@);
        out.push(item);
        assert(texts(out@) =~= done.push(items[i as int]));
        assert(items.take(i + 1) =~= done.push(items[i as int]));
        i += 1;
    }
    assert(items.take(items.len() as int) =~= items);
    join_with(out.as_slice(), ", ")
}

/// Renders the most frequent insertions or deletions of a list.
pub fn show_top_letters(sign: char, es: &[(char, usize)]) -> (r: String)
    ensures
        r@ == top_letters(sign, es@),
{
    let sorted = sort_by_count(es);
    let count: usize = lesser(sorted.len(), SHOWN_LETTERS);
    let ghost items = Seq::new(
        at_most(es@.len(), SHOWN_LETTERS as nat),
        |i: int| letter_item(sign, by_count(es@)[i]),
    );
    let mut out: Vec<String> = Vec::new();
    let mut i: usize = 0;
    while i < count
        invariant
            i <= count,
            count == items.len(),
            count <= sorted@.len(),
            sorted@ == by_count(es@),
            forall|x: int|
                0 <= x < items.len() ==> #[trigger] items[x] == letter_item(sign, sorted@[x]),
            texts(out@) == items.take(i as int),
        decreases count - i,
    {
        let (c, n) = sorted[i];
        let mut item = String::new();
        item.push(sign);
        item.push(c);
        item.append("(");
        push_decimal(&mut item, n);
        item.append(")");
        assert(item@ =~= items[i as int]);
        let ghost done = texts(out@);
        out.push(item);
        assert(texts(out@) =~= done.push(items[i as int]));
        assert(items.take(i + 1) =~= done.push(items[i as int]));
        i += 1;
    }
    assert(items.take(items.len() as int) =~= items);
    join_with(out.as_slice(), ", ")
}

/// The most frequent errors, one text for each kind.
pub struct TopErrors {
    pub subs: String,
    pub insertions: String,
    pub deletions: String,
}

/// Renders the most frequent errors that were counted. Errors of one count come in no
/// particular order.
pub fn top_errors(stats: &GlobalStats) -> (r: TopErrors)
    ensures
        exists|es: Seq<((char, char), usize)>| #[trigger]
            lists_table(es, stats.ocr_confusions@) && r.subs@ == top_subs(es),
        exists|es: Seq<(char, usize)>| #[trigger]
            lists_table(es, stats.ocr_insertions@) && r.insertions@ == top_letters('+', es),
        exists|es: Seq<(char, usize)>| #[trigger]
            lists_table(es, stats.ocr_deletions@) && r.deletions@ == top_letters('-', es),
{
    let subs = stats.ocr_confusions.entries();
    let ins = stats.ocr_insertions.entries();
    let dels = stats.ocr_deletions.entries();
    assert(lists_table(subs@, stats.ocr_confusions@));
    assert(lists_table(ins@, stats.ocr_insertions@));
    assert(lists_table(dels@, stats.ocr_deletions@));
    TopErrors {
        subs: show_top_subs(subs.as_slice()),
        insertions: show_top_letters('+', ins.as_slice()),
        deletions: show_top_letters('-', dels.as_slice()),
    }
}

/// The random number generator of the `rand` crate that belongs to a thread.
#[verifier::external_type_specification]
#[verifier::external_body]
pub struct ExThreadRng(ThreadRng);

/// Picks an example at random with `SliceRandom::choose` of the `rand` crate, which returns
/// `None` exactly for an empty slice and else one of its elements. Which one is left to chance.
#[verifier::external_body]
fn pick_example<'a>(list: &'a [Example], rng: &mut ThreadRng) -> (r: Option<&'a Example>)
    ensures
        r is None == (list@.len() == 0),
        r is Some ==> exists|i: int| 0 <= i < list@.len() && #[trigger] list@[i] == *r->0,
{
    list.choose(rng)
}

/// For how many substitutions an example is shown.
pub const SAMPLED_PAIRS: usize = 8;

/// A substitution with an example of it.
pub struct Sample {
    pub freq: usize,
    pub from: char,
    pub to: char,
    pub original: String,
    pub context: String,
}

/// The mathematical content of a `Sample`.
#[verifier::ext_equal]
pub struct SampleView {
    pub freq: usize,
    pub from: char,
    pub to: char,
    pub original: Seq<char>,
    pub context: Seq<char>,
}

impl View for Sample {
    type V = SampleView;

    open spec fn view(&self) -> SampleView {
        SampleView {
            freq: self.freq,
            from: self.from,
            to: self.to,
            original: self.original@,
            context: self.context@,
        }
    }
}

/// The contents of a list of samples.
pub open spec fn sample_views(ss: Seq<Sample>) -> Seq<SampleView> {
    Seq::new(ss.len(), |i: int| ss[i]@)
}

/// A counted substitution with the example given.
pub open spec fn sample_of(e: ((char, char), usize), ex: ExampleView) -> SampleView {
    SampleView {
        freq: e.1,
        from: e.0.0,
        to: e.0.1,
        original: ex.original,
        context: ex.context,
    }
}

/// Makes a sample of a counted substitution and an example.
pub fn make_sample(from: char, to: char, freq: usize, ex: &Example) -> (r: Sample)
    ensures
        r@ == sample_of(((from, to), freq), ex@),
{
    Sample { freq, from, to, original: ex.original.clone(), context: ex.context.clone() }
}

/// The samples of the first `n` substitutions, where `picks` tells which example of each is
/// shown. A substitution without examples has no sample.
pub open spec fn samples_with(
    pairs: Seq<((char, char), usize)>,
    book: Map<(char, char), Seq<ExampleView>>,
    picks: Seq<int>,
    n: nat,
) -> Seq<SampleView>
    decreases n,
{
    if n == 0 {
        Seq::empty()
    } else {
        let before = samples_with(pairs, book, picks, (n - 1) as nat);
        let es = examples_of(book, pairs[n - 1].0);
        if es.len() > 0 {
            before.push(sample_of(pairs[n - 1], es[picks[n - 1]]))
        } else {
            before
        }
    }
}

/// Whether picks are positions in the lists of examples.
pub open spec fn picks_fit(
    pairs: Seq<((char, char), usize)>,
    book: Map<(char, char), Seq<ExampleView>>,
    picks: Seq<int>,
) -> bool {
    forall|i: int|
        0 <= i < picks.len() && examples_of(book, pairs[i].0).len() > 0 ==> 0 <= #[trigger] picks[i]
            < examples_of(book, pairs[i].0).len()
}

proof fn lemma_later_picks_are_free(
    pairs: Seq<((char, char), usize)>,
    book: Map<(char, char), Seq<ExampleView>>,
    picks: Seq<int>,
    more: Seq<int>,
    n: nat,
)
    requires
        n <= picks.len(),
        n <= more.len(),
        forall|i: int| 0 <= i < n ==> picks[i] == more[i],
    ensures
        samples_with(pairs, book, picks, n) == samples_with(pairs, book, more, n),
    decreases n,
{
    if n > 0 {
        lemma_later_picks_are_free(pairs, book, picks, more, (n - 1) as nat);
    }
}

/// Shows an example, picked at random, for each of the first substitutions of a list.
pub fn pick_samples(
    pairs: &[((char, char), usize)],
    book: &ExampleBook,
    rng: &mut ThreadRng,
) -> (r: Vec<Sample>)
    requires
        book.wf(),
    ensures
        exists|picks: Seq<int>|
            picks.len() == at_most(pairs@.len(), SAMPLED_PAIRS as nat) && #[trigger] picks_fit(
                pairs@,
                book@,
                picks,
            ) && sample_views(r@) == samples_with(pairs@, book@, picks, picks.len()),
{
    let count: usize = lesser(pairs.len(), SAMPLED_PAIRS);
    let ghost mut picks: Seq<int> = Seq::empty();
    let mut out: Vec<Sample> = Vec::new();
    let mut i: usize = 0;
    assert(sample_views(out@) =~= samples_with(pairs@, book@, picks, 0));
    while i < count
        invariant
            i <= count,
            count <= pairs@.len(),
            book.wf(),
            picks.len() == i,
            picks_fit(pairs@, book@, picks),
            sample_views(out@) == samples_with(pairs@, book@, picks, i as nat),
        decreases count - i,
    {
        let (from, to) = pairs[i].0;
        let freq: usize = pairs[i].1;
        let ghost es = examples_of(book@, (from, to));
        let ghost mut pick: int = 0;
        let ghost done = sample_views(out@);
        if let Some(list) = book.get(from, to) {
            assert(es == example_views(list@));
            if let Some(ex) = pick_example(list.as_slice(), rng) {
                proof {
                    pick = choose|x: int| 0 <= x < list@.len() && #[trigger] list@[x] == *ex;
                    assert(es[pick] == ex@);
                }
                out.push(make_sample(from, to, freq, ex));
                assert(sample_views(out@) =~= done.push(sample_of(pairs@[i as int], es[pick])));
            }
        }
        proof {
            let more = picks.push(pick);
            lemma_later_picks_are_free(pairs@, book@, picks, more, i as nat);
            picks = more;
        }
        i += 1;
    }
    out
}

/// Shows an example, picked at random, for each of the most frequent substitutions.
/// Substitutions of one count come in no particular order.
pub fn sample_examples(stats: &GlobalStats, rng: &mut ThreadRng) -> (r: Vec<Sample>)
    requires
        stats.wf(),
    ensures
        exists|es: Seq<((char, char), usize)>, picks: Seq<int>| #[trigger]
            lists_table(es, stats.ocr_confusions@) && picks.len() == at_most(
                es.len(),
                SAMPLED_PAIRS as nat,
            ) && #[trigger] picks_fit(by_count(es), stats.examples_sub@, picks) && sample_views(r@)
                == samples_with(by_count(es), stats.examples_sub@, picks, picks.len()),
{
    let es = stats.ocr_confusions.entries();
    assert(lists_table(es@, stats.ocr_confusions@));
    let sorted = sort_by_count(es.as_slice());
    pick_samples(sorted.as_slice(), &stats.examples_sub, rng)
}

/// A difference as it is shown.
pub open spec fn diff_item(d: DiffView) -> Seq<char> {
    "«"@ + d.wrong_text + "»→«"@ + d.right_text + "»"@
}

/// The differences of a change as they are shown.
pub open spec fn diff_summary(ds: Seq<DiffView>) -> Seq<char> {
    joined(Seq::new(ds.len(), |i: int| diff_item(ds[i])), "; "@)
}

/// Renders the differences of a change.
pub fn summarize_diffs(diffs: &[AlignDiff]) -> (r: String)
    ensures
        r@ == diff_summary(diff_views(diffs@)),
{
    let ghost ds = diff_views(diffs@);
    let ghost items = Seq::new(ds.len(), |i: int| diff_item(ds[i]));
    let mut out: Vec<String> = Vec::new();
    let mut i: usize = 0;
    while i < diffs.len()
        invariant
            i <= diffs.len(),
            ds == diff_views(diffs@),
            items == Seq::new(ds.len(), |x: int| diff_item(ds[x])),
            texts(out@) == items.take(i as int),
        decreases diffs.len() - i,
    {
        let mut item = "«".to_string();
        item.append(diffs[i].wrong_text.as_str());
        item.append("»→«");
        item.append(diffs[i].right_text.as_str());
        item.append("»");
        assert(item@ =~= items[i as int]);
        let ghost done = texts(out@);
        out.push(item);
        assert(texts(out@) =~= done.push(items[i as int]));
        assert(items.take(i + 1) =~= done.push(items[i as int]));
        i += 1;
    }
    assert(items.take(items.len() as int) =~= items);
    join_with(out.as_slice(), "; ")
}

/// A text with every tab replaced by a space.
pub open spec fn without_tabs(s: Seq<char>) -> Seq<char> {
    replaced_from(s, "\t"@, " "@, 0)
}

/// Replaces every tab in a text by a space.
fn replace_tabs(s: &str) -> (r: String)
    ensures
        r@ == without_tabs(s@),
{
    proof {
        reveal_strlit("\t");
    }
    let cs = replace_chars(
        chars_of(s).as_slice(),
        chars_of("\t").as_slice(),
        chars_of(" ").as_slice(),
    );
    text_of(cs.as_slice())
}

/// A join as a row.
pub open spec fn merge_row(c: CorrectionView) -> Seq<char> {
    c.original + "\t"@ + c.corrected + "\t"@ + without_tabs(c.context)
}

/// Renders a join as a row.
pub fn row_of_merge(c: &Correction) -> (r: String)
    ensures
        r@ == merge_row(c@),
{
    let mut row = c.original.clone();
    row.append("\t");
    row.append(c.corrected.as_str());
    row.append("\t");
    row.append(replace_tabs(c.context.as_str()).as_str());
    assert(row@ =~= merge_row(c@));
    row
}

/// A corrected word as a row.
pub open spec fn pair_row(c: CorrectionView) -> ScoredRowView {
    ScoredRowView {
        head: c.original + "\t"@ + c.corrected + "\t"@,
        rank: c.rank,
        tail: "\t"@ + diff_summary(c.diffs) + "\t"@ + c.reason + "\t"@ + without_tabs(c.context),
    }
}

/// Renders a corrected word as a row.
pub fn row_of_pair(c: &Correction) -> (r: ScoredRow)
    ensures
        r@ == pair_row(c@),
{
    let mut head = c.original.clone();
    head.append("\t");
    head.append(c.corrected.as_str());
    head.append("\t");
    let mut tail = "\t".to_string();
    tail.append(summarize_diffs(c.diffs.as_slice()).as_str());
    tail.append("\t");
    tail.append(c.reason.as_str());
    tail.append("\t");
    tail.append(replace_tabs(c.context.as_str()).as_str());
    let r = ScoredRow { head, rank: c.rank, tail };
    assert(r@ =~= pair_row(c@));
    r
}

/// Whether position `p` of the wrong word lies in a difference.
pub open spec fn wrong_marked(ds: Seq<DiffView>, p: int) -> bool {
    exists|i: int|
        0 <= i < ds.len() && (#[trigger] ds[i]).pos_wrong <= p < ds[i].pos_wrong
            + ds[i].wrong_text.len()
}

/// Whether position `p` of the right word lies in a difference.
pub open spec fn right_marked(ds: Seq<DiffView>, p: int) -> bool {
    exists|i: int|
        0 <= i < ds.len() && (#[trigger] ds[i]).pos_right <= p < ds[i].pos_right
            + ds[i].right_text.len()
}

/// Which characters of the two words of a change stand out, and where the words differ.
pub struct Marks {
    pub original: Vec<bool>,
    pub corrected: Vec<bool>,
    pub either: Vec<bool>,
}

/// Whether position `p` of the wrong word lies in a difference.
fn is_wrong_marked(diffs: &[AlignDiff], p: usize) -> (r: bool)
    ensures
        r == wrong_marked(diff_views(diffs@), p as int),
{
    let ghost ds = diff_views(diffs@);
    let mut i: usize = 0;
    while i < diffs.len()
        invariant
            i <= diffs.len(),
            ds == diff_views(diffs@),
            forall|x: int|
                0 <= x < i ==> !((#[trigger] ds[x]).pos_wrong <= p < ds[x].pos_wrong
                    + ds[x].wrong_text.len()),
        decreases diffs.len() - i,
    {
        assert(ds[i as int] == diffs@[i as int]@);
        if diffs[i].pos_wrong <= p && p - diffs[i].pos_wrong < chars_of(
            diffs[i].wrong_text.as_str(),
        ).len() {
            return true;
        }
        i += 1;
    }
    false
}

/// Whether position `p` of the right word lies in a difference.
fn is_right_marked(diffs: &[AlignDiff], p: usize) -> (r: bool)
    ensures
        r == right_marked(diff_views(diffs@), p as int),
{
    let ghost ds = diff_views(diffs@);
    let mut i: usize = 0;
    while i < diffs.len()
        invariant
            i <= diffs.len(),
            ds == diff_views(diffs@),
            forall|x: int|
                0 <= x < i ==> !((#[trigger] ds[x]).pos_right <= p < ds[x].pos_right
                    + ds[x].right_text.len()),
        decreases diffs.len() - i,
    {
        assert(ds[i as int] == diffs@[i as int]@);
        if diffs[i].pos_right <= p && p - diffs[i].pos_right < chars_of(
            diffs[i].right_text.as_str(),
        ).len() {
            return true;
        }
        i += 1;
    }
    false
}

/// Marks the characters of a change that lie in a difference. The marks in `either` go as far
/// as the longer word and stand where one of the two words is marked.
pub fn mark_change(c: &Correction) -> (r: Marks)
    ensures
        r.original@ == Seq::new(c@.original.len(), |p: int| wrong_marked(c@.diffs, p)),
        r.corrected@ == Seq::new(c@.corrected.len(), |p: int| right_marked(c@.diffs, p)),
        r.either@.len() == (if c@.original.len() >= c@.corrected.len() {
            c@.original.len()
        } else {
            c@.corrected.len()
        }),
        forall|p: int|
            0 <= p < r.either@.len() ==> #[trigger] r.either@[p] == ((p < c@.original.len()
                && wrong_marked(c@.diffs, p)) || (p < c@.corrected.len() && right_marked(
                c@.diffs,
                p,
            ))),
{
    let ghost ds = c@.diffs;
    let wrong_len: usize = chars_of(c.original.as_str()).len();
    let right_len: usize = chars_of(c.corrected.as_str()).len();
    let len: usize = if wrong_len >= right_len {
        wrong_len
    } else {
        right_len
    };
    let mut original: Vec<bool> = Vec::new();
    let mut corrected: Vec<bool> = Vec::new();
    let mut either: Vec<bool> = Vec::new();
    let mut p: usize = 0;
    while p < len
        invariant
            p <= len,
            len == (if wrong_len >= right_len {
                wrong_len
            } else {
                right_len
            }),
            ds == diff_views(c.diffs@),
            original@ == Seq::new(
                at_most(p as nat, wrong_len as nat),
                |x: int| wrong_marked(ds, x),
            ),
            corrected@ == Seq::new(
                at_most(p as nat, right_len as nat),
                |x: int| right_marked(ds, x),
            ),
            either@.len() == p,
            forall|x: int|
                0 <= x < p ==> #[trigger] either@[x] == ((x < wrong_len && wrong_marked(ds, x)) || (x
                    < right_len && right_marked(ds, x))),
        decreases len - p,
    {
        let wrong = p < wrong_len && is_wrong_marked(c.diffs.as_slice(), p);
        let right = p < right_len && is_right_marked(c.diffs.as_slice(), p);
        if p < wrong_len {
            original.push(wrong);
        }
        if p < right_len {
            corrected.push(right);
        }
        either.push(wrong || right);
        p += 1;
        assert(original@ =~= Seq::new(
            at_most(p as nat, wrong_len as nat),
            |x: int| wrong_marked(ds, x),
        ));
        assert(corrected@ =~= Seq::new(
            at_most(p as nat, right_len as nat),
            |x: int| right_marked(ds, x),
        ));
    }
    assert(original@ =~= Seq::new(c@.original.len(), |x: int| wrong_marked(ds, x)));
    assert(corrected@ =~= Seq::new(c@.corrected.len(), |x: int| right_marked(ds, x)));
    Marks { original, corrected, either }
}

/// The columns of the corrected words.
pub const PAIR_COLUMNS: &'static str = "original\tcorrected\tscore\trule\treason\tcontext";

/// The columns of the joins.
pub const MERGE_COLUMNS: &'static str = "original\tcorrected\tcontext";

/// The rows that the changes to one text fill.
pub struct ChangeRows {
    pub merges: Vec<String>,
    pub pairs: Vec<ScoredRow>,
}

/// The joins among the changes as rows, in order.
pub open spec fn merge_rows(cs: Seq<CorrectionView>) -> Seq<Seq<char>>
    decreases cs.len(),
{
    if cs.len() == 0 {
        Seq::empty()
    } else if cs.last().is_merge {
        merge_rows(cs.drop_last()).push(merge_row(cs.last()))
    } else {
        merge_rows(cs.drop_last())
    }
}

/// The corrected words among the changes as rows, in order.
pub open spec fn pair_rows(cs: Seq<CorrectionView>) -> Seq<ScoredRowView>
    decreases cs.len(),
{
    if cs.len() == 0 {
        Seq::empty()
    } else if cs.last().is_merge {
        pair_rows(cs.drop_last())
    } else {
        pair_rows(cs.drop_last()).push(pair_row(cs.last()))
    }
}

/// Renders the changes to one text as rows, the joins and the corrected words apart.
pub fn rows_of_changes(changes: &[Correction]) -> (r: ChangeRows)
    ensures
        texts(r.merges@) == merge_rows(correction_views(changes@)),
        scored_views(r.pairs@) == pair_rows(correction_views(changes@)),
{
    let ghost cs = correction_views(changes@);
    let mut merges: Vec<String> = Vec::new();
    let mut pairs: Vec<ScoredRow> = Vec::new();
    let mut i: usize = 0;
    assert(texts(merges@) =~= merge_rows(cs.take(0)));
    assert(scored_views(pairs@) =~= pair_rows(cs.take(0)));
    while i < changes.len()
        invariant
            i <= changes.len(),
            cs == correction_views(changes@),
            texts(merges@) == merge_rows(cs.take(i as int)),
            scored_views(pairs@) == pair_rows(cs.take(i as int)),
        decreases changes.len() - i,
    {
        let c = &changes[i];
        assert(cs.take(i + 1).drop_last() =~= cs.take(i as int));
        assert(cs.take(i + 1).last() == c@);
        if c.is_merge {
            let ghost done = texts(merges@);
            merges.push(row_of_merge(c));
            assert(texts(merges@) =~= done.push(merge_row(c@)));
        } else {
            let ghost done = scored_views(pairs@);
            pairs.push(row_of_pair(c));
            assert(scored_views(pairs@) =~= done.push(pair_row(c@)));
        }
        i += 1;
    }
    assert(cs.take(cs.len() as int) =~= cs);
    ChangeRows { merges, pairs }
}

/// Every change fills exactly one row.
pub proof fn every_change_fills_one_row(cs: Seq<CorrectionView>)
    ensures
        merge_rows(cs).len() + pair_rows(cs).len() == cs.len(),
    decreases cs.len(),
{
    if cs.len() > 0 {
        every_change_fills_one_row(cs.drop_last());
    }
}

/// The title of a record as it is shown, or a dash.
pub open spec fn shown_title(r: RecordView) -> Seq<char> {
    if r.title.len() == 0 {
        "—"@
    } else {
        r.title
    }
}

/// The title of a record as it is shown, or a dash.
pub fn show_title(r: &Record) -> (t: String)
    ensures
        t@ == shown_title(r@),
{
    if chars_of(r.title.as_str()).len() == 0 {
        "—".to_string()
    } else {
        r.title.clone()
    }
}

} // verus!

//! What is shown of a run and written about it: how many entries, in which order, and in which
//! form.

use crate::counts::lists_table;
use crate::diffs::DiffView;
use crate::display::{
    diff_item, diff_summary, letter_item, merge_row, merge_rows, pair_row, pair_rows, right_marked,
    samples_with, shown_title, sub_item, top_letters, top_subs, without_tabs, wrong_marked,
    SampleView, MERGE_COLUMNS, PAIR_COLUMNS, SAMPLED_PAIRS,
};
use crate::examples::{examples_of, ExampleView};
use crate::laws::text::replacing_goes_from_left_to_right;
use crate::merge::CorrectionView;
use crate::ngrams::{hit_label, HitView};
use crate::order::by_count;
use crate::records::RecordView;
use crate::report::{
    at_most, confusion_row, confusion_table, example_row, example_table, label_list, labelled,
    letter_row, letter_table, matrix_table, ngram_table, rows_of_length, rows_of_pair, run_row,
    runs_of_length, scored_views, shows, Artifacts, ScoredRowView, TOP_PAIRS,
};
use crate::stats::GlobalStats;
use crate::text::{decimal, joined, replaced_from, spaced, texts};
use vstd::prelude::*;

verus! {

/// The first of a list, so many at most.
pub open spec fn first_of<A>(s: Seq<A>, most: int) -> Seq<A> {
    if s.len() <= most {
        s
    } else {
        s.take(most)
    }
}

/// A confusion is written as its two characters and its count, parted by tabs; a character as
/// itself and its count; an error as its two texts with an arrow between them; a run of stems as
/// its length, its count and its stems.
pub proof fn rows_show_their_entries(
    a: char,
    b: char,
    n: usize,
    wrong: Seq<char>,
    right: Seq<char>,
    len: nat,
    run: Seq<Seq<char>>,
)
    ensures
        confusion_row(((a, b), n)) == seq![a, '\t', b, '\t'] + decimal(n as nat),
        letter_row((a, n)) == seq![a, '\t'] + decimal(n as nat),
        labelled(((wrong, right), n)) == (wrong + seq![' ', '-', '>', ' '] + right, n),
        run_row(len, (run, n)) == decimal(len) + seq!['\t'] + decimal(n as nat) + seq!['\t'] + spaced(
            run,
        ),
{
    reveal_strlit("\t");
    reveal_strlit(" -> ");
    assert("\t"@ =~= seq!['\t']);
    assert(" -> "@ =~= seq![' ', '-', '>', ' ']);
    assert(confusion_row(((a, b), n)) =~= seq![a, '\t', b, '\t'] + decimal(n as nat));
    assert(letter_row((a, n)) =~= seq![a, '\t'] + decimal(n as nat));
}

/// The tables of confusions, of characters and of errors have one row for each entry, the
/// greatest counts first.
pub proof fn tables_show_every_entry(
    pairs: Seq<((char, char), usize)>,
    chars: Seq<(char, usize)>,
    rules: Seq<((Seq<char>, Seq<char>), usize)>,
)
    ensures
        confusion_table(pairs) == by_count(pairs).map_values(
            |e: ((char, char), usize)| confusion_row(e),
        ),
        letter_table(chars) == by_count(chars).map_values(|e: (char, usize)| letter_row(e)),
        matrix_table(rules) == by_count(rules).map_values(
            |e: ((Seq<char>, Seq<char>), usize)| labelled(e),
        ),
{
    assert(confusion_table(pairs) =~= by_count(pairs).map_values(
        |e: ((char, char), usize)| confusion_row(e),
    ));
    assert(letter_table(chars) =~= by_count(chars).map_values(|e: (char, usize)| letter_row(e)));
    assert(matrix_table(rules) =~= by_count(rules).map_values(
        |e: ((Seq<char>, Seq<char>), usize)| labelled(e),
    ));
}

proof fn lemma_runs_of_length(es: Seq<(Seq<Seq<char>>, usize)>, n: nat, min: nat)
    ensures
        runs_of_length(es, n, min) == es.filter(
            |e: (Seq<Seq<char>>, usize)| e.0.len() == n && e.1 >= min,
        ),
    decreases es.len(),
{
    reveal(Seq::filter);
    if es.len() > 0 {
        lemma_runs_of_length(es.drop_last(), n, min);
    }
}

/// The table of runs shows for each length, from the longest down to two stems, the five hundred
/// most frequent runs of that length that were counted often enough.
pub proof fn the_most_frequent_runs_are_shown(
    es: Seq<(Seq<Seq<char>>, usize)>,
    n: nat,
    min: nat,
)
    ensures
        ({
            let runs = es.filter(|e: (Seq<Seq<char>>, usize)| e.0.len() == n && e.1 >= min);
            let shown = first_of(by_count(runs), 500).map_values(
                |e: (Seq<Seq<char>>, usize)| run_row(n, e),
            );
            &&& n < 2 ==> ngram_table(es, n, min) == Seq::<Seq<char>>::empty()
            &&& n >= 2 ==> ngram_table(es, n, min) == shown + ngram_table(
                es,
                (n - 1) as nat,
                min,
            )
        }),
{
    lemma_runs_of_length(es, n, min);
    let runs = runs_of_length(es, n, min);
    assert(rows_of_length(es, n, min) =~= first_of(by_count(runs), 500).map_values(
        |e: (Seq<Seq<char>>, usize)| run_row(n, e),
    ));
}

/// An example is written with the word as it was, what it became, the two characters, the rank,
/// the reason and the place; of each pair the first five are written.
pub proof fn five_examples_are_written(p: (char, char), es: Seq<ExampleView>, e: ExampleView)
    ensures
        rows_of_pair(p, es) == first_of(es, 5).map_values(|x: ExampleView| example_row(p, x)),
        example_row(p, e).head == e.original + seq!['\t'] + e.corrected + seq![
            '\t',
            p.0,
            '→',
            p.1,
            '\t',
        ],
        example_row(p, e).rank == e.rank,
        example_row(p, e).tail == seq!['\t'] + e.reason + seq!['\t'] + e.context,
{
    reveal_strlit("\t");
    assert("\t"@ =~= seq!['\t']);
    assert(rows_of_pair(p, es) =~= first_of(es, 5).map_values(|x: ExampleView| example_row(p, x)));
    assert(example_row(p, e).head =~= e.original + seq!['\t'] + e.corrected + seq![
        '\t',
        p.0,
        '→',
        p.1,
        '\t',
    ]);
}

/// The examples of pairs are written pair by pair.
pub proof fn examples_are_written_pair_by_pair(
    pairs: Seq<((char, char), usize)>,
    book: Map<(char, char), Seq<ExampleView>>,
    n: nat,
)
    requires
        n < pairs.len(),
    ensures
        example_table(pairs, book, 0) == Seq::<ScoredRowView>::empty(),
        example_table(pairs, book, n + 1) == example_table(pairs, book, n) + rows_of_pair(
            pairs[n as int].0,
            if book.contains_key(pairs[n as int].0) {
                book[pairs[n as int].0]
            } else {
                Seq::empty()
            },
        ),
{
}

/// What is written of the statistics names its columns first. The examples are those of the
/// fifty most frequent confusions.
pub proof fn artifacts_name_their_columns(a: Artifacts, s: GlobalStats, max_n: nat, min: nat)
    requires
        shows(a, s, max_n, min),
    ensures
        texts(a.confusions@)[0] == "char_from\tchar_to\tfrequency"@,
        texts(a.insertions@)[0] == "char_inserted\tfrequency"@,
        texts(a.deletions@)[0] == "char_deleted\tfrequency"@,
        texts(a.ngrams@)[0] == "n\tfrequency\tngram"@,
        a.example_columns@ == "original\tcorrected\trule\tscore\treason\tcontext"@,
        exists|es: Seq<((char, char), usize)>| #[trigger]
            lists_table(es, s.ocr_confusions@) && texts(a.confusions@).skip(1) == confusion_table(es)
                && scored_views(a.examples@) == example_table(
                by_count(es),
                s.examples_sub@,
                if es.len() <= 50 {
                    es.len()
                } else {
                    50
                },
            ),
        exists|es: Seq<(char, usize)>| #[trigger]
            lists_table(es, s.ocr_insertions@) && texts(a.insertions@).skip(1) == letter_table(es),
        exists|es: Seq<(char, usize)>| #[trigger]
            lists_table(es, s.ocr_deletions@) && texts(a.deletions@).skip(1) == letter_table(es),
        exists|es: Seq<((Seq<char>, Seq<char>), usize)>| #[trigger]
            lists_table(es, s.error_matrix@) && label_list(a.matrix@) == matrix_table(es),
        exists|es: Seq<(Seq<Seq<char>>, usize)>| #[trigger]
            lists_table(es, s.ngrams@) && texts(a.ngrams@).skip(1) == ngram_table(es, max_n, min),
        PAIR_COLUMNS@ == "original\tcorrected\tscore\trule\treason\tcontext"@,
        MERGE_COLUMNS@ == "original\tcorrected\tcontext"@,
{
    let es = choose|es: Seq<((char, char), usize)>| #[trigger]
        lists_table(es, s.ocr_confusions@) && texts(a.confusions@) == crate::report::under(
            "char_from\tchar_to\tfrequency"@,
            confusion_table(es),
        ) && scored_views(a.examples@) == example_table(
            by_count(es),
            s.examples_sub@,
            at_most(es.len(), TOP_PAIRS as nat),
        );
    assert(texts(a.confusions@).skip(1) =~= confusion_table(es));
    let ins = choose|es: Seq<(char, usize)>| #[trigger]
        lists_table(es, s.ocr_insertions@) && texts(a.insertions@) == crate::report::under(
            "char_inserted\tfrequency"@,
            letter_table(es),
        );
    assert(texts(a.insertions@).skip(1) =~= letter_table(ins));
    let dels = choose|es: Seq<(char, usize)>| #[trigger]
        lists_table(es, s.ocr_deletions@) && texts(a.deletions@) == crate::report::under(
            "char_deleted\tfrequency"@,
            letter_table(es),
        );
    assert(texts(a.deletions@).skip(1) =~= letter_table(dels));
    let runs = choose|es: Seq<(Seq<Seq<char>>, usize)>| #[trigger]
        lists_table(es, s.ngrams@) && texts(a.ngrams@) == crate::report::under(
            "n\tfrequency\tngram"@,
            ngram_table(es, max_n, min),
        );
    assert(texts(a.ngrams@).skip(1) =~= ngram_table(runs, max_n, min));
}

/// While a run goes on, the twelve most frequent confusions and the eight most frequent missing
/// characters, or characters too many, are shown, the greatest counts first, parted by commas.
pub proof fn the_most_frequent_errors_are_shown(
    pairs: Seq<((char, char), usize)>,
    chars: Seq<(char, usize)>,
    sign: char,
    a: char,
    b: char,
    n: usize,
)
    ensures
        top_subs(pairs) == joined(
            first_of(by_count(pairs), 12).map_values(|e: ((char, char), usize)| sub_item(e)),
            seq![',', ' '],
        ),
        top_letters(sign, chars) == joined(
            first_of(by_count(chars), 8).map_values(|e: (char, usize)| letter_item(sign, e)),
            seq![',', ' '],
        ),
        sub_item(((a, b), n)) == seq![a, '→', b, '('] + decimal(n as nat) + seq![')'],
        letter_item(sign, (a, n)) == seq![sign, a, '('] + decimal(n as nat) + seq![')'],
        at_most(pairs.len(), SAMPLED_PAIRS as nat) == first_of(pairs, 8).len(),
{
    reveal_strlit(", ");
    reveal_strlit("→");
    reveal_strlit("(");
    reveal_strlit(")");
    assert(", "@ =~= seq![',', ' ']);
    assert("→"@ =~= seq!['→']);
    assert("("@ =~= seq!['(']);
    assert(")"@ =~= seq![')']);
    assert(sub_item(((a, b), n)) =~= seq![a, '→', b, '('] + decimal(n as nat) + seq![')']);
    assert(letter_item(sign, (a, n)) =~= seq![sign, a, '('] + decimal(n as nat) + seq![')']);
    assert(Seq::new(at_most(pairs.len(), 12), |i: int| sub_item(by_count(pairs)[i])) =~= first_of(
        by_count(pairs),
        12,
    ).map_values(|e: ((char, char), usize)| sub_item(e)));
    assert(Seq::new(at_most(chars.len(), 8), |i: int| letter_item(sign, by_count(chars)[i]))
        =~= first_of(by_count(chars), 8).map_values(|e: (char, usize)| letter_item(sign, e)));
}

/// Each confusion that has examples is shown with one of them: its count, its two characters, the
/// word as it was and the place.
pub proof fn samples_show_an_example(
    pairs: Seq<((char, char), usize)>,
    book: Map<(char, char), Seq<ExampleView>>,
    picks: Seq<int>,
    n: nat,
)
    requires
        n < pairs.len(),
    ensures
        ({
            let before = samples_with(pairs, book, picks, n);
            let after = samples_with(pairs, book, picks, n + 1);
            let e = pairs[n as int];
            let es = examples_of(book, e.0);
            &&& samples_with(pairs, book, picks, 0) == Seq::<SampleView>::empty()
            &&& es.len() == 0 ==> after == before
            &&& es.len() > 0 ==> after == before.push(
                SampleView {
                    freq: e.1,
                    from: e.0.0,
                    to: e.0.1,
                    original: es[picks[n as int]].original,
                    context: es[picks[n as int]].context,
                },
            )
        }),
{
}

/// The differences of a change are shown in quotes with an arrow between them, parted by
/// semicolons.
pub proof fn differences_are_shown_in_quotes(ds: Seq<DiffView>, d: DiffView)
    ensures
        diff_item(d) == seq!['«'] + d.wrong_text + seq!['»', '→', '«'] + d.right_text + seq!['»'],
        diff_summary(ds) == joined(ds.map_values(|x: DiffView| diff_item(x)), seq![';', ' ']),
{
    reveal_strlit("«");
    reveal_strlit("»→«");
    reveal_strlit("»");
    reveal_strlit("; ");
    assert("«"@ =~= seq!['«']);
    assert("»→«"@ =~= seq!['»', '→', '«']);
    assert("»"@ =~= seq!['»']);
    assert("; "@ =~= seq![';', ' ']);
    assert(Seq::new(ds.len(), |i: int| diff_item(ds[i])) =~= ds.map_values(
        |x: DiffView| diff_item(x),
    ));
}

proof fn lemma_tabs(s: Seq<char>)
    ensures
        replaced_from(s, seq!['\t'], seq![' '], 0) == s.map_values(
            |c: char|
                if c == '\t' {
                    ' '
                } else {
                    c
                },
        ),
    decreases s.len(),
{
    let f = |c: char|
        if c == '\t' {
            ' '
        } else {
            c
        };
    if s.len() > 0 {
        let c = s[0];
        let rest = s.skip(1);
        assert(s =~= seq![c] + rest);
        lemma_tabs(rest);
        replacing_goes_from_left_to_right(c, rest, seq!['\t'], seq![' ']);
        if c == '\t' {
            assert(s =~= seq!['\t'] + rest);
        } else if (seq![c] + rest).take(1) == seq!['\t'] {
            assert((seq![c] + rest).take(1)[0] == c);
        }
        assert(s.map_values(f) =~= seq![f(c)] + rest.map_values(f));
    } else {
        assert(s.map_values(f) =~= Seq::empty());
        assert(replaced_from(s, seq!['\t'], seq![' '], 0) =~= Seq::empty());
    }
}

/// In a place that is written in a row, every tab becomes a space and nothing else changes.
pub proof fn tabs_become_spaces(s: Seq<char>)
    ensures
        without_tabs(s) == s.map_values(
            |c: char|
                if c == '\t' {
                    ' '
                } else {
                    c
                },
        ),
{
    reveal_strlit("\t");
    reveal_strlit(" ");
    assert("\t"@ =~= seq!['\t']);
    assert(" "@ =~= seq![' ']);
    lemma_tabs(s);
}

/// A join is written as its pieces, the word and the place; a corrected word with its rank, its
/// differences, the reason and the place. Each change is written in the table of its kind, in
/// order.
pub proof fn changes_are_written_in_their_tables(cs: Seq<CorrectionView>, c: CorrectionView)
    ensures
        merge_row(c) == c.original + seq!['\t'] + c.corrected + seq!['\t'] + without_tabs(c.context),
        pair_row(c).head == c.original + seq!['\t'] + c.corrected + seq!['\t'],
        pair_row(c).rank == c.rank,
        pair_row(c).tail == seq!['\t'] + diff_summary(c.diffs) + seq!['\t'] + c.reason + seq!['\t']
            + without_tabs(c.context),
        merge_rows(cs) == cs.filter(|x: CorrectionView| x.is_merge).map_values(
            |x: CorrectionView| merge_row(x),
        ),
        pair_rows(cs) == cs.filter(|x: CorrectionView| !x.is_merge).map_values(
            |x: CorrectionView| pair_row(x),
        ),
    decreases cs.len(),
{
    reveal(Seq::filter);
    reveal_strlit("\t");
    assert("\t"@ =~= seq!['\t']);
    if cs.len() > 0 {
        changes_are_written_in_their_tables(cs.drop_last(), c);
    }
    assert(merge_rows(cs) =~= cs.filter(|x: CorrectionView| x.is_merge).map_values(
        |x: CorrectionView| merge_row(x),
    ));
    assert(pair_rows(cs) =~= cs.filter(|x: CorrectionView| !x.is_merge).map_values(
        |x: CorrectionView| pair_row(x),
    ));
}

/// A character stands out exactly if it lies in the text of a difference.
pub proof fn differing_characters_stand_out(ds: Seq<DiffView>, p: int)
    ensures
        wrong_marked(ds, p) <==> exists|i: int, x: int|
            0 <= i < ds.len() && 0 <= x < ds[i].wrong_text.len() && p == #[trigger] (
            ds[i].pos_wrong + x),
        right_marked(ds, p) <==> exists|i: int, x: int|
            0 <= i < ds.len() && 0 <= x < ds[i].right_text.len() && p == #[trigger] (
            ds[i].pos_right + x),
{
    if wrong_marked(ds, p) {
        let i = choose|i: int|
            0 <= i < ds.len() && (#[trigger] ds[i]).pos_wrong <= p < ds[i].pos_wrong
                + ds[i].wrong_text.len();
        let x = p - ds[i].pos_wrong;
        assert(p == ds[i].pos_wrong + x);
    }
    if right_marked(ds, p) {
        let i = choose|i: int|
            0 <= i < ds.len() && (#[trigger] ds[i]).pos_right <= p < ds[i].pos_right
                + ds[i].right_text.len();
        let x = p - ds[i].pos_right;
        assert(p == ds[i].pos_right + x);
    }
}

/// A record is shown under its title, or under a dash if it has none.
pub proof fn records_are_shown_under_their_title(r: RecordView)
    ensures
        r.title.len() > 0 ==> shown_title(r) == r.title,
        r.title.len() == 0 ==> shown_title(r) == seq!['—'],
{
    reveal_strlit("—");
    assert("—"@ =~= seq!['—']);
}

/// A run of stems is named by its length, its stems in quotes and its count.
pub proof fn runs_are_named_by_their_stems(h: HitView)
    ensures
        hit_label(h) == decimal(h.n) + "-gram «"@ + spaced(h.key) + seq!['»', ':'] + decimal(h.freq),
{
    reveal_strlit("»:");
    assert("»:"@ =~= seq!['»', ':']);
}

} // verus!

use ocr_corrector::diffs::AlignDiff;
use ocr_corrector::display::{
    make_sample, mark_change, row_of_merge, row_of_pair, rows_of_changes, sample_examples,
    show_title, show_top_letters, show_top_subs, summarize_diffs, top_errors, MERGE_COLUMNS,
    PAIR_COLUMNS,
};
use ocr_corrector::examples::Example;
use ocr_corrector::merge::Correction;
use ocr_corrector::records::Record;
use ocr_corrector::report::{
    collect_artifacts, confusion_rows, letter_rows, matrix_rows, ngram_rows,
};
use ocr_corrector::stats::GlobalStats;

fn strings(ws: &[&str]) -> Vec<String> {
    ws.iter().map(|w| w.to_string()).collect()
}

fn example(original: &str, context: &str) -> Example {
    Example {
        original: original.to_string(),
        corrected: original.to_uppercase(),
        rule: "a→b".to_string(),
        reason: "Pass1".to_string(),
        context: context.to_string(),
        rank: 5,
    }
}

fn diff(wrong: &str, right: &str, pos_wrong: usize, pos_right: usize) -> AlignDiff {
    AlignDiff {
        wrong_text: wrong.to_string(),
        right_text: right.to_string(),
        pos_wrong,
        pos_right,
    }
}

fn change(diffs: Vec<AlignDiff>, context: &str) -> Correction {
    Correction {
        original: "гор0д".to_string(),
        corrected: "городъ".to_string(),
        diffs,
        context: context.to_string(),
        rank: 77,
        reason: "why".to_string(),
        is_merge: false,
    }
}

#[test]
fn tables_have_the_greatest_counts_first() {
    assert_eq!(
        confusion_rows(&[(('a', 'b'), 1), (('c', 'd'), 30), (('e', 'f'), 1)]),
        strings(&["c\td\t30", "a\tb\t1", "e\tf\t1"])
    );
    assert_eq!(letter_rows(&[('x', 2), ('y', 10)]), strings(&["y\t10", "x\t2"]));
    let es = [
        (("a".to_string(), "b".to_string()), 1),
        (("".to_string(), "ъ".to_string()), 4),
    ];
    assert_eq!(matrix_rows(&es), vec![(" -> ъ".to_string(), 4), ("a -> b".to_string(), 1)]);
}

#[test]
fn runs_are_listed_by_length_and_count() {
    let es = [
        (strings(&["a", "b"]), 3),
        (strings(&["a", "b", "c"]), 9),
        (strings(&["c", "d"]), 5),
        (strings(&["e", "f"]), 2),
        (strings(&["g", "h", "i", "j"]), 9),
    ];
    assert_eq!(
        ngram_rows(&es, 3, 3),
        strings(&["3\t9\ta b c", "2\t5\tc d", "2\t3\ta b"])
    );
    assert_eq!(ngram_rows(&es, 1, 0), Vec::<String>::new());
}

#[test]
fn only_the_first_five_hundred_runs_are_listed() {
    let es: Vec<(Vec<String>, usize)> =
        (0..600).map(|i| (strings(&["a", &i.to_string()]), i)).collect();
    let rows = ngram_rows(&es, 2, 0);
    assert_eq!(rows.len(), 500);
    assert_eq!(rows[0], "2\t599\ta 599");
    assert_eq!(rows[499], "2\t100\ta 100");
}

#[test]
fn artifacts_show_the_statistics() {
    let mut s = GlobalStats::new();
    s.ocr_confusions.set(('a', 'b'), 2);
    s.ocr_confusions.set(('c', 'd'), 7);
    s.ocr_insertions.set('ъ', 3);
    s.ocr_deletions.set('-', 4);
    s.error_matrix.set(("a".to_string(), "b".to_string()), 2);
    s.ngrams.set(strings(&["x", "y"]), 5);
    for i in 0..6 {
        s.examples_sub.add('a', 'b', example(&i.to_string(), "ctx"));
    }
    let a = collect_artifacts(&s, 7, 3);
    assert_eq!(a.matrix, vec![("a -> b".to_string(), 2)]);
    assert_eq!(a.confusions, strings(&["char_from\tchar_to\tfrequency", "c\td\t7", "a\tb\t2"]));
    assert_eq!(a.insertions, strings(&["char_inserted\tfrequency", "ъ\t3"]));
    assert_eq!(a.deletions, strings(&["char_deleted\tfrequency", "-\t4"]));
    assert_eq!(a.ngrams, strings(&["n\tfrequency\tngram", "2\t5\tx y"]));
    assert_eq!(a.example_columns, "original\tcorrected\trule\tscore\treason\tcontext");
    assert_eq!(a.examples.len(), 5);
    assert_eq!(a.examples[0].head, "0\t0\ta→b\t");
    assert_eq!(a.examples[0].rank, 5);
    assert_eq!(a.examples[0].tail, "\tPass1\tctx");
    assert_eq!(a.examples[4].head, "4\t4\ta→b\t");
}

#[test]
fn top_errors_are_listed_in_one_line() {
    assert_eq!(show_top_subs(&[(('a', 'b'), 1), (('c', 'd'), 30)]), "c→d(30), a→b(1)");
    assert_eq!(show_top_letters('+', &[('x', 2), ('y', 10)]), "+y(10), +x(2)");
    assert_eq!(show_top_letters('-', &[]), "");
    let many: Vec<((char, char), usize)> = ('a'..='z').map(|c| ((c, 'x'), 1)).collect();
    assert_eq!(show_top_subs(&many).split(", ").count(), 12);
    let many: Vec<(char, usize)> = ('a'..='z').map(|c| (c, 1)).collect();
    assert_eq!(show_top_letters('-', &many).split(", ").count(), 8);
}

#[test]
fn top_errors_come_from_the_statistics() {
    let mut s = GlobalStats::new();
    s.ocr_confusions.set(('a', 'b'), 2);
    s.ocr_insertions.set('ъ', 3);
    s.ocr_deletions.set('-', 4);
    let t = top_errors(&s);
    assert_eq!((t.subs.as_str(), t.insertions.as_str(), t.deletions.as_str()), ("a→b(2)", "+ъ(3)", "--(4)"));
}

#[test]
fn samples_are_examples_of_their_pair() {
    let mut s = GlobalStats::new();
    let mut rng = rand::thread_rng();
    assert!(sample_examples(&s, &mut rng).is_empty());
    for (i, c) in ('a'..='j').enumerate() {
        s.ocr_confusions.set((c, 'x'), 100 - i);
    }
    s.examples_sub.add('a', 'x', example("one", "here"));
    s.examples_sub.add('a', 'x', example("two", "there"));
    s.examples_sub.add('c', 'x', example("three", "far"));
    s.examples_sub.add('j', 'x', example("late", "away"));
    for _ in 0..20 {
        let got = sample_examples(&s, &mut rng);
        assert_eq!(got.len(), 2);
        assert_eq!((got[0].freq, got[0].from, got[0].to), (100, 'a', 'x'));
        assert!(
            (got[0].original == "one" && got[0].context == "here")
                || (got[0].original == "two" && got[0].context == "there")
        );
        assert_eq!((got[1].freq, got[1].original.as_str()), (98, "three"));
    }
    let one = make_sample('p', 'q', 3, &example("w", "c"));
    assert_eq!((one.freq, one.from, one.to), (3, 'p', 'q'));
    assert_eq!((one.original.as_str(), one.context.as_str()), ("w", "c"));
}

#[test]
fn changes_are_written_as_rows() {
    let c = change(vec![diff("0", "о", 3, 3), diff("", "ъ", 5, 5)], "a\tb c");
    assert_eq!(summarize_diffs(&c.diffs), "«0»→«о»; «»→«ъ»");
    let row = row_of_pair(&c);
    assert_eq!(row.head, "гор0д\tгородъ\t");
    assert_eq!(row.rank, 77);
    assert_eq!(row.tail, "\t«0»→«о»; «»→«ъ»\twhy\ta b c");
    assert_eq!(row_of_merge(&c), "гор0д\tгородъ\ta b c");
}

#[test]
fn every_change_goes_to_one_table() {
    let mut join = change(vec![], "");
    join.is_merge = true;
    let rows = rows_of_changes(&[change(vec![], "x"), join, change(vec![], "y")]);
    assert_eq!(rows.merges, strings(&["гор0д\tгородъ\t"]));
    assert_eq!(rows.pairs.len(), 2);
    assert_eq!(rows.pairs[0].tail, "\t\twhy\tx");
    assert_eq!(rows.pairs[1].tail, "\t\twhy\ty");
    assert_eq!(PAIR_COLUMNS.split('\t').count(), 6);
    assert_eq!(MERGE_COLUMNS.split('\t').count(), 3);
    let none = rows_of_changes(&[]);
    assert!(none.merges.is_empty() && none.pairs.is_empty());
}

#[test]
fn missing_title_is_a_dash() {
    let mut r = Record { text: String::new(), title: String::new(), date: String::new() };
    assert_eq!(show_title(&r), "—");
    r.title = "Имя".to_string();
    assert_eq!(show_title(&r), "Имя");
}

#[test]
fn differing_characters_are_marked() {
    let c = change(vec![diff("0", "о", 3, 3), diff("", "ъ", 5, 5)], "");
    let m = mark_change(&c);
    assert_eq!(m.original, vec![false, false, false, true, false]);
    assert_eq!(m.corrected, vec![false, false, false, true, false, true]);
    assert_eq!(m.either, vec![false, false, false, true, false, true]);
    let m = mark_change(&change(vec![diff("xyz", "", 4, 9), diff("q", "q", usize::MAX, 0)], ""));
    assert_eq!(m.original, vec![false, false, false, false, true]);
    assert_eq!(m.corrected, vec![true, false, false, false, false, false]);
    assert_eq!(m.either, vec![true, false, false, false, true, false]);
}

use ahash::RandomState;
use fastbloom::BloomFilter;
use ocr_corrector::dictionary::Dictionary;
use ocr_corrector::examples::{rule_name_of, Example, ExampleBook, MAX_EXAMPLES};
use ocr_corrector::learn::{
    collect_text_ngrams, find_nearest, pass1_process_text, Lesson, LEARNED_RANK,
};
use ocr_corrector::learned::{correction_is_acceptable, is_acceptable_ocr_correction, LearnedPairs};
use ocr_corrector::ngrams::collect_ngrams;
use ocr_corrector::order::{descending_order, sort_by_count};
use ocr_corrector::runs::{finish_batch, learn_batch};
use ocr_corrector::settings::Settings;
use ocr_corrector::stats::{Checkpoint, GlobalStats};
use ocr_corrector::words::NounPolicy;

fn strings(ws: &[&str]) -> Vec<String> {
    ws.iter().map(|w| w.to_string()).collect()
}

fn dictionary(ws: &[&str]) -> Dictionary {
    let list: Vec<String> = ws.iter().filter_map(|w| Dictionary::accept_line(w)).collect();
    let filter = BloomFilter::with_false_pos(0.001)
        .hasher(RandomState::new())
        .expected_items(list.len());
    Dictionary::build(&list, filter)
}

fn settings(fix: bool, only: bool) -> Settings {
    Settings {
        policy: NounPolicy { fix_proper_nouns: fix, only_proper_nouns: only },
        min_word_len: 5,
        max_edit_dist: 2,
        min_rule_freq: 3,
        min_confusion_freq: 8,
        min_ngram_freq: 3,
        max_ngram: 3,
    }
}

fn sorted<T: Ord>(mut v: Vec<T>) -> Vec<T> {
    v.sort();
    v
}

fn example(original: &str, rank: i64) -> Example {
    Example {
        original: original.to_string(),
        corrected: String::new(),
        rule: String::new(),
        reason: String::new(),
        context: String::new(),
        rank,
    }
}

#[test]
fn scores_are_ranked_by_their_bits() {
    assert_eq!(LEARNED_RANK, 1.0f64.to_bits() as i64);
    assert_eq!(ocr_corrector::merge::MERGE_RANK, 100.0f64.to_bits() as i64);
}

#[test]
fn ngrams_are_runs_of_neighbours() {
    let stems = strings(&["aa", "bb", "cc"]);
    assert_eq!(
        collect_ngrams(&stems, 3),
        vec![strings(&["aa", "bb"]), strings(&["bb", "cc"]), strings(&["aa", "bb", "cc"])]
    );
    assert_eq!(collect_ngrams(&stems, 100).len(), 3);
    assert_eq!(collect_ngrams(&stems, 1), Vec::<Vec<String>>::new());
    assert_eq!(collect_ngrams(&stems[..1], 3), Vec::<Vec<String>>::new());
}

#[test]
fn ngrams_leave_out_stems_of_one_byte() {
    let stems = strings(&["aa", "b", "cc", "ъ", "dd"]);
    assert_eq!(
        collect_ngrams(&stems, 3),
        vec![strings(&["cc", "ъ"]), strings(&["ъ", "dd"]), strings(&["cc", "ъ", "dd"])]
    );
}

#[test]
fn text_ngrams_stop_at_unknown_words() {
    let d = dictionary(&["домъ", "стоитъ", "садъ"]);
    let ws = strings(&["Домъ", "стоитъ.", "тамъ", "садъ", "стоитъ", "12", "домъ"]);
    assert_eq!(
        collect_text_ngrams(&ws, &d, 3),
        vec![strings(&["домъ", "стоит"]), strings(&["садъ", "стоит"])]
    );
}

#[test]
fn nearest_word_is_the_first_of_the_least_distance() {
    let list = strings(&["городамъ", "городу", "городъ", "горохъ"]);
    assert_eq!(find_nearest("городь", &list, false, 2), Some((1, 1)));
    assert_eq!(find_nearest("городъ", &list, false, 2), Some((1, 1)));
    assert_eq!(find_nearest("гмродь", &list, false, 2), Some((1, 2)));
    assert_eq!(find_nearest("гмродь", &list, false, 1), None);
    assert_eq!(find_nearest("совсем", &list, false, 2), None);
    assert_eq!(find_nearest("городъ", &list[2..3].to_vec(), false, 2), None);
}

#[test]
fn nearest_word_keeps_surname_endings() {
    let list = strings(&["петрова", "пeтровъ"]);
    assert_eq!(find_nearest("петровъ", &list, true, 2), Some((1, 1)));
    assert_eq!(find_nearest("петровъ", &list, false, 2), Some((0, 1)));
}

#[test]
fn text_teaches_errors_and_examples() {
    let d = dictionary(&["городъ", "стоитъ", "на", "рѣкѣ"]);
    let l: Lesson = pass1_process_text("Гор0дъ стоитъ на рѣкѣ", &d, settings(false, false));
    assert_eq!(l.oov, 1);
    assert_eq!(l.matched, 1);
    assert_eq!(l.skipped, 0);
    assert_eq!(l.rules, vec![("0".to_string(), "о".to_string())]);
    assert_eq!(l.confusions, vec![('0', 'о')]);
    assert!(l.insertions.is_empty() && l.deletions.is_empty());
    assert_eq!(l.examples.len(), 1);
    let e = &l.examples[0];
    assert_eq!((e.from, e.to), ('0', 'о'));
    assert_eq!(e.example.original, "Гор0дъ");
    assert_eq!(e.example.corrected, "Городъ");
    assert_eq!(e.example.rule, "0→о");
    assert_eq!(e.example.reason, "Pass1");
    assert_eq!(e.example.context, "Гор0дъ стоитъ на рѣкѣ");
    assert_eq!(e.example.rank, LEARNED_RANK);
    assert_eq!(
        l.ngrams,
        vec![
            strings(&["стоит", "на"]),
            strings(&["на", "рѣкѣ"]),
            strings(&["стоит", "на", "рѣкѣ"])
        ]
    );
}

#[test]
fn text_teaches_nothing_of_short_known_and_protected_words() {
    let d = dictionary(&["городъ", "москва"]);
    let l = pass1_process_text("городъ гор Москла", &d, settings(false, false));
    assert_eq!((l.oov, l.matched, l.skipped), (0, 0, 1));
    let l = pass1_process_text("городъ гор Москла", &d, settings(true, false));
    assert_eq!((l.oov, l.matched, l.skipped), (1, 1, 0));
    let l = pass1_process_text("гарадъ гор Москла", &d, settings(false, true));
    assert_eq!((l.oov, l.matched, l.skipped), (1, 1, 0));
    let l = pass1_process_text("гырадъ Хxxxxx", &d, settings(true, false));
    assert_eq!((l.oov, l.matched, l.skipped), (2, 0, 0));
}

#[test]
fn distant_words_teach_rules_but_no_confusions() {
    let d = dictionary(&["городъ"]);
    let mut st = settings(false, false);
    st.max_edit_dist = 3;
    let l = pass1_process_text("гоxyzъ", &d, st);
    assert_eq!(l.matched, 1);
    assert_eq!(l.rules, vec![("xyz".to_string(), "род".to_string())]);
    assert!(l.confusions.is_empty());
    assert!(l.examples.is_empty());
}

#[test]
fn example_shows_the_words_around_in_the_text() {
    let d = dictionary(&["городъ"]);
    let l = pass1_process_text("а б в г гор0дъ д е ж з", &d, settings(false, false));
    assert_eq!(l.examples[0].example.context, "б в г гор0дъ д е ж");
}

#[test]
fn lessons_are_recorded_in_every_table() {
    let d = dictionary(&["городъ", "стоитъ"]);
    let mut s = GlobalStats::new();
    let l = pass1_process_text("гор0дъ стоитъ городъ. Петровъ", &d, settings(false, false));
    assert!(s.record(&l));
    assert!(s.record(&l));
    assert_eq!(s.ocr_confusions.get(('0', 'о')), Some(2));
    assert_eq!(s.error_matrix.get(&"0".to_string(), &"о".to_string()), Some(2));
    assert_eq!(s.ngram_freq(&strings(&["стоит", "город"])), 2);
    assert_eq!(s.ngram_freq(&strings(&["город", "стоит"])), 0);
    assert_eq!(s.examples_sub.get('0', 'о').unwrap().len(), 2);
    assert!(s.examples_sub.get('о', '0').is_none());
    assert_eq!((s.total_oov, s.total_matched, s.skipped_proper_nouns), (4, 2, 0));
}

#[test]
fn recording_order_does_not_change_counts() {
    let d = dictionary(&["городъ", "стоитъ", "домикъ"]);
    let a = pass1_process_text("гор0дъ стоитъ домикъ", &d, settings(false, false));
    let b = pass1_process_text("дом1къ стоитъ городъ гор0дъ", &d, settings(false, false));
    let mut ab = GlobalStats::new();
    assert!(ab.record(&a) && ab.record(&b));
    let mut ba = GlobalStats::new();
    assert!(ba.record(&b) && ba.record(&a));
    assert_eq!(sorted(ab.ngrams.entries()), sorted(ba.ngrams.entries()));
    assert_eq!(sorted(ab.error_matrix.entries()), sorted(ba.error_matrix.entries()));
    assert_eq!(sorted(ab.ocr_confusions.entries()), sorted(ba.ocr_confusions.entries()));
    assert_eq!(sorted(ab.ocr_insertions.entries()), sorted(ba.ocr_insertions.entries()));
    assert_eq!(sorted(ab.ocr_deletions.entries()), sorted(ba.ocr_deletions.entries()));
    assert_eq!(ab.total_oov, ba.total_oov);
    assert_eq!(ab.total_matched, ba.total_matched);
    assert_eq!(ab.skipped_proper_nouns, ba.skipped_proper_nouns);
    assert!(ab.total_matched <= ab.total_oov);
    assert_eq!((ab.processed, ab.fast_path_hits, ab.slow_path_hits), (0, 0, 0));
}

#[test]
fn recording_fails_when_a_count_is_full() {
    let d = dictionary(&["городъ"]);
    let l = pass1_process_text("гор0дъ", &d, settings(false, false));
    let mut s = GlobalStats::new();
    s.ocr_confusions.set(('0', 'о'), usize::MAX);
    assert!(!s.record(&l));
    let mut s = GlobalStats::new();
    s.total_oov = usize::MAX;
    assert!(s.record(&l));
    assert_eq!(s.total_oov, 0);
}

#[test]
fn checkpoint_restores_what_was_counted() {
    let d = dictionary(&["городъ", "стоитъ"]);
    let mut s = GlobalStats::new();
    let l = pass1_process_text("гор0дъ гордъ горродъ стоитъ городъ", &d, settings(false, false));
    assert!(learn_batch(&mut s, &[l]));
    let cp: Checkpoint = s.to_checkpoint();
    assert_eq!(cp.processed, 1);
    let mut t = GlobalStats::new();
    t.load_checkpoint(&cp);
    assert_eq!(t.processed, 1);
    assert_eq!(t.total_oov, s.total_oov);
    assert_eq!(t.total_matched, s.total_matched);
    assert_eq!(t.skipped_proper_nouns, s.skipped_proper_nouns);
    assert_eq!(sorted(t.error_matrix.entries()), sorted(s.error_matrix.entries()));
    assert_eq!(sorted(t.ocr_confusions.entries()), sorted(s.ocr_confusions.entries()));
    assert_eq!(sorted(t.ocr_insertions.entries()), sorted(s.ocr_insertions.entries()));
    assert_eq!(sorted(t.ocr_deletions.entries()), sorted(s.ocr_deletions.entries()));
    assert_eq!(sorted(t.ngrams.entries()), sorted(s.ngrams.entries()));
    assert!(t.examples_sub.get('0', 'о').is_none());
    assert_eq!(s.ocr_insertions.get('о'), Some(1));
    assert_eq!(s.ocr_deletions.get('р'), Some(1));
}

#[test]
fn checkpoint_is_written_over_what_is_there() {
    let mut s = GlobalStats::new();
    s.ocr_confusions.set(('a', 'b'), 5);
    s.ocr_confusions.set(('c', 'd'), 6);
    let cp = Checkpoint {
        processed: 3,
        total_oov: 0,
        total_matched: 0,
        skipped_proper_nouns: 0,
        error_matrix: vec![],
        ocr_confusions: vec![('a', 'b', 1), ('a', 'b', 2)],
        ocr_insertions: vec![('x', 4)],
        ocr_deletions: vec![],
        ngrams: vec![(strings(&["p", "q"]), 8)],
    };
    s.load_checkpoint(&cp);
    assert_eq!(s.ocr_confusions.get(('a', 'b')), Some(2));
    assert_eq!(s.ocr_confusions.get(('c', 'd')), Some(6));
    assert_eq!(s.ocr_insertions.get('x'), Some(4));
    assert_eq!(s.ngram_freq(&strings(&["p", "q"])), 8);
    assert_eq!(s.processed, 3);
}

#[test]
fn pruning_forgets_single_runs_past_the_limit() {
    let mut s = GlobalStats::new();
    assert!(s.ngrams.count_all(&[strings(&["a", "b"]), strings(&["c", "d"]), strings(&["a", "b"])]));
    assert_eq!(s.prune_memory(2), None);
    assert_eq!(s.ngrams.len(), 2);
    assert_eq!(s.prune_memory(1), Some((2, 1)));
    assert_eq!(s.ngram_freq(&strings(&["a", "b"])), 2);
    assert_eq!(s.ngram_freq(&strings(&["c", "d"])), 0);
}

#[test]
fn batch_counts_records_and_calls_for_checkpoints() {
    let d = dictionary(&["городъ"]);
    let lesson = || pass1_process_text("гор0дъ городъ городъ", &d, settings(false, false));
    let mut s = GlobalStats::new();
    let end = finish_batch(&mut s, &[lesson(), lesson()], 1000, 3).unwrap();
    assert_eq!(s.processed, 2);
    assert!(!end.checkpoint);
    assert_eq!(end.pruned, None);
    let end = finish_batch(&mut s, &[lesson()], 0, 3).unwrap();
    assert_eq!(s.processed, 3);
    assert!(end.checkpoint);
    assert_eq!(end.pruned, Some((1, 1)));
    assert_eq!(s.ocr_confusions.get(('0', 'о')), Some(3));
    s.ocr_confusions.set(('0', 'о'), usize::MAX);
    assert!(finish_batch(&mut s, &[lesson()], 0, 3).is_none());
}

#[test]
fn learned_pairs_are_the_frequent_ones() {
    let mut s = GlobalStats::new();
    s.ocr_confusions.set(('0', 'о'), 30);
    s.ocr_confusions.set(('1', 'л'), 29);
    s.ocr_insertions.set('ъ', 31);
    s.ocr_deletions.set('-', 30);
    s.ocr_deletions.set('+', 1);
    let l = LearnedPairs::build(&s, 30);
    assert_eq!(l.sizes(), (1, 1, 1));
    assert!(l.subs.contains(&('0', 'о')));
    assert!(!l.subs.contains(&('1', 'л')));
    assert!(is_acceptable_ocr_correction("д0мъ", "домъ", &l));
    assert!(is_acceptable_ocr_correction("дом", "домъ", &l));
    assert!(is_acceptable_ocr_correction("до-мъ", "домъ", &l));
    assert!(!is_acceptable_ocr_correction("дом1", "домл", &l));
    assert!(!is_acceptable_ocr_correction("до+мъ", "домъ", &l));
    assert!(is_acceptable_ocr_correction("домъ", "домъ", &l));
}

#[test]
fn explained_corrections_have_few_edits() {
    let mut s = GlobalStats::new();
    s.ocr_confusions.set(('0', 'о'), 9);
    s.ocr_insertions.set('а', 9);
    let l = LearnedPairs::build(&s, 1);
    assert!(is_acceptable_ocr_correction("000", "ооо", &l));
    assert!(!is_acceptable_ocr_correction("000бб", "ооо", &l));
    assert!(!is_acceptable_ocr_correction("х000х", "хооох", &l));
    assert!(is_acceptable_ocr_correction("хх00х", "ххоох", &l));
    assert!(is_acceptable_ocr_correction("х", "хаа", &l));
    assert!(!is_acceptable_ocr_correction("х", "хааа", &l));
}

#[test]
fn acceptable_corrections_leave_surnames_alone() {
    let mut s = GlobalStats::new();
    s.ocr_confusions.set(('ъ', 'а'), 9);
    let l = LearnedPairs::build(&s, 1);
    assert!(correction_is_acceptable("петровъ", "петрова", false, &l));
    assert!(!correction_is_acceptable("петровъ", "петрова", true, &l));
    assert!(!correction_is_acceptable("петровъ", "петровы", false, &l));
}

#[test]
fn lower_threshold_explains_more() {
    let mut s = GlobalStats::new();
    s.ocr_confusions.set(('0', 'о'), 10);
    s.ocr_deletions.set('-', 5);
    let strict = LearnedPairs::build(&s, 8);
    let lax = LearnedPairs::build(&s, 2);
    assert_eq!(strict.sizes(), (1, 0, 0));
    assert_eq!(lax.sizes(), (1, 0, 1));
    for (wrong, right) in [("д0мъ", "домъ"), ("до-мъ", "домъ"), ("д1мъ", "домъ")] {
        let less = is_acceptable_ocr_correction(wrong, right, &strict);
        let more = is_acceptable_ocr_correction(wrong, right, &lax);
        assert!(!less || more);
    }
    assert!(!is_acceptable_ocr_correction("до-мъ", "домъ", &strict));
    assert!(is_acceptable_ocr_correction("до-мъ", "домъ", &lax));
}

#[test]
fn no_character_is_confused_with_itself() {
    let d = dictionary(&["городъ", "домикъ"]);
    for text in ["гор0дъ дмикъ", "горродъ домккъ", "ггородъ домик"] {
        let l = pass1_process_text(text, &d, settings(false, false));
        assert!(l.matched > 0);
        assert!(l.confusions.iter().all(|(a, b)| a != b));
    }
}

#[test]
fn each_word_is_counted_once() {
    let d = dictionary(&["городъ", "москва", "домикъ"]);
    for text in ["гор0дъ Москла ххххх домикъ", "", "а б в", "Гор0дъ. Дом1къ! Москла"] {
        let l = pass1_process_text(text, &d, settings(false, false));
        assert!(l.matched <= l.oov);
        assert!(l.oov + l.skipped <= text.split_whitespace().count());
        assert!(l.examples.len() <= l.matched);
    }
}

#[test]
fn resumed_run_counts_what_the_whole_run_counts() {
    let d = dictionary(&["городъ", "стоитъ"]);
    let first = || pass1_process_text("гор0дъ стоитъ городъ", &d, settings(false, false));
    let second = || pass1_process_text("горoдъ городъ стоитъ", &d, settings(false, false));
    let mut whole = GlobalStats::new();
    assert!(learn_batch(&mut whole, &[first(), second()]));
    let mut start = GlobalStats::new();
    assert!(learn_batch(&mut start, &[first()]));
    let mut resumed = GlobalStats::new();
    resumed.load_checkpoint(&start.to_checkpoint());
    assert!(learn_batch(&mut resumed, &[second()]));
    assert_eq!(resumed.processed, whole.processed);
    assert_eq!(resumed.total_oov, whole.total_oov);
    assert_eq!(sorted(resumed.ngrams.entries()), sorted(whole.ngrams.entries()));
    assert_eq!(sorted(resumed.ocr_confusions.entries()), sorted(whole.ocr_confusions.entries()));
    assert_eq!(sorted(resumed.error_matrix.entries()), sorted(whole.error_matrix.entries()));
}

#[test]
fn sorting_by_count_is_stable() {
    let es = [('a', 1), ('b', 3), ('c', 1), ('d', 3), ('e', 2)];
    assert_eq!(sort_by_count(&es), vec![('b', 3), ('d', 3), ('e', 2), ('a', 1), ('c', 1)]);
    assert_eq!(descending_order(&[5, 7, 5, -1]), vec![1, 0, 2, 3]);
    assert_eq!(descending_order(&[]), Vec::<usize>::new());
}

#[test]
fn examples_keep_the_best_fifty() {
    let mut b = ExampleBook::new();
    for i in 0..MAX_EXAMPLES {
        b.add('a', 'b', example(&i.to_string(), i as i64));
    }
    assert_eq!(b.get('a', 'b').unwrap().len(), 50);
    assert_eq!(b.get('a', 'b').unwrap()[0].original, "0");
    b.add('a', 'b', example("new", 25));
    let list = b.get('a', 'b').unwrap();
    assert_eq!(list.len(), 50);
    assert_eq!(list[0].original, "49");
    assert_eq!(list[24].original, "25");
    assert_eq!(list[25].original, "new");
    assert_eq!(list[49].original, "1");
    b.add('a', 'b', example("low", 0));
    assert_eq!(b.get('a', 'b').unwrap()[49].original, "1");
    b.add('b', 'a', example("other", 1));
    assert_eq!(b.get('b', 'a').unwrap().len(), 1);
    assert_eq!(rule_name_of('a', 'b'), "a→b");
}

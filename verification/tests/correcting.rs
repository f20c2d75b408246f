use ahash::RandomState;
use fastbloom::BloomFilter;
use ocr_corrector::candidates::{
    lookup_corrections, variant_corrections, Candidate, Evidence, Knowledge, Place,
};
use ocr_corrector::correct::{
    correction_options, find_best_correction, pass2_correct_record, plan_corrections, Plan,
};
use ocr_corrector::dictionary::Dictionary;
use ocr_corrector::learned::LearnedPairs;
use ocr_corrector::merge::{merge_split_words, try_merge, Correction, MERGE_RANK};
use ocr_corrector::ngrams::{label_of_hit, ngram_context, NgramHit};
use ocr_corrector::display::rows_of_changes;
use ocr_corrector::records::{parse_line, Record};
use ocr_corrector::runs::Intake;
use ocr_corrector::settings::Settings;
use ocr_corrector::stats::GlobalStats;
use ocr_corrector::variants::{
    comes_before, frequent_confusions, generate_ocr_variants, rank_confusions, variants_with,
};
use ocr_corrector::words::NounPolicy;

fn strings(ws: &[&str]) -> Vec<String> {
    ws.iter().map(|w| w.to_string()).collect()
}

fn dictionary(ws: &[&str]) -> Dictionary {
    let list: Vec<String> = ws.iter().filter_map(|w| Dictionary::accept_line(w)).collect();
    let filter = BloomFilter::with_false_pos(0.001)
        .hasher(RandomState::new())
        .expected_items(list.len());
    Dictionary::build(&list, filter)
}

fn settings() -> Settings {
    Settings {
        policy: NounPolicy { fix_proper_nouns: false, only_proper_nouns: false },
        min_word_len: 5,
        max_edit_dist: 2,
        min_rule_freq: 3,
        min_confusion_freq: 8,
        min_ngram_freq: 3,
        max_ngram: 3,
    }
}

fn merged(words: &[&str], d: &Dictionary) -> Vec<String> {
    merge_split_words(&strings(words), d).0
}

fn record(text: &str) -> Record {
    Record { text: text.to_string(), title: "Заглавіе".to_string(), date: "1900".to_string() }
}

/// Ranks every candidate of a plan by the function given.
fn ranks_by(plan: &Plan, rank: fn(&Candidate) -> i64) -> Vec<Vec<i64>> {
    plan.planned.iter().map(|p| p.options.iter().map(rank).collect()).collect()
}

/// Corrects a text, with the same rank for every candidate.
fn correct(text: &str, d: &Dictionary, s: &GlobalStats, st: Settings) -> (String, Vec<Correction>) {
    let learned = LearnedPairs::build(s, 30);
    let k = Knowledge::new(d, s, &learned, st);
    let plan = plan_corrections(text, &k);
    let ranks = ranks_by(&plan, |_| 1);
    let mut rec = record(text);
    let done = pass2_correct_record(&mut rec, plan, &ranks);
    assert_eq!(rec.title, "Заглавіе");
    assert_eq!(rec.date, "1900");
    (rec.text, done.corrections)
}

#[test]
fn torn_words_are_joined() {
    let d = dictionary(&["государь", "домъ"]);
    let (words, changes) = merge_split_words(&strings(&["«Го", "су", "дарь»,", "домъ"]), &d);
    assert_eq!(words, strings(&["«Государь»,", "домъ"]));
    assert_eq!(changes.len(), 1);
    assert_eq!(changes[0].original, "«Го су дарь»,");
    assert_eq!(changes[0].corrected, "Государь");
    assert_eq!(changes[0].reason, "склейка");
    assert_eq!(changes[0].rank, MERGE_RANK);
    assert_eq!(changes[0].context, "");
    assert!(changes[0].is_merge);
    assert!(changes[0].diffs.is_empty());
}

#[test]
fn longest_run_is_joined_first() {
    let d = dictionary(&["перех", "переходъ", "переходъедетъ"]);
    assert_eq!(merged(&["пе", "рех", "одъ"], &d), strings(&["переходъ"]));
    assert_eq!(merged(&["пе", "рех", "о", "д"], &d), strings(&["перех", "о", "д"]));
    assert_eq!(merged(&["пе", "рех", "одъ", "едетъ"], &d), strings(&["переходъедетъ"]));
    assert_eq!(merged(&["п", "е", "р", "е", "х"], &d), strings(&["п", "е", "р", "е", "х"]));
}

#[test]
fn torn_pieces_become_one_word() {
    let d = dictionary(&["государь"]);
    for pieces in [&["госу", "дарь"][..], &["го", "су", "дарь"][..], &["го", "су", "да", "рь"][..]] {
        assert_eq!(merged(pieces, &d), strings(&["государь"]));
    }
    let five = ["г", "о", "су", "да", "рь"];
    assert_eq!(merged(&five, &d), strings(&five));
}

#[test]
fn joining_twice_joins_nothing_more() {
    let d = dictionary(&["государь", "городъ", "перех", "переходъ"]);
    for text in [
        "«Го су дарь», пе рех о дъ го родъ",
        "пе рех одъ госу дарь",
        "ГО СУ ДАРЬ х го родъ",
        "",
    ] {
        let words: Vec<String> = text.split_whitespace().map(String::from).collect();
        let (once, _) = merge_split_words(&words, &d);
        let (twice, changes) = merge_split_words(&once, &d);
        assert_eq!(twice, once);
        assert!(changes.is_empty());
    }
}

#[test]
fn known_words_keep_their_order_in_the_text() {
    let d = dictionary(&["домъ", "стоитъ", "тамъ", "государь", "городъ"]);
    let s = GlobalStats::new();
    let (text, _) = correct("Домъ го су дарь стоитъ, гор0дъ хх тамъ", &d, &s, settings());
    assert_eq!(text, "Домъ государь стоитъ, городъ хх тамъ");
}

#[test]
fn output_is_the_same_for_every_batch_size() {
    let d = dictionary(&["государь", "городъ"]);
    let s = GlobalStats::new();
    let lines = ["гор0дъ госу дарь и гор0дъ", "# note", "короткая", "государь въ го родъ г0родъ ли"];
    let run = |size: usize| -> (Vec<String>, Vec<String>, Vec<String>) {
        let mut out = (Vec::new(), Vec::new(), Vec::new());
        let mut flush = |batch: Vec<&str>| {
            for line in batch {
                let Some(rec) = parse_line(line, None) else { continue };
                let (text, changes) = correct(&rec.text, &d, &s, settings());
                let rows = rows_of_changes(&changes);
                out.0.push(text);
                out.1.extend(rows.merges);
                out.2.extend(rows.pairs.into_iter().map(|r| r.head + &r.tail));
            }
        };
        let mut intake: Intake<&str> = Intake::new(0, size);
        for line in lines {
            if let Some(batch) = intake.offer(Some(line)) {
                flush(batch);
            }
        }
        flush(intake.rest());
        out
    };
    let whole = run(100);
    assert_eq!(whole.0.len(), 2);
    assert_eq!(whole.1.len(), 2);
    assert_eq!(whole.2.len(), 3);
    for size in 0..6 {
        assert_eq!(run(size), whole);
    }
}

#[test]
fn digits_and_marks_inside_words_are_corrected() {
    let d = dictionary(&["жизнь", "домикъ", "лошадь", "площадь"]);
    let s = GlobalStats::new();
    for (wrong, right) in [
        ("*изнь", "жизнь"),
        ("ж3знь", "ж3знь"),
        ("дом1къ", "дом1къ"),
        ("дом:къ", "домикъ"),
        ("1ошадь", "лошадь"),
        ("/ошадь", "лошадь"),
        ("\\ошадь", "лошадь"),
        ("п|ощадь", "площадь"),
        ("пло;адь", "площадь"),
        ("пло;а9ь", "пло;а9ь"),
    ] {
        assert_eq!(correct(wrong, &d, &s, settings()).0, right);
    }
}

#[test]
fn known_words_and_short_results_are_not_joined() {
    let d = dictionary(&["го", "государь", "даль"]);
    assert_eq!(merged(&["го", "сударь"], &d), strings(&["го", "сударь"]));
    assert_eq!(merged(&["да", "ль"], &d), strings(&["да", "ль"]));
    assert_eq!(merged(&["госу", "12", "дарь"], &d), strings(&["госу", "12", "дарь"]));
    assert!(try_merge(&strings(&["госу", "дарь"]), 0, 2, &d).is_some());
    assert!(try_merge(&strings(&["госу", "дарь"]), 0, 3, &d).is_none());
    assert!(try_merge(&strings(&["госу", "дарь"]), 1, 2, &d).is_none());
}

#[test]
fn joining_never_adds_words() {
    let d = dictionary(&["государь", "городъ"]);
    for text in [&["го", "родъ", "госу", "дарь"][..], &["a"][..], &[][..]] {
        assert!(merged(text, &d).len() <= text.len());
    }
}

#[test]
fn texts_are_ordered_by_code_point() {
    let before = |a: &str, b: &str| {
        comes_before(&a.chars().collect::<Vec<_>>(), &b.chars().collect::<Vec<_>>())
    };
    for (a, b) in [("", "a"), ("a", "b"), ("a", "aa"), ("ab", "b"), ("z", "а"), ("я", "і")] {
        assert!(before(a, b));
        assert!(!before(b, a));
        assert!(a < b);
    }
    assert!(!before("a", "a"));
}

#[test]
fn digits_and_marks_stand_for_letters() {
    let texts: Vec<String> =
        variants_with("с1", &[]).into_iter().map(|v| v.text).collect();
    assert_eq!(texts, strings(&["сi", "сл", "ст", "сі"]));
    let v = &variants_with("3*", &[])[0];
    assert_eq!((v.text.as_str(), v.from, v.to, v.pos), ("3ж", '*', 'ж', 1));
    assert_eq!(variants_with("3*", &[]).len(), 2);
    assert!(variants_with("слово", &[]).is_empty());
}

#[test]
fn confusions_make_variants_at_every_place() {
    let vs = variants_with("ааб", &[(('а', 'о'), 9), (('б', 'в'), 8)]);
    let texts: Vec<&str> = vs.iter().map(|v| v.text.as_str()).collect();
    assert_eq!(texts, vec!["аав", "аоб", "оаб"]);
    assert_eq!((vs[1].from, vs[1].to, vs[1].pos), ('а', 'о', 1));
}

#[test]
fn first_suggestion_of_a_text_stays() {
    let vs = variants_with("11", &[(('1', 'л'), 9)]);
    let texts: Vec<&str> = vs.iter().map(|v| v.text.as_str()).collect();
    let mut sorted = texts.clone();
    sorted.sort();
    sorted.dedup();
    assert_eq!(texts, sorted);
    assert_eq!(vs.len(), 8);
    let vs = variants_with("аб", &[(('а', 'а'), 9), (('б', 'б'), 8)]);
    assert_eq!(vs.len(), 1);
    assert_eq!((vs[0].from, vs[0].pos), ('а', 0));
}

#[test]
fn variants_differ_in_the_place_they_name() {
    let word: Vec<char> = "1о0;х".chars().collect();
    for v in variants_with("1о0;х", &[(('х', 'к'), 9)]) {
        let got: Vec<char> = v.text.chars().collect();
        assert_eq!(got.len(), word.len());
        assert_eq!(word[v.pos], v.from);
        for i in 0..got.len() {
            assert_eq!(got[i], if i == v.pos { v.to } else { word[i] });
        }
    }
}

#[test]
fn frequent_confusions_come_first() {
    let es = [(('a', 'b'), 8), (('c', 'd'), 7), (('e', 'f'), 20), (('g', 'h'), 8)];
    assert_eq!(rank_confusions(&es, 8), vec![(('e', 'f'), 20), (('a', 'b'), 8), (('g', 'h'), 8)]);
    let mut s = GlobalStats::new();
    for (p, n) in es {
        s.ocr_confusions.set(p, n);
    }
    let got = frequent_confusions(&s, 8);
    assert_eq!(got.len(), 3);
    assert_eq!(got[0], (('e', 'f'), 20));
}

#[test]
fn variants_come_from_the_frequent_confusions() {
    let mut s = GlobalStats::new();
    s.ocr_confusions.set(('а', 'о'), 9);
    s.ocr_confusions.set(('а', 'е'), 7);
    let texts = |min: usize| -> Vec<String> {
        generate_ocr_variants("ба1", &s, min).into_iter().map(|v| v.text).collect()
    };
    assert_eq!(texts(8), strings(&["баi", "бал", "бат", "баі", "бо1"]));
    assert_eq!(texts(7), strings(&["баi", "бал", "бат", "баі", "бе1", "бо1"]));
    assert_eq!(texts(100), strings(&["баi", "бал", "бат", "баі"]));
}

#[test]
fn gathered_knowledge_holds_the_frequent_confusions() {
    let d = dictionary(&["городъ", "горадъ"]);
    let mut s = GlobalStats::new();
    s.ocr_confusions.set(('э', 'о'), 40);
    s.ocr_confusions.set(('э', 'а'), 7);
    s.ocr_confusions.set(('э', 'э'), 50);
    let learned = LearnedPairs::build(&s, 1);
    let k = Knowledge::new(&d, &s, &learned, settings());
    assert_eq!(k.confusions, vec![(('э', 'э'), 50), (('э', 'о'), 40)]);
    let p = Place {
        clean: "горэдъ",
        original_case: "горэдъ",
        is_surname_ctx: false,
        prev_stems: &[],
        next_stems: &[],
    };
    let found: Vec<String> =
        correction_options(&p, &k).into_iter().map(|c| c.corrected).collect();
    let expected: Vec<String> = generate_ocr_variants("горэдъ", &s, 8)
        .into_iter()
        .map(|v| v.text)
        .filter(|t| d.contains(t))
        .collect();
    assert_eq!(found, expected);
    assert_eq!(found, strings(&["городъ"]));
}

#[test]
fn order_of_confusions_does_not_matter() {
    let one = [(('а', 'о'), 9), (('б', 'в'), 9), (('1', 'л'), 9)];
    let two = [(('1', 'л'), 9), (('б', 'в'), 9), (('а', 'о'), 9)];
    let list = |cs: &[((char, char), usize)]| -> Vec<(String, char, char, usize)> {
        variants_with("аб1а", cs).into_iter().map(|v| (v.text, v.from, v.to, v.pos)).collect()
    };
    assert_eq!(list(&one), list(&two));
    let d = dictionary(&["обaвал", "облака"]);
    let s = GlobalStats::new();
    let learned = LearnedPairs::build(&s, 30);
    let k = Knowledge { dict: &d, stats: &s, learned: &learned, confusions: one.to_vec(), settings: settings() };
    let a = plan_corrections("аблака об1ака", &k);
    let b = plan_corrections("аблака об1ака", &Knowledge { confusions: two.to_vec(), ..k });
    assert_eq!(a.planned.len(), b.planned.len());
    for (x, y) in a.planned.iter().zip(&b.planned) {
        let reasons = |o: &[Candidate]| o.iter().map(|c| c.reason.clone()).collect::<Vec<_>>();
        assert_eq!(reasons(&x.options), reasons(&y.options));
    }
}

#[test]
fn runs_are_looked_up_on_both_sides() {
    let mut s = GlobalStats::new();
    s.ngrams.set(strings(&["a", "b", "x"]), 5);
    s.ngrams.set(strings(&["b", "x"]), 4);
    s.ngrams.set(strings(&["x", "c"]), 3);
    s.ngrams.set(strings(&["x", "c", "d"]), 2);
    let prev = strings(&["a", "b"]);
    let next = strings(&["c", "d"]);
    let hits: Vec<(usize, Vec<String>, usize)> = ngram_context("x", &prev, &next, &s, 3, 7)
        .into_iter()
        .map(|h| (h.n, h.key, h.freq))
        .collect();
    assert_eq!(
        hits,
        vec![
            (3, strings(&["a", "b", "x"]), 5),
            (2, strings(&["b", "x"]), 4),
            (2, strings(&["x", "c"]), 3)
        ]
    );
    assert!(ngram_context("x", &[], &[], &s, 3, 7).is_empty());
    assert!(ngram_context("x", &prev, &next, &s, 3, 1).is_empty());
    assert_eq!(ngram_context("q", &prev, &[], &s, 0, 2).len(), 1);
    let hit = NgramHit { n: 3, key: strings(&["a", "b", "x"]), freq: 5 };
    assert_eq!(label_of_hit(&hit), "3-gram «a b x»:5");
}

#[test]
fn variant_candidates_carry_their_evidence() {
    let d = dictionary(&["городъ"]);
    let mut s = GlobalStats::new();
    s.ngrams.set(strings(&["большой", "город"]), 4);
    let learned = LearnedPairs::build(&s, 30);
    let k = Knowledge { dict: &d, stats: &s, learned: &learned, confusions: vec![], settings: settings() };
    let prev = strings(&["большой"]);
    let p = Place {
        clean: "гор0дъ",
        original_case: "Гор0дъ",
        is_surname_ctx: false,
        prev_stems: &prev,
        next_stems: &[],
    };
    let cs = variant_corrections(&p, &k);
    assert_eq!(cs.len(), 1);
    assert_eq!(cs[0].corrected, "Городъ");
    assert_eq!(cs[0].reason, "OCR «0»→«о» поз.4 freq=1 + 2-gram «большой город»:4");
    assert_eq!(cs[0].diffs.len(), 1);
    assert_eq!(cs[0].hits.len(), 1);
    assert!(matches!(
        cs[0].evidence,
        Evidence::Variant { confusion_freq: 1, mark_to_letter: true }
    ));
}

#[test]
fn letter_variants_must_be_learned() {
    let d = dictionary(&["городъ"]);
    let mut s = GlobalStats::new();
    s.ocr_confusions.set(('а', 'о'), 12);
    let confusions = frequent_confusions(&s, 8);
    let word = Place {
        clean: "гародъ",
        original_case: "гародъ",
        is_surname_ctx: false,
        prev_stems: &[],
        next_stems: &[],
    };
    let strict = LearnedPairs::build(&s, 30);
    let k = Knowledge {
        dict: &d,
        stats: &s,
        learned: &strict,
        confusions,
        settings: settings(),
    };
    assert!(variant_corrections(&word, &k).is_empty());
    let lax = LearnedPairs::build(&s, 10);
    let k = Knowledge { learned: &lax, ..k };
    let cs = variant_corrections(&word, &k);
    assert_eq!(cs.len(), 1);
    assert_eq!(cs[0].reason, "OCR «а»→«о» поз.2 freq=12");
}

#[test]
fn large_counts_are_shown_through_a_double() {
    let d = dictionary(&["городъ"]);
    let mut s = GlobalStats::new();
    let learned = LearnedPairs::build(&s, 30);
    for n in [0, 1, 9007199254740991, 9007199254740993, 9007199254740995, 1 << 60, usize::MAX - 1, usize::MAX] {
        s.ocr_confusions.set(('0', 'о'), n);
        let k = Knowledge { dict: &d, stats: &s, learned: &learned, confusions: vec![], settings: settings() };
        let p = Place {
            clean: "гор0дъ",
            original_case: "гор0дъ",
            is_surname_ctx: false,
            prev_stems: &[],
            next_stems: &[],
        };
        let expected = format!("OCR «0»→«о» поз.4 freq={}", n as f64 as usize);
        assert_eq!(variant_corrections(&p, &k)[0].reason, expected);
    }
}

#[test]
fn lookup_candidates_carry_their_evidence() {
    let d = dictionary(&["городъ", "горохъ", "городокъ"]);
    let mut s = GlobalStats::new();
    s.ocr_confusions.set(('т', 'д'), 40);
    s.ocr_confusions.set(('т', 'х'), 40);
    s.error_matrix.set(("т".to_string(), "д".to_string()), 7);
    s.error_matrix.set(("т".to_string(), "х".to_string()), 2);
    let learned = LearnedPairs::build(&s, 30);
    let k = Knowledge { dict: &d, stats: &s, learned: &learned, confusions: vec![], settings: settings() };
    let p = Place {
        clean: "горотъ",
        original_case: "Горотъ",
        is_surname_ctx: false,
        prev_stems: &[],
        next_stems: &[],
    };
    let cs = lookup_corrections(&p, &k);
    assert_eq!(cs.len(), 2);
    assert_eq!(cs[0].corrected, "Городъ");
    assert_eq!(cs[0].reason, "n-gram dist=1");
    assert!(matches!(&cs[0].evidence,
        Evidence::Lookup { support, unsupported: 0, dist: 1 } if support == &vec![(7, 1)]));
    assert_eq!(cs[1].corrected, "Горохъ");
    assert!(matches!(&cs[1].evidence,
        Evidence::Lookup { support, unsupported: 1, dist: 1 } if support.is_empty()));
    assert_eq!(correction_options(&p, &k).len(), 2);
    assert_eq!(find_best_correction(&cs, &[5, 9]), Some(0));
    assert_eq!(find_best_correction(&cs, &[0, 9]), None);
    assert_eq!(find_best_correction(&cs, &[-1, 9]), None);
}

#[test]
fn first_of_the_greatest_rank_wins() {
    let d = dictionary(&["сі", "сл", "ст"]);
    let s = GlobalStats::new();
    let learned = LearnedPairs::build(&s, 30);
    let k = Knowledge { dict: &d, stats: &s, learned: &learned, confusions: vec![], settings: settings() };
    let p = Place {
        clean: "с1",
        original_case: "с1",
        is_surname_ctx: false,
        prev_stems: &[],
        next_stems: &[],
    };
    let cs = correction_options(&p, &k);
    let words: Vec<&str> = cs.iter().map(|c| c.corrected.as_str()).collect();
    assert_eq!(words, vec!["сл", "ст", "сі"]);
    assert_eq!(find_best_correction(&cs, &[1, 3, 3]), Some(1));
    assert_eq!(find_best_correction(&cs, &[-5, -5, -6]), Some(0));
    assert_eq!(find_best_correction(&[], &[]), None);
}

#[test]
fn counted_run_lets_an_unsupported_word_win() {
    let d = dictionary(&["городъ"]);
    let mut s = GlobalStats::new();
    s.ocr_confusions.set(('т', 'д'), 40);
    s.ngrams.set(strings(&["большой", "город"]), 3);
    let learned = LearnedPairs::build(&s, 30);
    let k = Knowledge { dict: &d, stats: &s, learned: &learned, confusions: vec![], settings: settings() };
    let prev = strings(&["большой"]);
    let alone = Place {
        clean: "горотъ",
        original_case: "горотъ",
        is_surname_ctx: false,
        prev_stems: &[],
        next_stems: &[],
    };
    let cs = lookup_corrections(&alone, &k);
    assert_eq!(find_best_correction(&cs, &[1]), None);
    let cs = lookup_corrections(&Place { prev_stems: &prev, ..alone }, &k);
    assert_eq!(find_best_correction(&cs, &[1]), Some(0));
    let zero = Settings { min_ngram_freq: 0, ..settings() };
    let k = Knowledge { settings: zero, ..k };
    let other = strings(&["малый"]);
    let cs = lookup_corrections(&Place { prev_stems: &other, ..alone }, &k);
    assert_eq!(cs[0].hits[0].freq, 0);
    assert_eq!(find_best_correction(&cs, &[1]), None);
}

#[test]
fn text_is_corrected_between_its_punctuation() {
    let d = dictionary(&["городъ", "стоитъ", "рѣка"]);
    let s = GlobalStats::new();
    let (text, changes) = correct("«Гор0дъ»,  стоитъ  ре ка гор0дъ.", &d, &s, settings());
    assert_eq!(text, "«Городъ», стоитъ ре ка городъ.");
    assert_eq!(changes.len(), 2);
    assert_eq!(changes[0].original, "Гор0дъ");
    assert_eq!(changes[0].corrected, "Городъ");
    assert_eq!(changes[0].context, "«Гор0дъ», стоитъ ре ка");
    assert_eq!(changes[0].rank, 1);
    assert!(!changes[0].is_merge);
    assert_eq!(changes[1].context, "стоитъ ре ка гор0дъ.");
}

#[test]
fn joins_come_before_corrections() {
    let d = dictionary(&["городъ", "государь"]);
    let s = GlobalStats::new();
    let (text, changes) = correct("гор0дъ городъ госу дарь", &d, &s, settings());
    assert_eq!(text, "городъ городъ государь");
    assert_eq!(changes.len(), 2);
    assert!(changes[0].is_merge);
    assert!(!changes[1].is_merge);
    assert_eq!(changes[1].context, "гор0дъ городъ государь");
}

#[test]
fn hits_are_counted_by_kind() {
    let d = dictionary(&["городъ"]);
    let mut s = GlobalStats::new();
    s.ocr_confusions.set(('т', 'д'), 40);
    s.error_matrix.set(("т".to_string(), "д".to_string()), 7);
    let learned = LearnedPairs::build(&s, 30);
    let k = Knowledge { dict: &d, stats: &s, learned: &learned, confusions: vec![], settings: settings() };
    let text = "гор0дъ горотъ гор0дъ";
    let plan = plan_corrections(text, &k);
    let ranks = ranks_by(&plan, |_| 1);
    let mut rec = record(text);
    let done = pass2_correct_record(&mut rec, plan, &ranks);
    assert_eq!(rec.text, "городъ городъ городъ");
    assert_eq!((done.fast_hits, done.slow_hits), (2, 1));
    s.count_hits(done.fast_hits, done.slow_hits);
    assert_eq!((s.fast_path_hits, s.slow_path_hits), (2, 1));
}

#[test]
fn known_text_only_has_its_spaces_evened() {
    let d = dictionary(&["домъ", "стоитъ", "тамъ"]);
    let s = GlobalStats::new();
    let (text, changes) = correct(" Домъ \t стоитъ,\nтамъ! ", &d, &s, settings());
    assert_eq!(text, "Домъ стоитъ, тамъ!");
    assert!(changes.is_empty());
}

#[test]
fn known_words_stay_among_unknown_ones() {
    let d = dictionary(&["государь", "домъ", "городъ"]);
    let s = GlobalStats::new();
    let (text, _) = correct("госу домъ дарь гор0дъ", &d, &s, settings());
    assert_eq!(text, "госу домъ дарь городъ");
}

#[test]
fn proper_nouns_are_left_alone_unless_asked() {
    let d = dictionary(&["москва"]);
    let s = GlobalStats::new();
    let text = "была М0сква и м0сква";
    assert_eq!(correct(text, &d, &s, settings()).0, "была М0сква и москва");
    let fix = NounPolicy { fix_proper_nouns: true, only_proper_nouns: false };
    assert_eq!(correct(text, &d, &s, Settings { policy: fix, ..settings() }).0, "была Москва и москва");
    let only = NounPolicy { fix_proper_nouns: false, only_proper_nouns: true };
    assert_eq!(correct(text, &d, &s, Settings { policy: only, ..settings() }).0, "была Москва и м0сква");
}

#[test]
fn short_words_are_left_alone() {
    let d = dictionary(&["домъ", "домикъ"]);
    let s = GlobalStats::new();
    assert_eq!(correct("д0мъ", &d, &s, settings()).0, "д0мъ");
    assert_eq!(correct("д0мъ", &d, &s, Settings { min_word_len: 4, ..settings() }).0, "домъ");
}

#[test]
fn surname_endings_are_not_corrected() {
    let d = dictionary(&["петрова"]);
    let mut s = GlobalStats::new();
    s.ocr_confusions.set(('ъ', 'а'), 40);
    s.error_matrix.set(("ъ".to_string(), "а".to_string()), 40);
    assert_eq!(correct("видѣлъ петровъ", &d, &s, settings()).0, "видѣлъ петровъ");
    let d = dictionary(&["дорогоба"]);
    assert_eq!(correct("видѣлъ дорогобъ", &d, &s, settings()).0, "видѣлъ дорогоба");
}

#[test]
fn word_count_is_kept() {
    let d = dictionary(&["городъ", "государь"]);
    let s = GlobalStats::new();
    for text in ["гор0дъ госу дарь х", "", "одинъ", "гор0дъ гор0дъ"] {
        let (out, changes) = correct(text, &d, &s, settings());
        let joins: usize = changes.iter().filter(|c| c.is_merge).count();
        assert_eq!(out.split_whitespace().count() + joins, text.split_whitespace().count());
    }
}

#[test]
fn corrections_put_dictionary_words() {
    let d = dictionary(&["городъ", "государь", "дорога"]);
    let s = GlobalStats::new();
    let (_, changes) = correct("Гор0дъ д0рога гос1дарь", &d, &s, settings());
    assert_eq!(changes.len(), 2);
    for c in changes {
        assert!(d.contains(&c.corrected));
    }
}

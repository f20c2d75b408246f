use ahash::RandomState;
use fastbloom::BloomFilter;
use ocr_corrector::dictionary::Dictionary;
use ocr_corrector::morphology::{
    correction_is_morphologically_safe, looks_like_surname, normalize_for_ngram,
    only_ending_changed,
};
use ocr_corrector::text::chars_of;
use ocr_corrector::words::{
    build_word_contexts, inner_chars_of, is_abbreviation, is_initials, is_outer_punct,
    is_proper_noun, is_surname_in_context, is_word_inner, leading_punct, restore_case,
    trailing_punct, word_is_correctable, NounPolicy,
};

fn strings(ws: &[&str]) -> Vec<String> {
    ws.iter().map(|w| w.to_string()).collect()
}

fn dictionary(ws: &[&str]) -> Dictionary {
    let list: Vec<String> = ws.iter().filter_map(|w| Dictionary::accept_line(w)).collect();
    let filter = BloomFilter::with_false_pos(0.001)
        .hasher(RandomState::new())
        .expected_items(list.len());
    Dictionary::build(&list, filter)
}

fn policy(fix: bool, only: bool) -> NounPolicy {
    NounPolicy { fix_proper_nouns: fix, only_proper_nouns: only }
}

#[test]
fn letters_digits_and_some_marks_are_inner() {
    for c in "aЖ1٣;:|!\\/*".chars() {
        assert!(is_word_inner(c), "{}", c);
    }
    for c in ".,?\"'«»()[]{}—–- ".chars() {
        assert!(!is_word_inner(c), "{}", c);
    }
}

#[test]
fn outer_punctuation_is_listed() {
    for c in ".,?\"'«»()[]{}—–".chars() {
        assert!(is_outer_punct(c), "{}", c);
    }
    for c in "a1;:|!-".chars() {
        assert!(!is_outer_punct(c), "{}", c);
    }
}

#[test]
fn no_character_is_outer_punctuation_and_inner() {
    for c in '\0'..=char::MAX {
        assert!(!(is_outer_punct(c) && is_word_inner(c)), "{:?}", c);
    }
}

#[test]
fn word_is_cut_into_three_parts() {
    let w = chars_of("«(С1о-во!),»");
    assert_eq!(leading_punct(&w), "«(");
    assert_eq!(trailing_punct(&w), "),»");
    assert_eq!(inner_chars_of(&w).into_iter().collect::<String>(), "С1ово!");
    let none = chars_of("...");
    assert_eq!(leading_punct(&none), "...");
    assert_eq!(trailing_punct(&none), "...");
}

#[test]
fn initials_are_one_capital_with_a_dot() {
    assert!(is_initials("А."));
    assert!(is_initials("(А.)"));
    assert!(!is_initials("а."));
    assert!(!is_initials("А"));
    assert!(!is_initials("А.Б."));
    assert!(!is_initials("."));
}

#[test]
fn abbreviations_go_by_their_end() {
    assert!(is_abbreviation("г."));
    assert!(is_abbreviation("УЛ."));
    assert!(is_abbreviation("сад."));
    assert!(!is_abbreviation("домъ."));
    assert!(!is_abbreviation("дом"));
    assert!(!is_abbreviation("г"));
}

#[test]
fn surname_stands_beside_initials() {
    let ws = strings(&["А.", "Петровъ", "пошелъ"]);
    assert!(is_surname_in_context(&ws, 1));
    assert!(!is_surname_in_context(&ws, 2));
    assert!(!is_surname_in_context(&ws, 0));
    let ws = strings(&["Петровъ", "А."]);
    assert!(is_surname_in_context(&ws, 0));
}

#[test]
fn contexts_describe_each_word() {
    let ws = strings(&["Было.", "«Утро»", "въ", "г.", "Москвѣ", "А.", "Иванова!"]);
    let cs = build_word_contexts(&ws);
    assert_eq!(cs.len(), 7);
    assert!(cs[0].is_sentence_start);
    assert_eq!(cs[0].suffix_punct, ".");
    assert!(cs[1].is_sentence_start);
    assert_eq!(cs[1].prefix_punct, "«");
    assert_eq!(cs[1].suffix_punct, "»");
    assert_eq!(cs[1].original_case, "Утро");
    assert_eq!(cs[1].clean, "утро");
    assert!(!cs[2].is_sentence_start);
    assert!(cs[4].is_after_abbrev);
    assert!(cs[4].next_word_is_initials);
    assert!(cs[6].prev_word_is_initials);
    assert_eq!(cs[6].original_case, "Иванова!");
    assert_eq!(cs[6].suffix_punct, "");
}

#[test]
fn proper_nouns_start_with_a_capital_inside_a_sentence() {
    let ws = strings(&["Онъ", "видѣлъ", "Москву", "а", "Я"]);
    let cs = build_word_contexts(&ws);
    assert!(!is_proper_noun(&cs[0], &ws, 0));
    assert!(!is_proper_noun(&cs[1], &ws, 1));
    assert!(is_proper_noun(&cs[2], &ws, 2));
    assert!(!is_proper_noun(&cs[3], &ws, 3));
    assert!(!is_proper_noun(&cs[4], &ws, 4));
    let ws = strings(&["Петровъ", "А."]);
    let cs = build_word_contexts(&ws);
    assert!(is_proper_noun(&cs[0], &ws, 0));
}

#[test]
fn policy_decides_which_words_are_correctable() {
    let d = dictionary(&["москва", "домъ"]);
    let ws = strings(&["въ", "Мосва", "дмъ", "домъ"]);
    let cs = build_word_contexts(&ws);
    let ok = |i: usize, p: NounPolicy| word_is_correctable(&cs[i], &ws, i, &d, p);
    assert!(!ok(1, policy(false, false)));
    assert!(ok(1, policy(true, false)));
    assert!(ok(1, policy(false, true)));
    assert!(ok(1, policy(true, true)));
    assert!(ok(2, policy(false, false)));
    assert!(ok(2, policy(true, false)));
    assert!(!ok(2, policy(false, true)));
    for p in [policy(false, false), policy(true, false), policy(false, true), policy(true, true)] {
        assert!(!ok(3, p));
    }
}

#[test]
fn case_is_restored_character_by_character() {
    assert_eq!(restore_case("Дмъ", "домъ"), "Домъ");
    assert_eq!(restore_case("ДМЪ", "домъ"), "ДОМъ");
    assert_eq!(restore_case("дмъ", "домъ"), "домъ");
    assert_eq!(restore_case("ДОМЪ", "до"), "ДО");
    assert_eq!(restore_case("", "домъ"), "домъ");
    assert_eq!(restore_case("Sz", "ßa"), "Sa");
}

#[test]
fn surnames_go_by_their_suffix() {
    for w in ["петровъ", "иванова", "троцкій", "трубецкой", "пушкинъ", "вяземский", "ын"] {
        assert!(looks_like_surname(w), "{}", w);
    }
    for w in ["домъ", "толстой", "Петровъ ", ""] {
        assert!(!looks_like_surname(w), "{}", w);
    }
}

#[test]
fn endings_are_the_last_three_characters() {
    assert!(only_ending_changed("петровъ", "петрова"));
    assert!(only_ending_changed("петровъ", "петров"));
    assert!(!only_ending_changed("петровъ", "петровъ"));
    assert!(!only_ending_changed("петровъ", "пeтровъ"));
    assert!(!only_ending_changed("дом", "дым"));
    assert!(only_ending_changed("домъ", "дымъ"));
    assert!(!only_ending_changed("вомъ", "домъ"));
}

#[test]
fn surname_endings_are_protected() {
    assert!(!correction_is_morphologically_safe("петровъ", "петрова", true));
    assert!(correction_is_morphologically_safe("петровъ", "петрова", false));
    assert!(correction_is_morphologically_safe("петровъ", "петромъ", true));
    assert!(correction_is_morphologically_safe("бетровъ", "петровъ", true));
}

#[test]
fn stems_lose_their_endings() {
    assert_eq!(normalize_for_ngram("Хорошаго"), "хороша");
    assert_eq!(normalize_for_ngram("хорошого"), "хорош");
    assert_eq!(normalize_for_ngram("красный"), "красн");
    assert_eq!(normalize_for_ngram("книга"), "книг");
    assert_eq!(normalize_for_ngram("домъ"), "домъ");
    assert_eq!(normalize_for_ngram("столъ."), "стол");
    assert_eq!(normalize_for_ngram("12-34"), "");
    assert_eq!(normalize_for_ngram("abcdx"), "abcdx");
}

#[test]
fn stems_begin_as_the_word_does() {
    for w in ["Хорошаго", "красный", "домъ", "«Книга»", "", "12"] {
        let low: String = w.to_lowercase().chars().filter(|c| c.is_alphabetic()).collect();
        let stem = normalize_for_ngram(w);
        assert!(low.starts_with(&stem));
        assert!(low.chars().count() <= stem.chars().count() + 3);
    }
}

#[test]
fn dictionary_lines_are_trimmed_and_lowered() {
    assert_eq!(Dictionary::accept_line("  Домъ "), Some("домъ".to_string()));
    assert_eq!(Dictionary::accept_line("я"), None);
    assert_eq!(Dictionary::accept_line("  "), None);
    assert_eq!(Dictionary::accept_line("да"), Some("да".to_string()));
}

#[test]
fn dictionary_knows_words_in_any_case() {
    let d = dictionary(&["Домъ", "городъ", "городъ", "я"]);
    assert!(d.contains("домъ"));
    assert!(d.contains("ДОМЪ"));
    assert!(!d.contains("дом"));
    assert!(!d.contains("я"));
    assert_eq!(d.word_count(), 2);
}

#[test]
fn dictionary_offers_long_words_by_their_first_letters() {
    let d = dictionary(&["городъ", "гора", "горохъ", "домъ", "домикъ", "городъ"]);
    let words = |w: &str| d.candidates_for(w).cloned();
    assert_eq!(words("г1ородъ"), Some(strings(&["городъ", "горохъ", "городъ"])));
    assert_eq!(words("дом"), Some(strings(&["домикъ"])));
    assert_eq!(words("га"), None);
    assert_eq!(words("1г"), None);
    assert_eq!(words(""), None);
}

#[test]
fn dictionary_candidates_are_words_with_the_same_start() {
    let d = dictionary(&["городъ", "горохъ", "домикъ"]);
    let found = d.candidates_for("горадъ").unwrap();
    assert_eq!(found.len(), 2);
    for w in found {
        assert!(d.contains(w));
        assert!(w.chars().count() >= 5);
        assert!(w.starts_with("го"));
    }
}

#[test]
fn no_outer_mark_belongs_to_a_word() {
    let marks = ".,?\"'«»()[]{}—–";
    for c in marks.chars() {
        assert!(is_outer_punct(c) && !is_word_inner(c), "{}", c);
    }
}

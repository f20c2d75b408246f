use ocr_corrector::chars::raise;
use ocr_corrector::text::{
    byte_len_of, chars_of, clone_range, decimal_of, ends_with, ends_with_any, find_chars, found_at,
    join_spaced, join_with, letters_of, lower_chars, parse_number, replace_chars, same_chars,
    starts_with, text_of, trim_chars, words_of,
};

fn strings(ws: &[&str]) -> Vec<String> {
    ws.iter().map(|w| w.to_string()).collect()
}

fn replaced(s: &str, from: &str, to: &str) -> String {
    text_of(&replace_chars(&chars_of(s), &chars_of(from), &chars_of(to)))
}

fn number(s: &str) -> Option<usize> {
    parse_number(&chars_of(s))
}

#[test]
fn text_splits_at_any_white_space() {
    assert_eq!(words_of("  первое\tвторое \u{a0} третье\n"), strings(&["первое", "второе", "третье"]));
    assert_eq!(words_of(" \t\n"), Vec::<String>::new());
    assert_eq!(words_of(""), Vec::<String>::new());
    assert_eq!(words_of("слово"), strings(&["слово"]));
}

#[test]
fn words_hold_no_white_space() {
    for w in words_of("a b\u{2003}c\r\nd\u{85}e") {
        assert!(!w.is_empty());
        assert!(!w.chars().any(|c| c.is_whitespace()));
    }
}

#[test]
fn trimming_takes_space_from_both_ends_only() {
    assert_eq!(text_of(&trim_chars(&chars_of(" \t a b \n"))), "a b");
    assert_eq!(text_of(&trim_chars(&chars_of("  "))), "");
    assert_eq!(text_of(&trim_chars(&chars_of("ab"))), "ab");
}

#[test]
fn joining_puts_the_separator_between() {
    assert_eq!(join_spaced(&strings(&["a", "b", "c"])), "a b c");
    assert_eq!(join_with(&strings(&["x", "y"]), "; "), "x; y");
    assert_eq!(join_with(&strings(&["", "", ""]), ","), ",,");
    assert_eq!(join_with(&[], ","), "");
}

#[test]
fn range_of_strings_is_copied() {
    let ws = strings(&["a", "b", "c", "d"]);
    assert_eq!(clone_range(&ws, 1, 3), strings(&["b", "c"]));
    assert_eq!(clone_range(&ws, 2, 2), Vec::<String>::new());
}

#[test]
fn letters_are_picked_and_lowered() {
    assert_eq!(text_of(&letters_of(&chars_of("«Мiръ-12!»"))), "Мiръ");
    assert_eq!(text_of(&lower_chars(&chars_of("МІРЪ"))), "міръ");
    assert_eq!(text_of(&lower_chars(&chars_of("İ"))), "i\u{307}");
}

#[test]
fn prefixes_and_suffixes_are_found() {
    assert!(starts_with(&chars_of("--x"), "--"));
    assert!(!starts_with(&chars_of("-"), "--"));
    assert!(ends_with(&chars_of("a.zst"), ".zst"));
    assert!(!ends_with(&chars_of("zst"), ".zst"));
    assert!(ends_with_any(&chars_of("домъ"), &["а", "ъ"]));
    assert!(!ends_with_any(&chars_of("домъ"), &["а", "у"]));
    assert!(!ends_with_any(&chars_of("домъ"), &[]));
}

#[test]
fn search_finds_the_first_place() {
    assert_eq!(find_chars(&chars_of("abcabc"), &chars_of("ca")), Some(2));
    assert_eq!(find_chars(&chars_of("aaa"), &chars_of("aa")), Some(0));
    assert_eq!(find_chars(&chars_of("abc"), &chars_of("d")), None);
    assert_eq!(find_chars(&chars_of("ab"), &chars_of("abc")), None);
    assert!(found_at(&chars_of("abc"), &chars_of("bc"), 1));
    assert!(!found_at(&chars_of("abc"), &chars_of("bc"), 2));
    assert!(!found_at(&chars_of("abc"), &chars_of("c"), 9));
    assert!(same_chars(&chars_of("да"), &chars_of("да")));
    assert!(!same_chars(&chars_of("да"), &chars_of("дa")));
}

#[test]
fn replacing_reads_from_the_left_without_overlap() {
    assert_eq!(replaced("aaaa", "aa", "b"), "bb");
    assert_eq!(replaced("aaa", "aa", "b"), "ba");
    assert_eq!(replaced("a\tb\t", "\t", " "), "a b ");
    assert_eq!(replaced("abc", "x", "y"), "abc");
    assert_eq!(replaced("", "x", "y"), "");
}

#[test]
fn decimal_notation_reads_back() {
    for n in [0, 7, 10, 42, 100, 65535, usize::MAX] {
        assert_eq!(decimal_of(n), n.to_string());
        assert_eq!(number(&decimal_of(n)), Some(n));
    }
}

#[test]
fn numbers_are_read_like_machine_words() {
    for s in ["", "+", "-1", "12a", " 1", "1 ", "--", "99999999999999999999999", "٣"] {
        assert_eq!(number(s), None, "{}", s);
        assert_eq!(s.parse::<usize>().ok(), None, "{}", s);
    }
    for s in ["0", "007", "+5", "+0", "18446744073709551615"] {
        assert_eq!(number(s), s.parse::<usize>().ok(), "{}", s);
    }
}

#[test]
fn byte_lengths_follow_utf8() {
    assert_eq!(byte_len_of(""), 0);
    assert_eq!(byte_len_of("a"), 1);
    assert_eq!(byte_len_of("ъ"), 2);
    assert_eq!(byte_len_of("«a»→"), 8);
}

#[test]
fn russian_letters_change_case_one_by_one() {
    let small = "абвгдежзийклмнопрстуфхцчшщъыьэюяёіѣѳѵ";
    let capital = "АБВГДЕЖЗИЙКЛМНОПРСТУФХЦЧШЩЪЫЬЭЮЯЁІѢѲѴ";
    assert_eq!(small.chars().count(), capital.chars().count());
    for (s, c) in small.chars().zip(capital.chars()) {
        assert_eq!(raise(s), c);
        assert_eq!(lower_chars(&[c]), vec![s]);
        assert_eq!(lower_chars(&[s]), vec![s]);
        assert_eq!(letters_of(&[s, c]), vec![s, c]);
    }
    assert_eq!(lower_chars(&chars_of(capital)), chars_of(small));
    assert_eq!(lower_chars(&chars_of("СѢНЬ и Ѳома")), chars_of("сѣнь и ѳома"));
}

#[test]
fn digits_are_not_trimmed() {
    for c in '0'..='9' {
        assert_eq!(trim_chars(&[' ', c, '\n']), vec![c]);
    }
}

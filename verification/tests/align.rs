use ocr_corrector::align::AlignOp::{self, Del, Ins, Match, Sub};
use ocr_corrector::align::{build_alignment, levenshtein};
use ocr_corrector::diffs::{collect_char_confusions, extract_diffs, AlignDiff};
use ocr_corrector::text::chars_of;

fn distance(a: &str, b: &str) -> usize {
    levenshtein(&chars_of(a), &chars_of(b))
}

fn ops(a: &str, b: &str) -> Vec<AlignOp> {
    build_alignment(&chars_of(a), &chars_of(b))
}

fn diffs(a: &str, b: &str) -> Vec<(String, String, usize, usize)> {
    extract_diffs(&chars_of(a), &chars_of(b))
        .into_iter()
        .map(|d| (d.wrong_text, d.right_text, d.pos_wrong, d.pos_right))
        .collect()
}

fn patch(a: &str, ds: &[AlignDiff]) -> String {
    let a = chars_of(a);
    let mut out = String::new();
    let mut at = 0;
    for d in ds {
        out.extend(&a[at..d.pos_wrong]);
        out.push_str(&d.right_text);
        at = d.pos_wrong + d.wrong_text.chars().count();
    }
    out.extend(&a[at..]);
    out
}

const PAIRS: [(&str, &str); 8] = [
    ("kitten", "sitting"),
    ("", "abc"),
    ("abc", ""),
    ("", ""),
    ("домъ", "дома"),
    ("гopодъ", "городъ"),
    ("flaw", "lawn"),
    ("aaaa", "aa"),
];

#[test]
fn distances_are_exact() {
    assert_eq!(distance("kitten", "sitting"), 3);
    assert_eq!(distance("", "abc"), 3);
    assert_eq!(distance("abc", ""), 3);
    assert_eq!(distance("flaw", "lawn"), 2);
    assert_eq!(distance("домъ", "домъ"), 0);
    assert_eq!(distance("д0мъ", "домъ"), 1);
}

#[test]
fn distance_is_symmetric_and_zero_only_for_equal_words() {
    for (a, b) in PAIRS {
        assert_eq!(distance(a, b), distance(b, a));
        assert_eq!(distance(a, b) == 0, a == b);
    }
}

#[test]
fn distance_is_at_least_the_length_gap() {
    for (a, b) in PAIRS {
        let gap = a.chars().count().abs_diff(b.chars().count());
        assert!(distance(a, b) >= gap);
    }
}

#[test]
fn alignment_costs_the_distance() {
    for (a, b) in PAIRS {
        let edits = ops(a, b).iter().filter(|op| **op != AlignOp::Match).count();
        assert_eq!(edits, distance(a, b));
    }
}

#[test]
fn alignment_prefers_matches_then_substitutions() {
    assert_eq!(ops("домъ", "дома"), vec![Match, Match, Match, Sub]);
    assert_eq!(ops("aab", "ab"), vec![Del, Match, Match]);
    assert_eq!(ops("ab", "aab"), vec![Ins, Match, Match]);
    assert_eq!(ops("", "xy"), vec![Ins, Ins]);
    assert_eq!(ops("xy", ""), vec![Del, Del]);
}

#[test]
fn substitutions_replace_a_character_by_another() {
    for (a, b) in PAIRS {
        let (wrong, right) = (chars_of(a), chars_of(b));
        let (mut i, mut j) = (0, 0);
        for op in ops(a, b) {
            match op {
                Match => assert_eq!(wrong[i], right[j]),
                Sub => assert_ne!(wrong[i], right[j]),
                Ins | Del => {}
            }
            i += (op != Ins) as usize;
            j += (op != Del) as usize;
        }
        assert_eq!((i, j), (wrong.len(), right.len()));
        for (x, y) in collect_char_confusions(&wrong, &right).subs {
            assert_ne!(x, y);
        }
    }
}

#[test]
fn differences_are_maximal_stretches() {
    assert_eq!(diffs("д0мъ", "домъ"), vec![("0".to_string(), "о".to_string(), 1, 1)]);
    assert_eq!(diffs("abcd", "axyd"), vec![("bc".to_string(), "xy".to_string(), 1, 1)]);
    assert_eq!(
        diffs("xbcdy", "abcd"),
        vec![("x".to_string(), "a".to_string(), 0, 0), ("y".to_string(), String::new(), 4, 4)]
    );
    assert_eq!(diffs("ab", "ab"), vec![]);
}

#[test]
fn differences_turn_the_wrong_word_into_the_right_one() {
    for (a, b) in PAIRS {
        assert_eq!(patch(a, &extract_diffs(&chars_of(a), &chars_of(b))), b);
    }
}

#[test]
fn equal_lengths_confuse_position_by_position() {
    let e = collect_char_confusions(&chars_of("abca"), &chars_of("bcaa"));
    assert_eq!(e.subs, vec![('a', 'b'), ('b', 'c'), ('c', 'a')]);
    assert!(e.insertions.is_empty());
    assert!(e.deletions.is_empty());
}

#[test]
fn unequal_lengths_confuse_along_the_alignment() {
    let e = collect_char_confusions(&chars_of("xabc"), &chars_of("yabcz"));
    assert_eq!(e.subs, vec![('x', 'y')]);
    assert_eq!(e.insertions, vec!['z']);
    assert!(e.deletions.is_empty());
    let e = collect_char_confusions(&chars_of("домъ"), &chars_of("дом"));
    assert_eq!(e.deletions, vec!['ъ']);
    assert!(e.subs.is_empty());
    assert!(e.insertions.is_empty());
}

#[test]
fn no_way_round_is_shorter() {
    assert_eq!(distance("flaw", "law"), 1);
    assert_eq!(distance("law", "lawn"), 1);
    assert_eq!(distance("flaw", "lawn"), 2);
    for (a, b) in PAIRS {
        for (c, _) in PAIRS {
            assert!(distance(a, b) <= distance(a, c) + distance(c, b));
        }
    }
}

#[test]
fn differences_stand_where_they_say() {
    for (a, b) in PAIRS {
        let (wrong, right) = (chars_of(a), chars_of(b));
        for (w, r, i, j) in diffs(a, b) {
            let (w, r) = (chars_of(&w), chars_of(&r));
            assert_eq!(&wrong[i..i + w.len()], &w[..]);
            assert_eq!(&right[j..j + r.len()], &r[..]);
        }
    }
}

#[test]
fn shared_characters_part_the_differences() {
    for (a, b) in PAIRS {
        let (wrong, right) = (chars_of(a), chars_of(b));
        for two in diffs(a, b).windows(2) {
            let i = two[0].2 + two[0].0.chars().count();
            let j = two[0].3 + two[0].1.chars().count();
            assert!(i < two[1].2 && j < two[1].3);
            assert_eq!(&wrong[i..two[1].2], &right[j..two[1].3]);
        }
    }
    assert_eq!(diffs("kitten", "sitting").len(), 3);
}

#[test]
fn only_equal_words_have_no_difference() {
    for (a, b) in PAIRS {
        assert_eq!(diffs(a, b).is_empty(), a == b);
    }
}

#[test]
fn longer_sides_add_up_to_the_distance() {
    for (a, b) in PAIRS {
        let sum: usize =
            diffs(a, b).iter().map(|d| d.0.chars().count().max(d.1.chars().count())).sum();
        assert_eq!(sum, distance(a, b));
    }
}

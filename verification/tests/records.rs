use ocr_corrector::records::{extract_field, line_body, parse_line, Record};
use ocr_corrector::runs::{checkpoint_due, is_compressed, resume_position, Intake};
use ocr_corrector::text::decimal_of;

fn parts(r: Option<Record>) -> Option<(String, String, String)> {
    r.map(|r| (r.text, r.title, r.date))
}

fn three(a: &str, b: &str, c: &str) -> Option<(String, String, String)> {
    Some((a.to_string(), b.to_string(), c.to_string()))
}

fn made(text: &str) -> Option<Record> {
    Some(Record { text: text.to_string(), title: "t".to_string(), date: "d".to_string() })
}

#[test]
fn comments_and_empty_lines_have_no_body() {
    for line in ["", "   ", "-- note", "  --", "# note", "#", "\t#x"] {
        assert_eq!(line_body(line), None, "{}", line);
        assert!(parse_line(line, made("text")).is_none(), "{}", line);
    }
    assert_eq!(line_body("  - x "), Some("- x".to_string()));
}

#[test]
fn parsed_record_goes_first() {
    assert_eq!(parts(parse_line("{\"text\":\"abcdefgh\"}", made("x"))), three("x", "t", "d"));
    assert_eq!(
        parts(parse_line("{\"text\":\"abcdefgh\"}", made(""))),
        three("abcdefgh", "", "")
    );
}

#[test]
fn space_around_a_line_makes_no_difference() {
    for line in ["{\"text\":\"abcdefgh\"}", "# note", "", "a plain line of some length here"] {
        let padded = format!(" \t\u{a0}{}\n ", line);
        assert_eq!(parts(parse_line(&padded, made("x"))), parts(parse_line(line, made("x"))));
        assert_eq!(parts(parse_line(&padded, None)), parts(parse_line(line, None)));
    }
    assert_eq!(parts(parse_line(" {\"text\":\"x\"} ", made("x"))), three("x", "t", "d"));
}

#[test]
fn broken_objects_give_their_fields() {
    let line = "{\"title\": \"Имя\", \"text\": \"стр1\\nстр2 \\\"да\\\"\", \"date\":\"1900\"} junk";
    assert_eq!(parts(parse_line(line, None)), three("стр1\nстр2 \"да\"", "Имя", "1900"));
    assert!(parse_line("{\"text\":\"abcde\"}", None).is_none());
    assert_eq!(parts(parse_line("{\"text\":\"abcdef\"", None)), three("abcdef\"", "", ""));
    assert_eq!(parts(parse_line("{\"text\":\"абв\"}", None)), three("абв", "", ""));
}

#[test]
fn plain_lines_need_more_than_twenty_characters() {
    let long = "a".repeat(21);
    assert_eq!(parts(parse_line(&format!(" {} ", long), None)), three(&long, "", ""));
    assert!(parse_line(&"a".repeat(20), None).is_none());
    assert!(parse_line(&format!("{{{}", long), None).is_none());
}

#[test]
fn fields_end_at_the_next_field_or_the_end() {
    let get = |s: &str| extract_field(s, "text");
    assert_eq!(get("\"text\":\"a\", \"b\":\"c\"}"), Some("a".to_string()));
    assert_eq!(get("\"text\": \"a\"}"), Some("a".to_string()));
    assert_eq!(get("\"text\":\"a b"), Some("a b".to_string()));
    assert_eq!(get("\"text\":\"x\"} \", \""), Some("x".to_string()));
    assert_eq!(get("\"text\" : \"a\"}"), None);
    assert_eq!(get("\"text\": \"one\", \"text\":\"two\"}"), Some("two".to_string()));
    assert_eq!(get(""), None);
}

#[test]
fn escapes_are_undone_line_breaks_first() {
    let get = |s: &str| extract_field(s, "k");
    assert_eq!(get("\"k\":\"a\\nb\\\"c\"}"), Some("a\nb\"c".to_string()));
    assert_eq!(get("\"k\":\"a\\\\nb\"}"), Some("a\\\nb".to_string()));
}

#[test]
fn records_always_have_text() {
    for (line, parsed) in [
        ("{\"text\":\"\"}", made("")),
        ("{\"text\":\"abcdef\"}", made("")),
        ("aaaaaaaaaaaaaaaaaaaaaaaaa", None),
        ("short", None),
    ] {
        if let Some(r) = parse_line(line, parsed) {
            assert!(!r.text.is_empty());
        }
    }
}

#[test]
fn batches_are_handed_out_when_full() {
    let mut intake: Intake<usize> = Intake::new(2, 3);
    let mut out: Vec<usize> = Vec::new();
    for n in 1..=11 {
        assert_eq!(intake.skips_next(), n <= 2);
        let item = if n % 4 == 0 { None } else { Some(n) };
        if let Some(b) = intake.offer(item) {
            assert_eq!(b.len(), 3);
            out.extend(b);
        }
        assert_eq!(intake.lines_seen(), n);
    }
    assert_eq!(out, vec![3, 5, 6, 7, 9, 10]);
    assert_eq!(intake.rest(), vec![11]);
}

#[test]
fn batches_of_no_size_are_handed_out_at_every_line() {
    let mut intake: Intake<char> = Intake::new(1, 0);
    assert!(intake.offer(Some('a')).is_none());
    assert_eq!(intake.offer(Some('b')), Some(vec!['b']));
    assert_eq!(intake.offer(None), Some(vec![]));
    assert_eq!(intake.rest(), Vec::<char>::new());
}

#[test]
fn checkpoints_are_due_at_every_multiple() {
    assert!(!checkpoint_due(0, 2999, 3000));
    assert!(checkpoint_due(2999, 3000, 3000));
    assert!(!checkpoint_due(3000, 3000, 3000));
    assert!(checkpoint_due(10, 7000, 3000));
    assert!(checkpoint_due(0, 1, 1));
    for prev in 0..20 {
        for cur in prev..20 {
            let passed = (prev + 1..=cur).any(|n| n % 6 == 0);
            assert_eq!(checkpoint_due(prev, cur, 6), passed);
        }
    }
}

#[test]
fn noted_positions_are_read_back() {
    for n in [0, 1, 1000, usize::MAX] {
        assert_eq!(resume_position(&decimal_of(n)), Some(n));
    }
    assert_eq!(resume_position(" 42\n"), Some(42));
    assert_eq!(resume_position("4 2"), None);
    assert_eq!(resume_position(""), None);
    assert_eq!(resume_position("99999999999999999999999"), None);
}

#[test]
fn compressed_files_go_by_their_name() {
    assert!(is_compressed("a/b.jsonl.zst"));
    assert!(is_compressed(".zst"));
    assert!(!is_compressed("a.zst.txt"));
    assert!(!is_compressed("zst"));
}

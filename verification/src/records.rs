//! Records: texts with a title and a date, and the lines they are read from.

use crate::text::{
    all_space, byte_len, byte_len_of, chars_of, find_chars, find_from, has_prefix, replace_chars,
    replaced_from, space_around_is_trimmed, starts_with, text_of, trim_chars, trimmed,
};
use vstd::prelude::*;
use vstd::slice::slice_subrange;
use vstd::utf8::encode_utf8;

verus! {

/// A text with its title and date.
#[derive(Debug)]
pub struct Record {
    pub text: String,
    pub title: String,
    pub date: String,
}

/// The mathematical content of a `Record`.
#[verifier::ext_equal]
pub struct RecordView {
    pub text: Seq<char>,
    pub title: Seq<char>,
    pub date: Seq<char>,
}

impl View for Record {
    type V = RecordView;

    open spec fn view(&self) -> RecordView {
        RecordView { text: self.text@, title: self.title@, date: self.date@ }
    }
}

/// The content of a record that may be missing.
pub open spec fn record_view(r: Option<Record>) -> Option<RecordView> {
    match r {
        Some(rec) => Some(rec@),
        None => None,
    }
}

/// The content of a text that may be missing.
pub open spec fn text_view(s: Option<String>) -> Option<Seq<char>> {
    match s {
        Some(t) => Some(t@),
        None => None,
    }
}

/// A line without the space around it, unless it is empty or a comment.
pub open spec fn body_of(line: Seq<char>) -> Option<Seq<char>> {
    let t = trimmed(line);
    if t.len() == 0 || has_prefix(t, "--"@) || has_prefix(t, "#"@) {
        None
    } else {
        Some(t)
    }
}

/// A line without the space around it, unless it is empty or a comment.
pub fn line_body(line: &str) -> (r: Option<String>)
    ensures
        text_view(r) == body_of(line@),
{
    let t = trim_chars(chars_of(line).as_slice());
    if t.len() == 0 || starts_with(t.as_slice(), "--") || starts_with(t.as_slice(), "#") {
        None
    } else {
        Some(text_of(t.as_slice()))
    }
}

/// What stands before the value of a field, without or with a space after the colon.
pub open spec fn field_mark(field: Seq<char>, space: bool) -> Seq<char> {
    "\""@ + field + (if space {
        "\": \""@
    } else {
        "\":\""@
    })
}

/// Where a value ends: before the next field or the end of the object, whichever comes
/// first, else at the end of the text.
pub open spec fn value_end(rest: Seq<char>) -> int {
    match (find_from(rest, "\", \""@, 0), find_from(rest, "\"}"@, 0)) {
        (Some(a), Some(b)) => if a <= b {
            a
        } else {
            b
        },
        (Some(a), None) => a,
        (None, Some(b)) => b,
        (None, None) => rest.len() as int,
    }
}

/// A value with escaped line breaks and then escaped quotes undone.
pub open spec fn unescaped(v: Seq<char>) -> Seq<char> {
    replaced_from(replaced_from(v, "\\n"@, "\n"@, 0), "\\\""@, "\""@, 0)
}

/// The value after the first mark of a field, if there is one.
pub open spec fn value_after(s: Seq<char>, mark: Seq<char>) -> Option<Seq<char>> {
    match find_from(s, mark, 0) {
        Some(start) => {
            let rest = s.skip(start + mark.len());
            Some(unescaped(rest.take(value_end(rest))))
        },
        None => None,
    }
}

/// The value of a field in a line that only looks like JSON. The form without a space after
/// the colon goes before the form with one.
pub open spec fn field_value(s: Seq<char>, field: Seq<char>) -> Option<Seq<char>> {
    match value_after(s, field_mark(field, false)) {
        Some(v) => Some(v),
        None => value_after(s, field_mark(field, true)),
    }
}

/// Where a value ends.
fn find_value_end(rest: &[char]) -> (r: usize)
    ensures
        r == value_end(rest@),
        r <= rest@.len(),
{
    let next = find_chars(rest, chars_of("\", \"").as_slice());
    let close = find_chars(rest, chars_of("\"}").as_slice());
    match (next, close) {
        (Some(a), Some(b)) => if a <= b {
            a
        } else {
            b
        },
        (Some(a), None) => a,
        (None, Some(b)) => b,
        (None, None) => rest.len(),
    }
}

/// Undoes escaped line breaks and then escaped quotes.
fn unescape(v: &[char]) -> (r: String)
    ensures
        r@ == unescaped(v@),
{
    proof {
        reveal_strlit("\\n");
        reveal_strlit("\\\"");
    }
    let lines = replace_chars(v, chars_of("\\n").as_slice(), chars_of("\n").as_slice());
    let quotes = replace_chars(
        lines.as_slice(),
        chars_of("\\\"").as_slice(),
        chars_of("\"").as_slice(),
    );
    text_of(quotes.as_slice())
}

/// The value after the first mark of a field, if there is one.
fn find_value(s: &[char], mark: &[char]) -> (r: Option<String>)
    ensures
        text_view(r) == value_after(s@, mark@),
{
    match find_chars(s, mark) {
        Some(start) => {
            assert(start + mark@.len() <= s@.len() && s@.len() == s.len());
            let from: usize = start + mark.len();
            let rest = slice_subrange(s, from, s.len());
            assert(rest@ =~= s@.skip(from as int));
            let end: usize = find_value_end(rest);
            let value = slice_subrange(rest, 0, end);
            assert(value@ =~= rest@.take(end as int));
            Some(unescape(value))
        },
        None => None,
    }
}

/// What stands before the value of a field.
fn mark_of(field: &str, space: bool) -> (r: Vec<char>)
    ensures
        r@ == field_mark(field@, space),
{
    let mut mark = "\"".to_string();
    mark.append(field);
    if space {
        mark.append("\": \"");
    } else {
        mark.append("\":\"");
    }
    chars_of(mark.as_str())
}

/// The value of a field in a line that only looks like JSON.
pub fn extract_field(json: &str, field: &str) -> (r: Option<String>)
    ensures
        text_view(r) == field_value(json@, field@),
{
    let s = chars_of(json);
    match find_value(s.as_slice(), mark_of(field, false).as_slice()) {
        Some(v) => Some(v),
        None => find_value(s.as_slice(), mark_of(field, true).as_slice()),
    }
}

/// A text that may be missing, or the empty one.
pub open spec fn or_empty(v: Option<Seq<char>>) -> Seq<char> {
    match v {
        Some(t) => t,
        None => Seq::empty(),
    }
}

/// The record that the fields in a line make, if the text has more than five bytes.
pub open spec fn record_of_fields(body: Seq<char>) -> Option<RecordView> {
    match field_value(body, "text"@) {
        Some(text) if byte_len(text) > 5 => Some(
            RecordView {
                text,
                title: or_empty(field_value(body, "title"@)),
                date: or_empty(field_value(body, "date"@)),
            },
        ),
        _ => None,
    }
}

/// The record that a plain line makes: more than twenty characters, and not the start of an object.
pub open spec fn record_of_plain(body: Seq<char>) -> Option<RecordView> {
    if !has_prefix(body, "{"@) && body.len() > 20 {
        Some(RecordView { text: body, title: Seq::empty(), date: Seq::empty() })
    } else {
        None
    }
}

/// The record of a line, where `parsed` is what reading its body as JSON gave: that record
/// unless its text is empty, else the one its fields make, else the line itself.
pub open spec fn record_of_line(line: Seq<char>, parsed: Option<RecordView>) -> Option<RecordView> {
    match body_of(line) {
        None => None,
        Some(body) => if parsed is Some && parsed->0.text.len() > 0 {
            parsed
        } else if record_of_fields(body) is Some {
            record_of_fields(body)
        } else {
            record_of_plain(body)
        },
    }
}

/// A value of a field, or the empty text.
fn field_or_empty(json: &str, field: &str) -> (r: String)
    ensures
        r@ == or_empty(field_value(json@, field@)),
{
    match extract_field(json, field) {
        Some(v) => v,
        None => String::new(),
    }
}

/// The record of a line, where `parsed` is what reading its body as JSON gave.
pub fn parse_line(line: &str, parsed: Option<Record>) -> (r: Option<Record>)
    ensures
        record_view(r) == record_of_line(line@, record_view(parsed)),
{
    let body = match line_body(line) {
        Some(b) => b,
        None => {
            return None;
        },
    };
    if let Some(rec) = parsed {
        if chars_of(rec.text.as_str()).len() > 0 {
            return Some(rec);
        }
    }
    if let Some(text) = extract_field(body.as_str(), "text") {
        if byte_len_of(text.as_str()) > 5 {
            return Some(
                Record {
                    text,
                    title: field_or_empty(body.as_str(), "title"),
                    date: field_or_empty(body.as_str(), "date"),
                },
            );
        }
    }
    let chars = chars_of(body.as_str());
    if !starts_with(chars.as_slice(), "{") && chars.len() > 20 {
        return Some(Record { text: body, title: String::new(), date: String::new() });
    }
    None
}

/// An empty line and a comment make no record, whatever reading them as JSON gave.
pub proof fn comments_make_no_record(line: Seq<char>, parsed: Option<RecordView>)
    requires
        trimmed(line).len() == 0 || has_prefix(trimmed(line), "--"@) || has_prefix(
            trimmed(line),
            "#"@,
        ),
    ensures
        record_of_line(line, parsed) is None,
{
}

/// Every record that a line makes has a text.
pub proof fn records_have_text(line: Seq<char>, parsed: Option<RecordView>)
    requires
        record_of_line(line, parsed) is Some,
    ensures
        record_of_line(line, parsed)->0.text.len() > 0,
{
    let body = body_of(line)->0;
    if record_of_fields(body) is Some {
        let text = field_value(body, "text"@)->0;
        if text.len() == 0 {
            assert(text =~= Seq::empty());
            assert(encode_utf8(text) =~= Seq::empty());
        }
    }
}

/// White space around a line makes no difference to its record.
pub proof fn space_around_a_line_is_free(
    before: Seq<char>,
    line: Seq<char>,
    after: Seq<char>,
    parsed: Option<RecordView>,
)
    requires
        all_space(before),
        all_space(after),
    ensures
        record_of_line(before + line + after, parsed) == record_of_line(line, parsed),
{
    space_around_is_trimmed(before, line, after);
}

/// A line that holds an object makes the record that reading the object gave, if that record
/// has text.
pub proof fn objects_make_their_records(line: Seq<char>, parsed: RecordView)
    requires
        has_prefix(trimmed(line), "{"@),
        parsed.text.len() > 0,
    ensures
        record_of_line(line, Some(parsed)) == Some(parsed),
{
    let t = trimmed(line);
    reveal_strlit("{");
    reveal_strlit("--");
    reveal_strlit("#");
    assert(t.take(1)[0] == t[0]);
    assert(t[0] == '{');
    if has_prefix(t, "--"@) {
        assert(t.take(2)[0] == '-');
    }
    if has_prefix(t, "#"@) {
        assert(t.take(1)[0] == '#');
    }
}

} // verus!

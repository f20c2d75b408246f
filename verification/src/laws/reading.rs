//! Which record a line makes.

use crate::laws::text::{replacing_goes_from_left_to_right, the_first_place_is_found};
use crate::records::{
    body_of, field_mark, field_value, record_of_line, unescaped, value_end, RecordView,
};
use crate::text::{byte_len, find_from, has_prefix, replaced_from, trimmed};
use vstd::prelude::*;

verus! {

/// Whether a text begins with `#` or with two hyphens.
pub open spec fn is_comment(t: Seq<char>) -> bool {
    (t.len() >= 1 && t[0] == '#') || (t.len() >= 2 && t[0] == '-' && t[1] == '-')
}

/// A line is looked at without the space around it, unless it is then empty or a comment.
pub proof fn comments_are_passed_over(line: Seq<char>)
    ensures
        trimmed(line).len() == 0 || is_comment(trimmed(line)) ==> body_of(line) is None,
        !(trimmed(line).len() == 0 || is_comment(trimmed(line))) ==> body_of(line) == Some(
            trimmed(line),
        ),
{
    let t = trimmed(line);
    reveal_strlit("--");
    reveal_strlit("#");
    if has_prefix(t, "#"@) {
        assert(t.take(1)[0] == '#');
    }
    if has_prefix(t, "--"@) {
        assert(t.take(2)[0] == '-' && t.take(2)[1] == '-');
    }
    if t.len() >= 1 && t[0] == '#' {
        assert(t.take(1) =~= "#"@);
    }
    if t.len() >= 2 && t[0] == '-' && t[1] == '-' {
        assert(t.take(2) =~= "--"@);
    }
}

/// A line that is no comment makes the record that reading it as JSON gave, if that has text.
/// Else it makes the record of its fields, if the text among them takes six bytes or more. Else
/// the line itself is the text, if it has twenty-one characters or more and does not begin with
/// a brace; with neither title nor date.
pub proof fn lines_make_records(line: Seq<char>, parsed: Option<RecordView>)
    requires
        trimmed(line).len() > 0,
        !is_comment(trimmed(line)),
    ensures
        ({
            let t = trimmed(line);
            let text = field_value(t, "text"@);
            record_of_line(line, parsed) == (if parsed is Some && parsed->0.text.len() > 0 {
                parsed
            } else if text is Some && byte_len(text->0) >= 6 {
                Some(
                    RecordView {
                        text: text->0,
                        title: match field_value(t, "title"@) {
                            Some(v) => v,
                            None => Seq::empty(),
                        },
                        date: match field_value(t, "date"@) {
                            Some(v) => v,
                            None => Seq::empty(),
                        },
                    },
                )
            } else if t.len() >= 21 && t[0] != '{' {
                Some(RecordView { text: t, title: Seq::empty(), date: Seq::empty() })
            } else {
                None
            })
        }),
{
    let t = trimmed(line);
    comments_are_passed_over(line);
    reveal_strlit("{");
    if has_prefix(t, "{"@) {
        assert(t.take(1)[0] == '{');
    }
    if t[0] == '{' {
        assert(t.take(1) =~= "{"@);
    }
}

/// What stands before the value of a field: its name in quotes, a colon, and a quote.
pub open spec fn opening(field: Seq<char>) -> Seq<char> {
    seq!['"'] + field + seq!['"', ':', '"']
}

/// What stands before the value of a field if a space follows the colon.
pub open spec fn spaced_opening(field: Seq<char>) -> Seq<char> {
    seq!['"'] + field + seq!['"', ':', ' ', '"']
}

/// Whether a text stands in another at a place.
pub open spec fn is_at(s: Seq<char>, p: Seq<char>, i: int) -> bool {
    0 <= i && i + p.len() <= s.len() && s.subrange(i, i + p.len()) == p
}

/// Whether a text stands in another first at a place.
pub open spec fn is_first_at(s: Seq<char>, p: Seq<char>, i: int) -> bool {
    is_at(s, p, i) && forall|x: int| 0 <= x < i ==> !#[trigger] is_at(s, p, x)
}

/// Whether a quote stands at a place that a comma, a space and a quote follow, or a brace.
pub open spec fn closes_at(rest: Seq<char>, x: int) -> bool {
    is_at(rest, seq!['"', ',', ' ', '"'], x) || is_at(rest, seq!['"', '}'], x)
}

/// Whether a value ends at a place of the text behind its opening: the first at which a quote
/// closes it, or the end of the text if there is none.
pub open spec fn is_end(rest: Seq<char>, e: int) -> bool {
    &&& 0 <= e <= rest.len()
    &&& e < rest.len() ==> closes_at(rest, e)
    &&& forall|x: int| 0 <= x < e ==> !#[trigger] closes_at(rest, x)
}

proof fn lemma_marks(field: Seq<char>)
    ensures
        field_mark(field, false) == opening(field),
        field_mark(field, true) == spaced_opening(field),
        "\", \""@ == seq!['"', ',', ' ', '"'],
        "\"}"@ == seq!['"', '}'],
        "\\n"@ == seq!['\\', 'n'],
        "\n"@ == seq!['\n'],
        "\\\""@ == seq!['\\', '"'],
        "\""@ == seq!['"'],
{
    reveal_strlit("\"");
    reveal_strlit("\": \"");
    reveal_strlit("\":\"");
    reveal_strlit("\", \"");
    reveal_strlit("\"}");
    reveal_strlit("\\n");
    reveal_strlit("\n");
    reveal_strlit("\\\"");
    assert("\""@ =~= seq!['"']);
    assert("\": \""@ =~= seq!['"', ':', ' ', '"']);
    assert("\":\""@ =~= seq!['"', ':', '"']);
    assert("\", \""@ =~= seq!['"', ',', ' ', '"']);
    assert("\"}"@ =~= seq!['"', '}']);
    assert("\\n"@ =~= seq!['\\', 'n']);
    assert("\n"@ =~= seq!['\n']);
    assert("\\\""@ =~= seq!['\\', '"']);
}

proof fn lemma_found(s: Seq<char>, p: Seq<char>, i: int)
    requires
        p.len() > 0,
    ensures
        is_first_at(s, p, i) ==> find_from(s, p, 0) == Some(i),
        (forall|x: int| !#[trigger] is_at(s, p, x)) ==> find_from(s, p, 0) is None,
        find_from(s, p, 0) is Some ==> is_first_at(s, p, find_from(s, p, 0)->0),
        find_from(s, p, 0) is None ==> forall|x: int| !#[trigger] is_at(s, p, x),
{
    the_first_place_is_found(s, p, 0, 0);
    if is_first_at(s, p, i) {
        the_first_place_is_found(s, p, 0, i);
        if let Some(y) = find_from(s, p, 0) {
            assert(is_at(s, p, y));
            if y < i {
                assert(!is_at(s, p, y));
            }
        }
    }
    if let Some(y) = find_from(s, p, 0) {
        assert(is_at(s, p, y));
        assert forall|x: int| 0 <= x < y implies !#[trigger] is_at(s, p, x) by {
            the_first_place_is_found(s, p, 0, x);
        }
    } else {
        assert forall|x: int| !#[trigger] is_at(s, p, x) by {
            if x >= 0 {
                the_first_place_is_found(s, p, 0, x);
            }
        }
    }
}

proof fn lemma_end(rest: Seq<char>, e: int)
    requires
        is_end(rest, e),
    ensures
        value_end(rest) == e,
{
    lemma_marks(Seq::empty());
    let a = seq!['"', ',', ' ', '"'];
    let b = seq!['"', '}'];
    lemma_found(rest, a, e);
    lemma_found(rest, b, e);
    let fa = find_from(rest, a, 0);
    let fb = find_from(rest, b, 0);
    if fa is Some {
        assert(is_at(rest, a, fa->0));
        assert(closes_at(rest, fa->0));
    }
    if fb is Some {
        assert(is_at(rest, b, fb->0));
        assert(closes_at(rest, fb->0));
    }
    if e < rest.len() {
        if is_at(rest, a, e) {
            assert forall|x: int| 0 <= x < e implies !#[trigger] is_at(rest, a, x) by {
                assert(!closes_at(rest, x));
            }
            assert(is_first_at(rest, a, e));
        } else {
            assert forall|x: int| 0 <= x < e implies !#[trigger] is_at(rest, b, x) by {
                assert(!closes_at(rest, x));
            }
            assert(is_first_at(rest, b, e));
        }
    }
}

/// The value of a field is what stands behind the first opening of the field, up to its end,
/// with its escapes undone. An opening without a space goes before one with a space; a field
/// without an opening has no value.
pub proof fn values_stand_behind_their_field(s: Seq<char>, field: Seq<char>, i: int, e: int)
    ensures
        ({
            let plain = opening(field);
            let wide = spaced_opening(field);
            &&& is_first_at(s, plain, i) && is_end(s.skip(i + plain.len()), e) ==> field_value(
                s,
                field,
            ) == Some(unescaped(s.skip(i + plain.len()).take(e)))
            &&& (forall|x: int| !#[trigger] is_at(s, plain, x)) && is_first_at(s, wide, i) && is_end(
                s.skip(i + wide.len()),
                e,
            ) ==> field_value(s, field) == Some(unescaped(s.skip(i + wide.len()).take(e)))
            &&& (forall|x: int| !#[trigger] is_at(s, plain, x)) && (forall|x: int|
                !#[trigger] is_at(s, wide, x)) ==> field_value(s, field) is None
        }),
{
    let plain = opening(field);
    let wide = spaced_opening(field);
    lemma_marks(field);
    lemma_found(s, plain, i);
    lemma_found(s, wide, i);
    if is_first_at(s, plain, i) && is_end(s.skip(i + plain.len()), e) {
        lemma_end(s.skip(i + plain.len()), e);
    }
    if is_first_at(s, wide, i) && is_end(s.skip(i + wide.len()), e) {
        lemma_end(s.skip(i + wide.len()), e);
    }
}

/// Undoing escapes turns a backslash with an `n` into a line break, and then a backslash with a
/// quote into a quote, from left to right, and leaves everything else.
pub proof fn escapes_are_undone(v: Seq<char>)
    ensures
        unescaped(v) == replaced_from(
            replaced_from(v, seq!['\\', 'n'], seq!['\n'], 0),
            seq!['\\', '"'],
            seq!['"'],
            0,
        ),
{
    lemma_marks(Seq::empty());
}

/// A value without backslashes has no escapes.
pub proof fn values_without_escapes_stay(v: Seq<char>)
    requires
        forall|i: int| 0 <= i < v.len() ==> #[trigger] v[i] != '\\',
    ensures
        unescaped(v) == v,
{
    escapes_are_undone(v);
    lemma_nothing_replaced(v, seq!['\\', 'n'], seq!['\n']);
    lemma_nothing_replaced(v, seq!['\\', '"'], seq!['"']);
}

proof fn lemma_nothing_replaced(v: Seq<char>, from: Seq<char>, to: Seq<char>)
    requires
        from.len() > 0,
        forall|i: int| 0 <= i < v.len() ==> #[trigger] v[i] != from[0],
    ensures
        replaced_from(v, from, to, 0) == v,
    decreases v.len(),
{
    if v.len() > 0 {
        let c = v[0];
        let rest = v.skip(1);
        assert(v =~= seq![c] + rest);
        replacing_goes_from_left_to_right(c, rest, from, to);
        if from.len() <= v.len() && v.take(from.len() as int) == from {
            assert(v.take(from.len() as int)[0] == v[0]);
        }
        assert forall|i: int| 0 <= i < rest.len() implies #[trigger] rest[i] != from[0] by {
            assert(rest[i] == v[i + 1]);
        }
        lemma_nothing_replaced(rest, from, to);
    } else {
        assert(replaced_from(v, from, to, 0) =~= v);
    }
}

} // verus!

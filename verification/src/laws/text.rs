//! How texts are split, trimmed, joined, searched and counted out.

use crate::chars::{is_digit, whitespace};
use crate::text::{
    after_plus, all_space, decimal, digits_value, find_from, joined, lemma_skip_space,
    lemma_trimmed_between, lemma_word_end, number_in, replaced_from, skip_space, spaced,
    split_words, stands_at, trimmed, word_end, words_from,
};
use vstd::prelude::*;

verus! {

/// Whether a text is not empty and holds no white space.
pub open spec fn is_word(w: Seq<char>) -> bool {
    w.len() > 0 && forall|i: int| 0 <= i < w.len() ==> !whitespace(#[trigger] w[i])
}

proof fn lemma_words_shift(s: Seq<char>, k: int, i: int)
    requires
        0 <= k <= s.len(),
        0 <= i,
        k + i <= s.len(),
    ensures
        words_from(s.skip(k), i) == words_from(s, k + i),
    decreases s.len() - k - i,
{
    let t = s.skip(k);
    lemma_space_shift(s, k, i);
    lemma_skip_space(t, i);
    lemma_skip_space(s, k + i);
    let b = skip_space(t, i);
    if b < t.len() {
        lemma_end_shift(s, k, b);
        lemma_word_end(t, b);
        lemma_word_end(s, k + b);
        let e = word_end(t, b);
        lemma_words_shift(s, k, e);
        assert(t.subrange(b, e) =~= s.subrange(k + b, k + e));
    }
}

proof fn lemma_space_shift(s: Seq<char>, k: int, i: int)
    requires
        0 <= k <= s.len(),
        0 <= i,
        k + i <= s.len(),
    ensures
        skip_space(s, k + i) == k + skip_space(s.skip(k), i),
    decreases s.len() - k - i,
{
    if k + i < s.len() && whitespace(s[k + i]) {
        lemma_space_shift(s, k, i + 1);
    }
}

proof fn lemma_end_shift(s: Seq<char>, k: int, i: int)
    requires
        0 <= k <= s.len(),
        0 <= i,
        k + i <= s.len(),
    ensures
        word_end(s, k + i) == k + word_end(s.skip(k), i),
    decreases s.len() - k - i,
{
    if k + i < s.len() && !whitespace(s[k + i]) {
        lemma_end_shift(s, k, i + 1);
    }
}

/// A text is split at its white space: behind any space the first word goes as far as the next
/// white space, and the rest is split in the same way.
pub proof fn texts_are_split_at_white_space(space: Seq<char>, w: Seq<char>, rest: Seq<char>)
    requires
        all_space(space),
        is_word(w),
        rest.len() > 0 ==> whitespace(rest[0]),
    ensures
        split_words(space + w + rest) == seq![w] + split_words(rest),
{
    let s = space + w + rest;
    let b = space.len() as int;
    let e = b + w.len();
    lemma_skip_space(s, 0);
    assert forall|i: int| 0 <= i < b implies whitespace(#[trigger] s[i]) by {
        assert(s[i] == space[i]);
    }
    assert(s[b] == w[0]);
    assert(!whitespace(w[0]));
    assert(skip_space(s, 0) == b);
    lemma_word_end(s, b);
    assert forall|i: int| b <= i < e implies !whitespace(#[trigger] s[i]) by {
        assert(s[i] == w[i - b]);
    }
    if rest.len() > 0 {
        assert(s[e] == rest[0]);
    }
    assert(word_end(s, b) == e);
    assert(s.subrange(b, e) =~= w);
    assert(s.skip(e) =~= rest);
    lemma_words_shift(s, e, 0);
}

/// White space alone has no words.
pub proof fn white_space_has_no_words(space: Seq<char>)
    requires
        all_space(space),
    ensures
        split_words(space) == Seq::<Seq<char>>::empty(),
{
    lemma_skip_space(space, 0);
    let b = skip_space(space, 0);
    if b < space.len() {
        assert(whitespace(space[b]));
    }
}

/// A text that neither begins nor ends with white space is trimmed already.
pub proof fn trimmed_texts_stay(s: Seq<char>)
    requires
        s.len() > 0 ==> !whitespace(s[0]) && !whitespace(s.last()),
    ensures
        trimmed(s) == s,
{
    if s.len() > 0 {
        lemma_trimmed_between(s, 0, s.len() as int);
        assert(s.subrange(0, s.len() as int) =~= s);
    } else {
        assert(trimmed(s) =~= s);
    }
}

/// Texts are joined one after another, with the separator between each two and nowhere else.
pub proof fn separators_stand_between(ws: Seq<Seq<char>>, w: Seq<char>, sep: Seq<char>)
    ensures
        joined(Seq::<Seq<char>>::empty(), sep) == Seq::<char>::empty(),
        joined(seq![w], sep) == w,
        ws.len() > 0 ==> joined(ws.push(w), sep) == joined(ws, sep) + sep + w,
        spaced(ws) == joined(ws, seq![' ']),
{
    assert(ws.push(w).drop_last() =~= ws);
    assert(seq![w].drop_last() =~= Seq::<Seq<char>>::empty());
    reveal_with_fuel(joined, 2);
    assert(joined(seq![w], sep) =~= w);
}

/// A text is found where it first stands, and nowhere if it stands nowhere.
pub proof fn the_first_place_is_found(s: Seq<char>, p: Seq<char>, i: int, x: int)
    requires
        0 <= i <= x,
    ensures
        match find_from(s, p, i) {
            Some(y) => {
                &&& i <= y
                &&& y + p.len() <= s.len()
                &&& s.subrange(y, y + p.len()) == p
                &&& x < y ==> s.subrange(x, x + p.len()) != p
            },
            None => x + p.len() <= s.len() ==> s.subrange(x, x + p.len()) != p,
        },
    decreases s.len() - i,
{
    if !stands_at(s, p, i) && i < s.len() {
        if i < x {
            the_first_place_is_found(s, p, i + 1, x);
        } else {
            the_first_place_is_found(s, p, i + 1, i + 1);
        }
    }
}

proof fn lemma_replaced_shift(s: Seq<char>, from: Seq<char>, to: Seq<char>, k: int, i: int)
    requires
        0 <= k <= s.len(),
        0 <= i,
        from.len() > 0,
    ensures
        replaced_from(s.skip(k), from, to, i) == replaced_from(s, from, to, k + i),
    decreases s.len() - k - i,
{
    let t = s.skip(k);
    if k + i < s.len() {
        assert(stands_at(t, from, i) == stands_at(s, from, k + i)) by {
            if k + i + from.len() <= s.len() {
                assert(t.subrange(i, i + from.len()) =~= s.subrange(k + i, k + i + from.len()));
            }
        }
        if stands_at(s, from, k + i) {
            lemma_replaced_shift(s, from, to, k, i + from.len());
        } else {
            lemma_replaced_shift(s, from, to, k, i + 1);
        }
    }
}

/// Replacing goes from left to right: where the text begins with what is replaced, the
/// replacement comes and then the rest with its replacements; where it does not, its first
/// character stays.
pub proof fn replacing_goes_from_left_to_right(
    c: char,
    rest: Seq<char>,
    from: Seq<char>,
    to: Seq<char>,
)
    requires
        from.len() > 0,
    ensures
        replaced_from(Seq::empty(), from, to, 0) == Seq::<char>::empty(),
        replaced_from(from + rest, from, to, 0) == to + replaced_from(rest, from, to, 0),
        !(from.len() <= rest.len() + 1 && (seq![c] + rest).take(from.len() as int) == from)
            ==> replaced_from(seq![c] + rest, from, to, 0) == seq![c] + replaced_from(
            rest,
            from,
            to,
            0,
        ),
{
    let s = from + rest;
    assert(s.subrange(0, from.len() as int) =~= from);
    assert(s.skip(from.len() as int) =~= rest);
    lemma_replaced_shift(s, from, to, from.len() as int, 0);
    let t = seq![c] + rest;
    assert(t.skip(1) =~= rest);
    lemma_replaced_shift(t, from, to, 1, 0);
    if from.len() <= t.len() {
        assert(t.subrange(0, from.len() as int) =~= t.take(from.len() as int));
    }
}

/// A number below ten is written as its digit, and any other as its tenth part with its last
/// digit behind.
pub proof fn numbers_are_written_in_decimal(n: nat)
    ensures
        n < 10 ==> decimal(n) == seq![(('0' as int) + n) as char],
        n >= 10 ==> decimal(n) == decimal(n / 10).push((('0' as int) + (n % 10)) as char),
{
}

/// A text denotes a number if it consists of decimal digits, one at least, behind at most one
/// plus sign. One more digit makes the number ten times as great and adds the digit.
pub proof fn digits_make_a_number(s: Seq<char>, c: char)
    requires
        s.len() > 0,
        forall|i: int| 0 <= i < s.len() ==> '0' <= #[trigger] s[i] <= '9',
    ensures
        '0' <= c <= '9' ==> number_in(seq![c]) == Some((c as int - '0' as int) as nat),
        number_in(s) is Some,
        number_in(seq!['+'] + s) == number_in(s),
        '0' <= c <= '9' ==> number_in(s.push(c)) == Some(
            (number_in(s)->0 * 10 + (c as int - '0' as int)) as nat,
        ),
        !('0' <= c <= '9') ==> number_in(s.push(c)) is None,
        number_in(Seq::empty()) is None,
{
    assert(is_digit(s[0]));
    assert(after_plus(s) == s);
    assert((seq!['+'] + s).skip(1) =~= s);
    assert(s.push(c).drop_last() =~= s);
    assert(s.push(c)[0] == s[0]);
    assert(s.push(c)[s.len() as int] == c);
    assert(seq![c].drop_last() =~= Seq::<char>::empty());
    assert(digits_value(Seq::<char>::empty()) == 0);
    assert(seq![c][0] == c);
    reveal_with_fuel(digits_value, 2);
    assert forall|i: int| 0 <= i < s.len() implies is_digit(#[trigger] s[i]) by {}
    if '0' <= c <= '9' {
        assert forall|i: int| 0 <= i < s.push(c).len() implies is_digit(#[trigger] s.push(c)[i]) by {
            if i < s.len() {
                assert(is_digit(s[i]));
            }
        }
    } else {
        assert(!is_digit(s.push(c)[s.len() as int]));
    }
}

} // verus!

//! Endings of Russian words in the old and the new orthography.

use crate::chars::lowered;
use crate::text::{
    chars_of, ends_with_any, has_any_suffix, letters, letters_of, lower_chars, text_of,
};
use vstd::prelude::*;

verus! {

/// The endings of surnames.
pub open spec fn surname_suffixes() -> Seq<&'static str> {
    seq![
        "овъ",
        "евъ",
        "инъ",
        "ынъ",
        "скій",
        "цкій",
        "ской",
        "цкой",
        "ова",
        "ева",
        "ина",
        "ына",
        "ская",
        "цкая",
        "ов",
        "ев",
        "ин",
        "ын",
        "ский",
        "цкий",
    ]
}

/// Whether a word ends as surnames do.
pub open spec fn surname_like(w: Seq<char>) -> bool {
    has_any_suffix(w, surname_suffixes())
}

/// Whether a word in lower case ends as surnames do.
pub fn looks_like_surname(lower: &str) -> (r: bool)
    ensures
        r == surname_like(lower@),
{
    let sufs: [&str; 20] = [
        "овъ",
        "евъ",
        "инъ",
        "ынъ",
        "скій",
        "цкій",
        "ской",
        "цкой",
        "ова",
        "ева",
        "ина",
        "ына",
        "ская",
        "цкая",
        "ов",
        "ев",
        "ин",
        "ын",
        "ский",
        "цкий",
    ];
    assert(sufs@ =~= surname_suffixes());
    ends_with_any(chars_of(lower).as_slice(), sufs.as_slice())
}

/// Whether two words of more than three characters differ, but only within the last
/// three characters of the shorter one or after it.
pub open spec fn ending_differs(wrong: Seq<char>, right: Seq<char>) -> bool {
    let n = if wrong.len() <= right.len() {
        wrong.len()
    } else {
        right.len()
    };
    n > 3 && wrong != right && forall|i: int| 0 <= i < n - 3 ==> wrong[i] == right[i]
}

/// Whether two words differ in their ending alone.
pub fn only_ending_changed(wrong: &str, right: &str) -> (r: bool)
    ensures
        r == ending_differs(wrong@, right@),
{
    let wc = chars_of(wrong);
    let rc = chars_of(right);
    let n: usize = if wc.len() <= rc.len() {
        wc.len()
    } else {
        rc.len()
    };
    if n <= 3 {
        return false;
    }
    let mut i: usize = 0;
    while i < n
        invariant
            i <= n,
            n > 3,
            n <= wc.len(),
            n <= rc.len(),
            n == wc.len() || n == rc.len(),
            wc@ == wrong@,
            rc@ == right@,
            forall|x: int| 0 <= x < i ==> wc@[x] == rc@[x],
        decreases n - i,
    {
        if wc[i] != rc[i] {
            return i >= n - 3;
        }
        i += 1;
    }
    if wc.len() == rc.len() {
        assert(wc@ =~= rc@);
    }
    wc.len() != rc.len()
}

/// Whether a correction leaves surnames alone: among surnames, one surname ending must
/// not be traded for another.
pub open spec fn morphology_kept(wrong: Seq<char>, right: Seq<char>, surname_ctx: bool) -> bool {
    !(surname_ctx && ending_differs(wrong, right) && surname_like(wrong) && surname_like(right))
}

/// Whether a correction leaves surnames alone.
pub fn correction_is_morphologically_safe(wrong: &str, right: &str, is_surname_ctx: bool) -> (r:
    bool)
    ensures
        r == morphology_kept(wrong@, right@, is_surname_ctx),
{
    if is_surname_ctx && only_ending_changed(wrong, right) {
        if looks_like_surname(wrong) && looks_like_surname(right) {
            return false;
        }
    }
    true
}

/// Endings of which a stem loses three characters.
pub open spec fn long_endings() -> Seq<&'static str> {
    seq!["ого", "его", "ему", "ому"]
}

/// Endings of which a stem loses two characters.
pub open spec fn middle_endings() -> Seq<&'static str> {
    seq![
        "ый",
        "ій",
        "ое",
        "ая",
        "ье",
        "ья",
        "ою",
        "ею",
        "емъ",
        "омъ",
        "амъ",
        "ахъ",
        "аго",
        "яго",
    ]
}

/// Endings of which a stem loses one character.
pub open spec fn short_endings() -> Seq<&'static str> {
    seq!["ъ", "ь", "й", "а", "я", "ы", "и", "у", "ю", "е"]
}

/// How many characters a word of more than four letters loses to become a stem.
pub open spec fn ending_len(w: Seq<char>) -> nat {
    if has_any_suffix(w, long_endings()) {
        3
    } else if has_any_suffix(w, middle_endings()) {
        2
    } else if has_any_suffix(w, short_endings()) {
        1
    } else {
        0
    }
}

/// The stem of a word: its letters in lower case, without the ending if they are more
/// than four.
pub open spec fn stem_of(word: Seq<char>) -> Seq<char> {
    let ls = letters(lowered(word));
    if ls.len() <= 4 {
        ls
    } else {
        ls.take(ls.len() - ending_len(ls))
    }
}

/// The stem of a word, under which n-grams are counted.
pub fn normalize_for_ngram(word: &str) -> (r: String)
    ensures
        r@ == stem_of(word@),
{
    let low = lower_chars(chars_of(word).as_slice());
    let ls = letters_of(low.as_slice());
    if ls.len() <= 4 {
        return text_of(ls.as_slice());
    }
    let long: [&str; 4] = ["ого", "его", "ему", "ому"];
    let middle: [&str; 14] = [
        "ый",
        "ій",
        "ое",
        "ая",
        "ье",
        "ья",
        "ою",
        "ею",
        "емъ",
        "омъ",
        "амъ",
        "ахъ",
        "аго",
        "яго",
    ];
    let short: [&str; 10] = ["ъ", "ь", "й", "а", "я", "ы", "и", "у", "ю", "е"];
    proof {
        assert(long@ =~= long_endings());
        assert(middle@ =~= middle_endings());
        assert(short@ =~= short_endings());
    }
    let cut: usize = if ends_with_any(ls.as_slice(), long.as_slice()) {
        3
    } else if ends_with_any(ls.as_slice(), middle.as_slice()) {
        2
    } else if ends_with_any(ls.as_slice(), short.as_slice()) {
        1
    } else {
        0
    };
    let end: usize = ls.len() - cut;
    assert(ls@.take(end as int) =~= ls@.subrange(0, end as int));
    text_of(&ls[0..end])
}

/// A stem is a beginning of the letters of the word in lower case, and at most three letters
/// shorter.
pub proof fn stems_are_beginnings(word: Seq<char>)
    ensures
        stem_of(word).len() <= letters(lowered(word)).len() <= stem_of(word).len() + 3,
        stem_of(word) == letters(lowered(word)).take(stem_of(word).len() as int),
{
    let ls = letters(lowered(word));
    assert(ls.take(ls.len() as int) =~= ls);
}

} // verus!

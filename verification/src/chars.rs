//! Character classes and case mappings of the Unicode tables in `std`.

use vstd::prelude::*;

verus! {

/// What `char::is_alphabetic` answers.
pub uninterp spec fn std_alphabetic(c: char) -> bool;

/// What `char::is_numeric` answers.
pub uninterp spec fn std_numeric(c: char) -> bool;

/// Whether `c` has the Unicode `Uppercase` property.
pub uninterp spec fn uppercase(c: char) -> bool;

/// What `char::is_whitespace` answers.
pub uninterp spec fn std_whitespace(c: char) -> bool;

/// What `str::to_lowercase` gives.
pub uninterp spec fn std_lowered(s: Seq<char>) -> Seq<char>;

/// The characters that `char::to_uppercase` gives.
pub uninterp spec fn std_uppercased(c: char) -> Seq<char>;

/// Whether `c` is one of the ten decimal digits.
pub open spec fn is_digit(c: char) -> bool {
    '0' <= c <= '9'
}

/// A punctuation mark that sets sentences and quotations off.
pub open spec fn sentence_mark(c: char) -> bool {
    c == '.' || c == ',' || c == '?' || c == '"' || c == '\'' || c == '«' || c == '»' || c == '('
        || c == ')' || c == '[' || c == ']' || c == '{' || c == '}' || c == '—' || c == '–'
}

/// A small letter of the Russian alphabet, the letters of the old spelling among them.
pub open spec fn small_russian(c: char) -> bool {
    'а' <= c <= 'я' || c == 'ё' || c == 'і' || c == 'ѣ' || c == 'ѳ' || c == 'ѵ'
}

/// A capital letter of the Russian alphabet, the letters of the old spelling among them.
pub open spec fn capital_russian(c: char) -> bool {
    'А' <= c <= 'Я' || c == 'Ё' || c == 'І' || c == 'Ѣ' || c == 'Ѳ' || c == 'Ѵ'
}

/// A letter of the Russian alphabet.
pub open spec fn russian(c: char) -> bool {
    small_russian(c) || capital_russian(c)
}

/// The small form of a Russian letter: the capitals stand as far before the small letters as
/// А before а, but for the few outside that row.
pub open spec fn small_form(c: char) -> char {
    if 'А' <= c <= 'Я' {
        (c as int - 'А' as int + 'а' as int) as char
    } else if c == 'Ё' {
        'ё'
    } else if c == 'І' {
        'і'
    } else if c == 'Ѣ' {
        'ѣ'
    } else if c == 'Ѳ' {
        'ѳ'
    } else if c == 'Ѵ' {
        'ѵ'
    } else {
        c
    }
}

/// The capital form of a Russian letter.
pub open spec fn capital_form(c: char) -> char {
    if 'а' <= c <= 'я' {
        (c as int - 'а' as int + 'А' as int) as char
    } else if c == 'ё' {
        'Ё'
    } else if c == 'і' {
        'І'
    } else if c == 'ѣ' {
        'Ѣ'
    } else if c == 'ѳ' {
        'Ѳ'
    } else if c == 'ѵ' {
        'Ѵ'
    } else {
        c
    }
}

/// Whether `c` has the Unicode `Alphabetic` property. The Russian letters have it and the
/// sentence marks do not.
#[verifier::opaque]
pub open spec fn alphabetic(c: char) -> bool {
    if russian(c) {
        true
    } else if sentence_mark(c) {
        false
    } else {
        std_alphabetic(c)
    }
}

/// Whether `c` belongs to one of the Unicode general categories for numbers. The sentence
/// marks belong to none.
#[verifier::opaque]
pub open spec fn numeric(c: char) -> bool {
    if sentence_mark(c) {
        false
    } else {
        std_numeric(c)
    }
}

/// Whether `c` has the Unicode `White_Space` property. The decimal digits do not have it.
#[verifier::opaque]
pub open spec fn whitespace(c: char) -> bool {
    if is_digit(c) {
        false
    } else {
        std_whitespace(c)
    }
}

/// The lowercase form of a whole text. A text of Russian letters is lowered letter by letter.
#[verifier::opaque]
pub open spec fn lowered(s: Seq<char>) -> Seq<char> {
    if forall|i: int| 0 <= i < s.len() ==> russian(#[trigger] s[i]) {
        Seq::new(s.len(), |i: int| small_form(s[i]))
    } else {
        std_lowered(s)
    }
}

/// The uppercase mapping of one character, which may be longer than one character. A small
/// Russian letter is mapped to its capital form.
#[verifier::opaque]
pub open spec fn uppercased(c: char) -> Seq<char> {
    if small_russian(c) {
        seq![capital_form(c)]
    } else {
        std_uppercased(c)
    }
}

/// `char::is_alphabetic`: the Unicode property `Alphabetic`, which is a fixed answer for each
/// character. It is yes for the Russian letters and no for the sentence marks, whose general
/// categories are those of punctuation; for any other character the answer is only named.
pub assume_specification[ char::is_alphabetic ](c: char) -> (r: bool)
    ensures
        r == std_alphabetic(c),
        r == alphabetic(c),
;

/// `char::is_numeric`: whether the general category of the character is one for numbers, a
/// fixed answer for each character. It is no for the sentence marks, whose categories are
/// those of punctuation; for any other character the answer is only named.
pub assume_specification[ char::is_numeric ](c: char) -> (r: bool)
    ensures
        r == std_numeric(c),
        r == numeric(c),
;

/// `char::is_uppercase`: a fixed property of the character, named `uppercase`.
pub assume_specification[ char::is_uppercase ](c: char) -> (r: bool)
    ensures
        r == uppercase(c),
;

/// `char::is_whitespace`: the Unicode property `White_Space`, which is a fixed answer for each
/// character. It is no for the decimal digits; for any other character the answer is only
/// named.
pub assume_specification[ char::is_whitespace ](c: char) -> (r: bool)
    ensures
        r == std_whitespace(c),
        r == whitespace(c),
;

/// `str::to_lowercase`: the Unicode lowercase of a text, a function of the text alone. Russian
/// letters are mapped one for one, each capital to its small form and each small letter to
/// itself; for a text that holds anything else the result is only named.
pub assume_specification[ str::to_lowercase ](s: &str) -> (r: String)
    ensures
        r@ == std_lowered(s@),
        r@ == lowered(s@),
;

/// `String::push`: appends one character to the end of the string.
pub assume_specification[ String::push ](s: &mut String, c: char)
    ensures
        final(s)@ == old(s)@.push(c),
;

/// `char::to_uppercase`: the characters of the Unicode uppercase mapping, in order. A small
/// Russian letter is mapped to its capital form alone; for any other character the result is
/// only named.
#[verifier::external_body]
fn uppercase_chars(c: char) -> (r: Vec<char>)
    ensures
        r@ == std_uppercased(c),
        r@ == uppercased(c),
{
    c.to_uppercase().collect()
}

/// The first character of the uppercase mapping of `c`, or `c` if the mapping is empty.
pub open spec fn raised(c: char) -> char {
    if uppercased(c).len() > 0 {
        uppercased(c)[0]
    } else {
        c
    }
}

/// Raises one character to upper case, keeping only the first character of its mapping.
pub fn raise(c: char) -> (r: char)
    ensures
        r == raised(c),
{
    let up = uppercase_chars(c);
    if up.len() > 0 {
        up[0]
    } else {
        c
    }
}

} // verus!

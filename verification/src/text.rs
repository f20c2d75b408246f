//! Text as sequences of characters: splitting, joining, searching and rendering.

use crate::chars::{alphabetic, is_digit, lowered, whitespace};
use vstd::prelude::*;
use vstd::slice::slice_subrange;
use vstd::utf8::encode_utf8;

verus! {

/// The characters of each string in a list.
pub open spec fn texts(ws: Seq<String>) -> Seq<Seq<char>> {
    Seq::new(ws.len(), |i: int| ws[i]@)
}

/// Collects the characters of a string.
pub fn chars_of(s: &str) -> (r: Vec<char>)
    ensures
        r@ == s@,
{
    let mut out: Vec<char> = Vec::new();
    for c in it: s.chars()
        invariant
            it.seq() == s@,
            out@ == s@.take(it.index() as int),
    {
        out.push(c);
    }
    out
}

/// Builds a string from characters.
pub fn text_of(cs: &[char]) -> (r: String)
    ensures
        r@ == cs@,
{
    let mut out = String::new();
    let mut i: usize = 0;
    while i < cs.len()
        invariant
            i <= cs.len(),
            out@ == cs@.take(i as int),
        decreases cs.len() - i,
    {
        out.push(cs[i]);
        i += 1;
    }
    out
}

/// Copies a list of strings.
pub fn clone_texts(ws: &[String]) -> (r: Vec<String>)
    ensures
        texts(r@) == texts(ws@),
{
    let mut out: Vec<String> = Vec::new();
    let mut i: usize = 0;
    while i < ws.len()
        invariant
            i <= ws.len(),
            texts(out@) == texts(ws@).take(i as int),
        decreases ws.len() - i,
    {
        let ghost done = texts(out@);
        out.push(ws[i].clone());
        assert(texts(out@) =~= done.push(ws@[i as int]@));
        assert(texts(ws@).take(i + 1) =~= done.push(ws@[i as int]@));
        i += 1;
    }
    assert(texts(ws@).take(ws@.len() as int) =~= texts(ws@));
    out
}

/// Copies the strings from position `from` up to, but not including, position `to`.
pub fn clone_range(ws: &[String], from: usize, to: usize) -> (r: Vec<String>)
    requires
        from <= to <= ws@.len(),
    ensures
        texts(r@) == texts(ws@).subrange(from as int, to as int),
{
    let part = slice_subrange(ws, from, to);
    assert(texts(part@) =~= texts(ws@).subrange(from as int, to as int));
    clone_texts(part)
}

/// The number of bytes of a text in UTF-8.
pub open spec fn byte_len(s: Seq<char>) -> nat {
    encode_utf8(s).len()
}

/// The number of bytes of a text in UTF-8.
pub fn byte_len_of(s: &str) -> (r: usize)
    ensures
        r == byte_len(s@),
{
    let bytes = s.as_bytes();
    bytes.len()
}

/// Whether two runs of characters are equal.
pub fn same_chars(a: &[char], b: &[char]) -> (r: bool)
    ensures
        r == (a@ == b@),
{
    if a.len() != b.len() {
        return false;
    }
    let mut i: usize = 0;
    while i < a.len()
        invariant
            i <= a.len(),
            a.len() == b.len(),
            forall|x: int| 0 <= x < i ==> a@[x] == b@[x],
        decreases a.len() - i,
    {
        if a[i] != b[i] {
            return false;
        }
        i += 1;
    }
    assert(a@ =~= b@);
    true
}

/// The alphabetic characters of a text, in order.
pub open spec fn letters(s: Seq<char>) -> Seq<char>
    decreases s.len(),
{
    if s.len() == 0 {
        Seq::empty()
    } else if alphabetic(s.last()) {
        letters(s.drop_last()).push(s.last())
    } else {
        letters(s.drop_last())
    }
}

/// Keeps the alphabetic characters of a text.
pub fn letters_of(s: &[char]) -> (r: Vec<char>)
    ensures
        r@ == letters(s@),
{
    let mut out: Vec<char> = Vec::new();
    let mut i: usize = 0;
    while i < s.len()
        invariant
            i <= s.len(),
            out@ == letters(s@.take(i as int)),
        decreases s.len() - i,
    {
        let c = s[i];
        assert(s@.take(i + 1).drop_last() == s@.take(i as int));
        if c.is_alphabetic() {
            out.push(c);
        }
        i += 1;
    }
    assert(s@.take(s@.len() as int) == s@);
    out
}

/// The lowercase form of the characters given.
pub fn lower_chars(s: &[char]) -> (r: Vec<char>)
    ensures
        r@ == lowered(s@),
{
    let t = text_of(s);
    let low = t.as_str().to_lowercase();
    chars_of(low.as_str())
}

/// The first position from `i` on that holds no whitespace, or the end.
pub open spec fn skip_space(s: Seq<char>, i: int) -> int
    decreases s.len() - i,
{
    if 0 <= i < s.len() && whitespace(s[i]) {
        skip_space(s, i + 1)
    } else {
        i
    }
}

/// The first position from `i` on that holds whitespace, or the end.
pub open spec fn word_end(s: Seq<char>, i: int) -> int
    decreases s.len() - i,
{
    if 0 <= i < s.len() && !whitespace(s[i]) {
        word_end(s, i + 1)
    } else {
        i
    }
}

/// The position after the last character before `e` that is no whitespace, or the start.
pub open spec fn back_space(s: Seq<char>, e: int) -> int
    decreases e,
{
    if 0 < e <= s.len() && whitespace(s[e - 1]) {
        back_space(s, e - 1)
    } else {
        e
    }
}

/// Skipping space stops at a character that is not white space, or at the end.
pub proof fn lemma_skip_space(s: Seq<char>, i: int)
    requires
        0 <= i <= s.len(),
    ensures
        i <= skip_space(s, i) <= s.len(),
        skip_space(s, i) < s.len() ==> !whitespace(s[skip_space(s, i)]),
        forall|x: int| i <= x < skip_space(s, i) ==> whitespace(s[x]),
    decreases s.len() - i,
{
    if i < s.len() && whitespace(s[i]) {
        lemma_skip_space(s, i + 1);
    }
}

/// A word ends at white space, or at the end of the text.
pub proof fn lemma_word_end(s: Seq<char>, i: int)
    requires
        0 <= i <= s.len(),
    ensures
        i <= word_end(s, i) <= s.len(),
        i < s.len() && !whitespace(s[i]) ==> i < word_end(s, i),
        word_end(s, i) < s.len() ==> whitespace(s[word_end(s, i)]),
        forall|x: int| i <= x < word_end(s, i) ==> !whitespace(s[x]),
    decreases s.len() - i,
{
    if i < s.len() && !whitespace(s[i]) {
        lemma_word_end(s, i + 1);
    }
}

proof fn lemma_back_space(s: Seq<char>, e: int)
    requires
        0 <= e <= s.len(),
    ensures
        0 <= back_space(s, e) <= e,
        back_space(s, e) > 0 ==> !whitespace(s[back_space(s, e) - 1]),
        forall|x: int| back_space(s, e) <= x < e ==> whitespace(s[x]),
    decreases e,
{
    if e > 0 && whitespace(s[e - 1]) {
        lemma_back_space(s, e - 1);
    }
}

/// The words of a text from position `i` on: its maximal stretches without whitespace.
pub open spec fn words_from(s: Seq<char>, i: int) -> Seq<Seq<char>>
    decreases s.len() - i,
{
    if 0 <= i <= s.len() {
        proof {
            lemma_skip_space(s, i);
            lemma_word_end(s, skip_space(s, i));
        }
        let b = skip_space(s, i);
        if b >= s.len() {
            Seq::empty()
        } else {
            seq![s.subrange(b, word_end(s, b))] + words_from(s, word_end(s, b))
        }
    } else {
        Seq::empty()
    }
}

/// The words of a text.
pub open spec fn split_words(s: Seq<char>) -> Seq<Seq<char>> {
    words_from(s, 0)
}

/// Splits a text at its whitespace.
pub fn words_of(s: &str) -> (r: Vec<String>)
    ensures
        texts(r@) == split_words(s@),
{
    let cs = chars_of(s);
    let n: usize = cs.len();
    let mut out: Vec<String> = Vec::new();
    let mut i: usize = 0;
    assert(texts(out@) =~= Seq::<Seq<char>>::empty());
    assert(texts(out@) + words_from(cs@, 0) =~= split_words(s@));
    while i < n
        invariant
            i <= n,
            n == cs.len(),
            cs@ == s@,
            texts(out@) + words_from(cs@, i as int) == split_words(s@),
        decreases n - i,
    {
        let mut b: usize = i;
        while b < n && cs[b].is_whitespace()
            invariant
                i <= b <= n,
                n == cs.len(),
                skip_space(cs@, i as int) == skip_space(cs@, b as int),
            decreases n - b,
        {
            b += 1;
        }
        let mut e: usize = b;
        while e < n && !cs[e].is_whitespace()
            invariant
                b <= e <= n,
                n == cs.len(),
                word_end(cs@, b as int) == word_end(cs@, e as int),
            decreases n - e,
        {
            e += 1;
        }
        let ghost rest = words_from(cs@, i as int);
        let ghost done = texts(out@);
        if b < n {
            proof {
                lemma_word_end(cs@, b as int);
            }
            let w = text_of(&cs[b..e]);
            out.push(w);
            proof {
                assert(rest == seq![cs@.subrange(b as int, e as int)] + words_from(cs@, e as int));
                assert(texts(out@) =~= done.push(cs@.subrange(b as int, e as int)));
                assert(texts(out@) + words_from(cs@, e as int) =~= done + rest);
            }
        } else {
            assert(words_from(cs@, n as int) =~= rest);
        }
        i = e;
    }
    assert(words_from(cs@, n as int) =~= Seq::<Seq<char>>::empty());
    assert(texts(out@) + words_from(cs@, i as int) =~= texts(out@));
    out
}

proof fn lemma_words_from_clean(s: Seq<char>, i: int, k: int)
    requires
        0 <= i <= s.len(),
        0 <= k < words_from(s, i).len(),
    ensures
        words_from(s, i)[k].len() > 0,
        forall|x: int| 0 <= x < words_from(s, i)[k].len() ==> !whitespace(words_from(s, i)[k][x]),
    decreases s.len() - i,
{
    lemma_skip_space(s, i);
    let b = skip_space(s, i);
    lemma_word_end(s, b);
    if k > 0 {
        lemma_words_from_clean(s, word_end(s, b), k - 1);
    }
}

/// No word of a text is empty or holds whitespace.
pub proof fn words_are_clean(s: Seq<char>, k: int)
    requires
        0 <= k < split_words(s).len(),
    ensures
        split_words(s)[k].len() > 0,
        forall|x: int| 0 <= x < split_words(s)[k].len() ==> !whitespace(split_words(s)[k][x]),
{
    lemma_words_from_clean(s, 0, k);
}

/// A text without the whitespace at its two ends.
pub open spec fn trimmed(s: Seq<char>) -> Seq<char> {
    let b = skip_space(s, 0);
    let e = back_space(s, s.len() as int);
    if b < e {
        s.subrange(b, e)
    } else {
        Seq::empty()
    }
}

/// Removes the whitespace at the two ends of a text.
pub fn trim_chars(s: &[char]) -> (r: Vec<char>)
    ensures
        r@ == trimmed(s@),
{
    let n: usize = s.len();
    let mut b: usize = 0;
    while b < n && s[b].is_whitespace()
        invariant
            b <= n,
            n == s.len(),
            skip_space(s@, 0) == skip_space(s@, b as int),
        decreases n - b,
    {
        b += 1;
    }
    let mut e: usize = n;
    while e > 0 && s[e - 1].is_whitespace()
        invariant
            e <= n,
            n == s.len(),
            back_space(s@, n as int) == back_space(s@, e as int),
        decreases e,
    {
        e -= 1;
    }
    if b < e {
        vstd::slice::slice_to_vec(&s[b..e])
    } else {
        Vec::new()
    }
}

/// The texts one after another, with `sep` between each two.
pub open spec fn joined(ws: Seq<Seq<char>>, sep: Seq<char>) -> Seq<char>
    decreases ws.len(),
{
    if ws.len() == 0 {
        Seq::empty()
    } else {
        let head = joined(ws.drop_last(), sep);
        (if ws.len() > 1 {
            head + sep
        } else {
            head
        }) + ws.last()
    }
}

/// The texts one after another, with one space between each two.
pub open spec fn spaced(ws: Seq<Seq<char>>) -> Seq<char> {
    joined(ws, seq![' '])
}

/// Joins strings with `sep` between each two.
pub fn join_with(ws: &[String], sep: &str) -> (r: String)
    ensures
        r@ == joined(texts(ws@), sep@),
{
    let mut out = String::new();
    let mut i: usize = 0;
    while i < ws.len()
        invariant
            i <= ws.len(),
            out@ == joined(texts(ws@).take(i as int), sep@),
        decreases ws.len() - i,
    {
        proof {
            let next = texts(ws@).take(i + 1);
            assert(next.drop_last() =~= texts(ws@).take(i as int));
            assert(next.last() == ws@[i as int]@);
            if i == 0 {
                assert(out@ =~= Seq::<char>::empty());
            }
        }
        if i > 0 {
            out.append(sep);
        }
        out.append(ws[i].as_str());
        i += 1;
    }
    assert(texts(ws@).take(ws@.len() as int) =~= texts(ws@));
    out
}

/// Joins strings with one space between each two.
pub fn join_spaced(ws: &[String]) -> (r: String)
    ensures
        r@ == spaced(texts(ws@)),
{
    proof {
        reveal_strlit(" ");
        assert(" "@ =~= seq![' ']);
    }
    join_with(ws, " ")
}

/// Whether a text ends with `suf`.
pub open spec fn has_suffix(s: Seq<char>, suf: Seq<char>) -> bool {
    suf.len() <= s.len() && s.skip(s.len() - suf.len()) == suf
}

/// Whether a text ends with `suf`.
pub fn ends_with(s: &[char], suf: &str) -> (r: bool)
    ensures
        r == has_suffix(s@, suf@),
{
    let p = chars_of(suf);
    if p.len() > s.len() {
        return false;
    }
    let off: usize = s.len() - p.len();
    assert(s@.skip(off as int) =~= s@.subrange(off as int, s@.len() as int));
    same_chars(&s[off..s.len()], p.as_slice())
}

/// Whether a text ends with one of the suffixes.
pub open spec fn has_any_suffix(s: Seq<char>, sufs: Seq<&str>) -> bool {
    exists|k: int| 0 <= k < sufs.len() && has_suffix(s, (#[trigger] sufs[k])@)
}

/// Whether a text ends with one of the suffixes.
pub fn ends_with_any(s: &[char], sufs: &[&str]) -> (r: bool)
    ensures
        r == has_any_suffix(s@, sufs@),
{
    let mut k: usize = 0;
    while k < sufs.len()
        invariant
            k <= sufs.len(),
            forall|x: int| 0 <= x < k ==> !has_suffix(s@, (#[trigger] sufs@[x])@),
        decreases sufs.len() - k,
    {
        if ends_with(s, sufs[k]) {
            return true;
        }
        k += 1;
    }
    false
}

/// Whether a text begins with `pre`.
pub open spec fn has_prefix(s: Seq<char>, pre: Seq<char>) -> bool {
    pre.len() <= s.len() && s.take(pre.len() as int) == pre
}

/// Whether a text starts with `pre`.
pub fn starts_with(s: &[char], pre: &str) -> (r: bool)
    ensures
        r == has_prefix(s@, pre@),
{
    let p = chars_of(pre);
    assert(p@.len() <= s@.len() ==> s@.subrange(0, p@.len() as int) =~= s@.take(p@.len() as int));
    found_at(s, p.as_slice(), 0)
}

/// Whether `p` stands in `s` at position `i`.
pub open spec fn stands_at(s: Seq<char>, p: Seq<char>, i: int) -> bool {
    0 <= i && i + p.len() <= s.len() && s.subrange(i, i + p.len()) == p
}

/// Whether `p` stands in `s` at position `i`.
pub fn found_at(s: &[char], p: &[char], i: usize) -> (r: bool)
    ensures
        r == stands_at(s@, p@, i as int),
{
    if p.len() > s.len() || i > s.len() - p.len() {
        return false;
    }
    same_chars(&s[i..i + p.len()], p)
}

/// The first position from `i` on at which `p` stands in `s`.
pub open spec fn find_from(s: Seq<char>, p: Seq<char>, i: int) -> Option<int>
    decreases s.len() - i,
{
    if stands_at(s, p, i) {
        Some(i)
    } else if 0 <= i < s.len() {
        find_from(s, p, i + 1)
    } else {
        None
    }
}

/// Finds the first place at which `p` stands in `s`.
pub fn find_chars(s: &[char], p: &[char]) -> (r: Option<usize>)
    ensures
        match r {
            Some(i) => find_from(s@, p@, 0) == Some(i as int) && stands_at(s@, p@, i as int),
            None => find_from(s@, p@, 0) is None,
        },
{
    let mut i: usize = 0;
    loop
        invariant
            i <= s.len(),
            find_from(s@, p@, 0) == find_from(s@, p@, i as int),
        decreases s.len() - i,
    {
        if found_at(s, p, i) {
            return Some(i);
        }
        if i == s.len() {
            return None;
        }
        i += 1;
    }
}

/// The text from position `i` on with each `from`, read from the left without overlap,
/// replaced by `to`.
pub open spec fn replaced_from(s: Seq<char>, from: Seq<char>, to: Seq<char>, i: int) -> Seq<char>
    decreases s.len() - i,
{
    if i < 0 || i >= s.len() {
        Seq::empty()
    } else if from.len() > 0 && stands_at(s, from, i) {
        to + replaced_from(s, from, to, i + from.len())
    } else {
        seq![s[i]] + replaced_from(s, from, to, i + 1)
    }
}

/// Replaces each `from` in a text, read from the left without overlap, by `to`.
pub fn replace_chars(s: &[char], from: &[char], to: &[char]) -> (r: Vec<char>)
    requires
        from@.len() > 0,
    ensures
        r@ == replaced_from(s@, from@, to@, 0),
{
    let mut out: Vec<char> = Vec::new();
    let mut i: usize = 0;
    assert(out@ + replaced_from(s@, from@, to@, 0) =~= replaced_from(s@, from@, to@, 0));
    while i < s.len()
        invariant
            i <= s.len(),
            from@.len() > 0,
            out@ + replaced_from(s@, from@, to@, i as int) == replaced_from(s@, from@, to@, 0),
        decreases s.len() - i,
    {
        let ghost before = out@;
        let ghost rest = replaced_from(s@, from@, to@, i as int);
        if found_at(s, from, i) {
            let mut add = vstd::slice::slice_to_vec(to);
            out.append(&mut add);
            i += from.len();
            assert(out@ + replaced_from(s@, from@, to@, i as int) =~= before + rest);
        } else {
            out.push(s[i]);
            i += 1;
            assert(out@ + replaced_from(s@, from@, to@, i as int) =~= before + rest);
        }
    }
    assert(out@ + Seq::<char>::empty() =~= out@);
    out
}

/// The decimal digit for a number below ten.
pub open spec fn digit_char(d: nat) -> char {
    if d == 0 {
        '0'
    } else if d == 1 {
        '1'
    } else if d == 2 {
        '2'
    } else if d == 3 {
        '3'
    } else if d == 4 {
        '4'
    } else if d == 5 {
        '5'
    } else if d == 6 {
        '6'
    } else if d == 7 {
        '7'
    } else if d == 8 {
        '8'
    } else {
        '9'
    }
}

/// The decimal notation of a number.
pub open spec fn decimal(n: nat) -> Seq<char>
    decreases n,
{
    if n < 10 {
        seq![digit_char(n)]
    } else {
        decimal(n / 10).push(digit_char(n % 10))
    }
}

/// Appends the decimal notation of a number.
pub fn push_decimal(out: &mut String, n: usize)
    ensures
        final(out)@ == old(out)@ + decimal(n as nat),
    decreases n,
{
    if n >= 10 {
        push_decimal(out, n / 10);
    }
    let d: usize = n % 10;
    let c: char = if d == 0 {
        '0'
    } else if d == 1 {
        '1'
    } else if d == 2 {
        '2'
    } else if d == 3 {
        '3'
    } else if d == 4 {
        '4'
    } else if d == 5 {
        '5'
    } else if d == 6 {
        '6'
    } else if d == 7 {
        '7'
    } else if d == 8 {
        '8'
    } else {
        '9'
    };
    out.push(c);
    assert(out@ =~= old(out)@ + decimal(n as nat));
}

/// The decimal notation of a number.
pub fn decimal_of(n: usize) -> (r: String)
    ensures
        r@ == decimal(n as nat),
{
    let mut out = String::new();
    push_decimal(&mut out, n);
    assert(Seq::<char>::empty() + decimal(n as nat) =~= decimal(n as nat));
    out
}

/// The number that a run of decimal digits denotes.
pub open spec fn digits_value(s: Seq<char>) -> nat
    decreases s.len(),
{
    if s.len() == 0 {
        0
    } else {
        digits_value(s.drop_last()) * 10 + (s.last() as nat - '0' as nat) as nat
    }
}

/// A text without a leading plus sign.
pub open spec fn after_plus(s: Seq<char>) -> Seq<char> {
    if s.len() > 0 && s[0] == '+' {
        s.skip(1)
    } else {
        s
    }
}

/// Whether a text consists of decimal digits.
pub open spec fn all_digits(s: Seq<char>) -> bool {
    forall|i: int| 0 <= i < s.len() ==> is_digit(#[trigger] s[i])
}

/// The number that a text denotes: decimal digits, at least one, after an optional plus sign.
pub open spec fn number_in(s: Seq<char>) -> Option<nat> {
    let ds = after_plus(s);
    if ds.len() > 0 && all_digits(ds) {
        Some(digits_value(ds))
    } else {
        None
    }
}

proof fn lemma_digits_value_monotone(s: Seq<char>, k: int)
    requires
        0 <= k <= s.len(),
        all_digits(s),
    ensures
        digits_value(s.take(k)) <= digits_value(s),
    decreases s.len(),
{
    if k == s.len() {
        assert(s.take(k) =~= s);
    } else {
        assert(s.drop_last().take(k) =~= s.take(k));
        lemma_digits_value_monotone(s.drop_last(), k);
        assert(is_digit(s[s.len() - 1]));
    }
}

/// Reads a number as `number_in` says; a number too large for the machine is refused.
pub fn parse_number(s: &[char]) -> (r: Option<usize>)
    ensures
        match r {
            Some(n) => number_in(s@) == Some(n as nat),
            None => number_in(s@) is None || number_in(s@)->0 > usize::MAX,
        },
{
    let start: usize = if s.len() > 0 && s[0] == '+' {
        1
    } else {
        0
    };
    let ghost ds = after_plus(s@);
    if s.len() == start {
        return None;
    }
    let mut n: usize = 0;
    let mut i: usize = start;
    assert(ds.take(0) =~= Seq::<char>::empty());
    while i < s.len()
        invariant
            start <= i <= s.len(),
            start == 0 || start == 1,
            ds == after_plus(s@),
            (start == 1) == (s@.len() > 0 && s@[0] == '+'),
            ds.len() > 0,
            n == digits_value(ds.take(i - start)),
            forall|x: int| 0 <= x < i - start ==> is_digit(#[trigger] ds[x]),
        decreases s.len() - i,
    {
        let c = s[i];
        let ghost k = i - start;
        assert(ds[k] == c);
        if c < '0' || c > '9' {
            assert(!is_digit(ds[k]));
            return None;
        }
        let d: usize = (c as u32 - '0' as u32) as usize;
        proof {
            assert(ds.take(k + 1).drop_last() =~= ds.take(k));
            assert(ds.take(k + 1).last() == c);
        }
        let scaled = match n.checked_mul(10) {
            Some(v) => v,
            None => {
                proof {
                    if all_digits(ds) {
                        lemma_digits_value_monotone(ds, k + 1);
                    }
                }
                return None;
            },
        };
        n = match scaled.checked_add(d) {
            Some(v) => v,
            None => {
                proof {
                    if all_digits(ds) {
                        lemma_digits_value_monotone(ds, k + 1);
                    }
                }
                return None;
            },
        };
        i += 1;
    }
    assert(ds.take(ds.len() as int) =~= ds);
    Some(n)
}

/// Decimal notation consists of digits that have the value of the number.
pub proof fn lemma_decimal_digits(n: nat)
    ensures
        decimal(n).len() > 0,
        all_digits(decimal(n)),
        digits_value(decimal(n)) == n,
    decreases n,
{
    let s = decimal(n);
    if n < 10 {
        assert(s.drop_last() =~= Seq::<char>::empty());
        assert(digits_value(Seq::<char>::empty()) == 0);
    } else {
        lemma_decimal_digits(n / 10);
        assert(s.drop_last() =~= decimal(n / 10));
    }
}

/// A number written in decimal reads back as the same number.
pub proof fn decimal_reads_back(n: nat)
    ensures
        number_in(decimal(n)) == Some(n),
{
    lemma_decimal_digits(n);
    assert(is_digit(decimal(n)[0]));
}

/// Whether a text is white space alone.
pub open spec fn all_space(s: Seq<char>) -> bool {
    forall|i: int| 0 <= i < s.len() ==> whitespace(#[trigger] s[i])
}

pub proof fn lemma_trimmed_between(s: Seq<char>, b: int, e: int)
    requires
        0 <= b < e <= s.len(),
        !whitespace(s[b]),
        !whitespace(s[e - 1]),
        forall|i: int| 0 <= i < b || e <= i < s.len() ==> whitespace(#[trigger] s[i]),
    ensures
        trimmed(s) == s.subrange(b, e),
{
    lemma_skip_space(s, 0);
    lemma_back_space(s, s.len() as int);
    let x = skip_space(s, 0);
    let y = back_space(s, s.len() as int);
    assert(x == b);
    assert(y == e);
}

pub proof fn lemma_trimmed_space(s: Seq<char>)
    requires
        all_space(s),
    ensures
        trimmed(s) == Seq::<char>::empty(),
{
    lemma_skip_space(s, 0);
    lemma_back_space(s, s.len() as int);
}

/// White space around a text makes no difference to the trimmed text.
pub proof fn space_around_is_trimmed(before: Seq<char>, s: Seq<char>, after: Seq<char>)
    requires
        all_space(before),
        all_space(after),
    ensures
        trimmed(before + s + after) == trimmed(s),
{
    let all = before + s + after;
    lemma_skip_space(s, 0);
    lemma_back_space(s, s.len() as int);
    let b = skip_space(s, 0);
    let e = back_space(s, s.len() as int);
    if b < s.len() {
        assert(e > b) by {
            if e <= b {
                assert(whitespace(s[b]));
            }
        }
        let n = before.len() as int;
        assert(all[n + b] == s[b]);
        assert(all[n + e - 1] == s[e - 1]);
        assert forall|i: int| 0 <= i < n + b || n + e <= i < all.len() implies whitespace(
            #[trigger] all[i],
        ) by {
            if i < n {
                assert(all[i] == before[i]);
            } else if i < n + s.len() {
                assert(all[i] == s[i - n]);
            } else {
                assert(all[i] == after[i - n - s.len()]);
            }
        }
        lemma_trimmed_between(all, n + b, n + e);
        assert(all.subrange(n + b, n + e) =~= s.subrange(b, e));
    } else {
        assert forall|i: int| 0 <= i < all.len() implies whitespace(#[trigger] all[i]) by {
            if i < before.len() {
                assert(all[i] == before[i]);
            } else if i < before.len() + s.len() {
                assert(all[i] == s[i - before.len()]);
            } else {
                assert(all[i] == after[i - before.len() - s.len()]);
            }
        }
        lemma_trimmed_space(all);
        lemma_trimmed_space(s);
    }
}

/// The letters of two texts are those of the one and then those of the other.
pub proof fn lemma_letters_of_sum(a: Seq<char>, b: Seq<char>)
    ensures
        letters(a + b) == letters(a) + letters(b),
    decreases b.len(),
{
    if b.len() == 0 {
        assert(a + b =~= a);
        assert(letters(a) + letters(b) =~= letters(a));
    } else {
        assert((a + b).drop_last() =~= a + b.drop_last());
        lemma_letters_of_sum(a, b.drop_last());
        assert(letters(a + b) =~= letters(a) + letters(b));
    }
}

/// A text without letters.
pub proof fn lemma_no_letters(s: Seq<char>)
    requires
        forall|i: int| 0 <= i < s.len() ==> !alphabetic(#[trigger] s[i]),
    ensures
        letters(s) == Seq::<char>::empty(),
    decreases s.len(),
{
    if s.len() > 0 {
        assert(!alphabetic(s[s.len() - 1]));
        lemma_no_letters(s.drop_last());
    }
}

/// A text of letters alone.
pub proof fn lemma_all_letters(s: Seq<char>)
    requires
        forall|i: int| 0 <= i < s.len() ==> alphabetic(#[trigger] s[i]),
    ensures
        letters(s) == s,
    decreases s.len(),
{
    if s.len() > 0 {
        assert(alphabetic(s[s.len() - 1]));
        lemma_all_letters(s.drop_last());
        assert(letters(s) =~= s);
    }
}

} // verus!

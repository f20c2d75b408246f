//! Words in their context: punctuation around them, initials, abbreviations, proper nouns.

use crate::chars::{alphabetic, lowered, numeric, raise, raised, uppercase};
use crate::dictionary::Dictionary;
use crate::morphology::looks_like_surname;
use crate::text::{
    chars_of, ends_with_any, has_any_suffix, lemma_no_letters, letters, letters_of, lower_chars,
    text_of, texts,
};
use vstd::prelude::*;

verus! {

/// Whether a character can belong to a word: a letter, a number, or a mark that a
/// misread letter often turns into.
pub open spec fn inner(c: char) -> bool {
    alphabetic(c) || numeric(c) || c == ';' || c == ':' || c == '|' || c == '!' || c == '\\' || c
        == '/' || c == '*'
}

/// Whether a character can belong to a word.
pub fn is_word_inner(c: char) -> (r: bool)
    ensures
        r == inner(c),
{
    c.is_alphabetic() || c.is_numeric() || c == ';' || c == ':' || c == '|' || c == '!' || c == '\\'
        || c == '/' || c == '*'
}

/// Whether a character is a punctuation mark that ends a word for certain.
pub open spec fn outer_punct(c: char) -> bool {
    c == '.' || c == ',' || c == '?' || c == '"' || c == '\'' || c == '«' || c == '»' || c == '('
        || c == ')' || c == '[' || c == ']' || c == '{' || c == '}' || c == '—' || c == '–'
}

/// Whether a character is a punctuation mark that ends a word for certain.
pub fn is_outer_punct(c: char) -> (r: bool)
    ensures
        r == outer_punct(c),
{
    c == '.' || c == ',' || c == '?' || c == '"' || c == '\'' || c == '«' || c == '»' || c == '('
        || c == ')' || c == '[' || c == ']' || c == '{' || c == '}' || c == '—' || c == '–'
}

/// The first position from `i` on that holds a word character, or the end.
pub open spec fn first_inner(w: Seq<char>, i: int) -> int
    decreases w.len() - i,
{
    if 0 <= i < w.len() && !inner(w[i]) {
        first_inner(w, i + 1)
    } else {
        i
    }
}

/// The position after the last word character before `e`, or the start.
pub open spec fn last_inner(w: Seq<char>, e: int) -> int
    decreases e,
{
    if 0 < e <= w.len() && !inner(w[e - 1]) {
        last_inner(w, e - 1)
    } else {
        e
    }
}

pub proof fn lemma_first_inner(w: Seq<char>, i: int)
    requires
        0 <= i <= w.len(),
    ensures
        i <= first_inner(w, i) <= w.len(),
        first_inner(w, i) < w.len() ==> inner(w[first_inner(w, i)]),
        forall|x: int| i <= x < first_inner(w, i) ==> !inner(w[x]),
    decreases w.len() - i,
{
    if i < w.len() && !inner(w[i]) {
        lemma_first_inner(w, i + 1);
    }
}

pub proof fn lemma_last_inner(w: Seq<char>, e: int)
    requires
        0 <= e <= w.len(),
    ensures
        0 <= last_inner(w, e) <= e,
        last_inner(w, e) > 0 ==> inner(w[last_inner(w, e) - 1]),
        forall|x: int| last_inner(w, e) <= x < e ==> !inner(w[x]),
    decreases e,
{
    if e > 0 && !inner(w[e - 1]) {
        lemma_last_inner(w, e - 1);
    }
}

/// The characters before the first word character.
pub open spec fn punct_before(w: Seq<char>) -> Seq<char> {
    w.take(first_inner(w, 0))
}

/// The characters after the last word character.
pub open spec fn punct_after(w: Seq<char>) -> Seq<char> {
    w.skip(last_inner(w, w.len() as int))
}

/// The characters before the first word character.
pub fn leading_punct(w: &[char]) -> (r: String)
    ensures
        r@ == punct_before(w@),
{
    let n: usize = w.len();
    let mut i: usize = 0;
    while i < n && !is_word_inner(w[i])
        invariant
            i <= n,
            n == w.len(),
            first_inner(w@, 0) == first_inner(w@, i as int),
        decreases n - i,
    {
        i += 1;
    }
    assert(w@.take(i as int) =~= w@.subrange(0, i as int));
    text_of(&w[0..i])
}

/// The characters after the last word character.
pub fn trailing_punct(w: &[char]) -> (r: String)
    ensures
        r@ == punct_after(w@),
{
    let n: usize = w.len();
    let mut e: usize = n;
    while e > 0 && !is_word_inner(w[e - 1])
        invariant
            e <= n,
            n == w.len(),
            last_inner(w@, n as int) == last_inner(w@, e as int),
        decreases e,
    {
        e -= 1;
    }
    assert(w@.skip(e as int) =~= w@.subrange(e as int, n as int));
    text_of(&w[e..n])
}

/// The word characters of a text, in order.
pub open spec fn inner_chars(s: Seq<char>) -> Seq<char>
    decreases s.len(),
{
    if s.len() == 0 {
        Seq::empty()
    } else if inner(s.last()) {
        inner_chars(s.drop_last()).push(s.last())
    } else {
        inner_chars(s.drop_last())
    }
}

/// Keeps the word characters of a text.
pub fn inner_chars_of(s: &[char]) -> (r: Vec<char>)
    ensures
        r@ == inner_chars(s@),
{
    let mut out: Vec<char> = Vec::new();
    let mut i: usize = 0;
    while i < s.len()
        invariant
            i <= s.len(),
            out@ == inner_chars(s@.take(i as int)),
        decreases s.len() - i,
    {
        assert(s@.take(i + 1).drop_last() == s@.take(i as int));
        if is_word_inner(s[i]) {
            out.push(s[i]);
        }
        i += 1;
    }
    assert(s@.take(s@.len() as int) == s@);
    out
}

/// A word with punctuation around it is that punctuation and what stands between.
pub proof fn word_has_three_parts(w: Seq<char>)
    requires
        exists|i: int| 0 <= i < w.len() && inner(#[trigger] w[i]),
    ensures
        first_inner(w, 0) < last_inner(w, w.len() as int),
        w == punct_before(w) + w.subrange(first_inner(w, 0), last_inner(w, w.len() as int))
            + punct_after(w),
{
    let i = choose|i: int| 0 <= i < w.len() && inner(#[trigger] w[i]);
    lemma_first_inner(w, 0);
    lemma_last_inner(w, w.len() as int);
    assert(w =~= punct_before(w) + w.subrange(first_inner(w, 0), last_inner(w, w.len() as int))
        + punct_after(w));
}

/// Whether a word is an initial: one letter, in upper case, with a full stop.
pub open spec fn initials(w: Seq<char>) -> bool {
    w.contains('.') && letters(w).len() == 1 && uppercase(letters(w)[0])
}

/// Whether a text holds a character.
pub fn has_char(s: &[char], c: char) -> (r: bool)
    ensures
        r == s@.contains(c),
{
    let mut i: usize = 0;
    while i < s.len()
        invariant
            i <= s.len(),
            forall|x: int| 0 <= x < i ==> s@[x] != c,
        decreases s.len() - i,
    {
        if s[i] == c {
            assert(s@[i as int] == c);
            return true;
        }
        i += 1;
    }
    false
}

/// Whether a word is an initial.
pub fn is_initials(word: &str) -> (r: bool)
    ensures
        r == initials(word@),
{
    let cs = chars_of(word);
    let ls = letters_of(cs.as_slice());
    has_char(cs.as_slice(), '.') && ls.len() == 1 && ls[0].is_uppercase()
}

/// The abbreviations after which a name follows.
pub open spec fn abbreviations() -> Seq<&'static str> {
    seq!["г.", "ул.", "с.", "д.", "пр.", "пер.", "обл.", "губ.", "у."]
}

/// Whether a word is, or ends in, an abbreviation after which a name follows.
pub open spec fn abbreviated(w: Seq<char>) -> bool {
    has_any_suffix(lowered(w), abbreviations())
}

/// Whether a word is, or ends in, an abbreviation after which a name follows.
pub fn is_abbreviation(word: &str) -> (r: bool)
    ensures
        r == abbreviated(word@),
{
    let low = lower_chars(chars_of(word).as_slice());
    let list: [&str; 9] = ["г.", "ул.", "с.", "д.", "пр.", "пер.", "обл.", "губ.", "у."];
    assert(list@ =~= abbreviations());
    ends_with_any(low.as_slice(), list.as_slice())
}

/// Whether an initial stands directly before or after the word at position `i`.
pub open spec fn beside_initials(words: Seq<Seq<char>>, i: int) -> bool {
    (0 <= i + 1 < words.len() && initials(words[i + 1])) || (1 <= i <= words.len() && initials(
        words[i - 1],
    ))
}

/// Whether the word at position `i` stands beside an initial.
pub fn is_surname_in_context(words: &[String], i: usize) -> (r: bool)
    requires
        i <= words@.len(),
    ensures
        r == beside_initials(texts(words@), i as int),
{
    if i < words.len() && words.len() - i > 1 && is_initials(words[i + 1].as_str()) {
        return true;
    }
    i >= 1 && is_initials(words[i - 1].as_str())
}

/// A word and what its surroundings say of it.
#[derive(Debug)]
pub struct WordContext {
    /// The word characters in lower case.
    pub clean: String,
    /// The word characters as they were written.
    pub original_case: String,
    /// What stands before the first word character.
    pub prefix_punct: String,
    /// What stands after the last word character.
    pub suffix_punct: String,
    pub is_sentence_start: bool,
    pub is_after_abbrev: bool,
    pub next_word_is_initials: bool,
    pub prev_word_is_initials: bool,
}

/// The mathematical content of a `WordContext`.
#[verifier::ext_equal]
pub struct ContextView {
    pub clean: Seq<char>,
    pub original_case: Seq<char>,
    pub prefix_punct: Seq<char>,
    pub suffix_punct: Seq<char>,
    pub is_sentence_start: bool,
    pub is_after_abbrev: bool,
    pub next_word_is_initials: bool,
    pub prev_word_is_initials: bool,
}

impl View for WordContext {
    type V = ContextView;

    open spec fn view(&self) -> ContextView {
        ContextView {
            clean: self.clean@,
            original_case: self.original_case@,
            prefix_punct: self.prefix_punct@,
            suffix_punct: self.suffix_punct@,
            is_sentence_start: self.is_sentence_start,
            is_after_abbrev: self.is_after_abbrev,
            next_word_is_initials: self.next_word_is_initials,
            prev_word_is_initials: self.prev_word_is_initials,
        }
    }
}

/// Whether the punctuation after a word ends a sentence.
pub open spec fn ends_sentence(w: Seq<char>) -> bool {
    punct_after(w).contains('.') || punct_after(w).contains('!') || punct_after(w).contains('?')
}

/// The context of the word at position `i`.
pub open spec fn context_at(words: Seq<Seq<char>>, i: int) -> ContextView {
    let w = words[i];
    ContextView {
        clean: lowered(inner_chars(w)),
        original_case: inner_chars(w),
        prefix_punct: punct_before(w),
        suffix_punct: punct_after(w),
        is_sentence_start: i == 0 || ends_sentence(words[i - 1]),
        is_after_abbrev: i > 0 && abbreviated(words[i - 1]),
        next_word_is_initials: i + 1 < words.len() && initials(words[i + 1]),
        prev_word_is_initials: i > 0 && initials(words[i - 1]),
    }
}

/// The contexts of a list of words.
pub open spec fn contexts_of(words: Seq<Seq<char>>) -> Seq<ContextView> {
    Seq::new(words.len(), |i: int| context_at(words, i))
}

/// The contents of a list of contexts.
pub open spec fn context_views(cs: Seq<WordContext>) -> Seq<ContextView> {
    Seq::new(cs.len(), |i: int| cs[i]@)
}

/// The context of every word, in order.
pub fn build_word_contexts(words: &[String]) -> (r: Vec<WordContext>)
    ensures
        context_views(r@) == contexts_of(texts(words@)),
{
    let mut out: Vec<WordContext> = Vec::new();
    let mut prev_ends_sentence = true;
    let ghost ws = texts(words@);
    let mut i: usize = 0;
    while i < words.len()
        invariant
            i <= words.len(),
            ws == texts(words@),
            prev_ends_sentence == (i == 0 || ends_sentence(ws[i - 1])),
            context_views(out@) == contexts_of(ws).take(i as int),
        decreases words.len() - i,
    {
        let w = chars_of(words[i].as_str());
        let prefix_punct = leading_punct(w.as_slice());
        let suffix_punct = trailing_punct(w.as_slice());
        let kept = inner_chars_of(w.as_slice());
        let clean = text_of(lower_chars(kept.as_slice()).as_slice());
        let original_case = text_of(kept.as_slice());
        let tail = chars_of(suffix_punct.as_str());
        let ends = has_char(tail.as_slice(), '.') || has_char(tail.as_slice(), '!') || has_char(
            tail.as_slice(),
            '?',
        );
        let is_after_abbrev = i > 0 && is_abbreviation(words[i - 1].as_str());
        let next_word_is_initials = words.len() - i > 1 && is_initials(words[i + 1].as_str());
        let prev_word_is_initials = i > 0 && is_initials(words[i - 1].as_str());
        let ctx = WordContext {
            clean,
            original_case,
            prefix_punct,
            suffix_punct,
            is_sentence_start: prev_ends_sentence,
            is_after_abbrev,
            next_word_is_initials,
            prev_word_is_initials,
        };
        assert(ctx@ == context_at(ws, i as int));
        let ghost done = context_views(out@);
        out.push(ctx);
        proof {
            assert(context_views(out@) =~= done.push(context_at(ws, i as int)));
            assert(contexts_of(ws).take(i + 1) =~= done.push(context_at(ws, i as int)));
        }
        prev_ends_sentence = ends;
        i += 1;
    }
    assert(contexts_of(ws).take(ws.len() as int) =~= contexts_of(ws));
    out
}

/// Whether a word is taken for a proper noun: at least two word characters, the first
/// in upper case, and at the start of a sentence only with an initial after it.
pub open spec fn proper_noun(ctx: ContextView) -> bool {
    ctx.original_case.len() >= 2 && uppercase(ctx.original_case[0]) && (ctx.is_sentence_start
        ==> ctx.next_word_is_initials)
}

/// Whether the word at position `i` is taken for a proper noun.
pub fn is_proper_noun(ctx: &WordContext, words: &[String], i: usize) -> (r: bool)
    requires
        i <= words@.len(),
    ensures
        r == proper_noun(ctx@),
{
    let cs = chars_of(ctx.original_case.as_str());
    if cs.len() < 2 {
        return false;
    }
    if !cs[0].is_uppercase() {
        return false;
    }
    if ctx.is_sentence_start {
        return ctx.next_word_is_initials;
    }
    if ctx.next_word_is_initials || ctx.prev_word_is_initials {
        return true;
    }
    if ctx.is_after_abbrev {
        return true;
    }
    if is_surname_in_context(words, i) || looks_like_surname(ctx.clean.as_str()) {
        return true;
    }
    true
}

/// Which words are to be corrected.
#[derive(Clone, Copy, Debug)]
pub struct NounPolicy {
    /// Correct proper nouns as well.
    pub fix_proper_nouns: bool,
    /// Correct proper nouns and nothing else.
    pub only_proper_nouns: bool,
}

/// Whether the policy lets a word be corrected that is, or is not, a proper noun.
pub open spec fn policy_admits(p: NounPolicy, proper: bool) -> bool {
    if proper {
        p.only_proper_nouns || p.fix_proper_nouns
    } else {
        !p.only_proper_nouns
    }
}

/// Whether a word is to be corrected: it is unknown and the policy admits it.
pub fn word_is_correctable(
    ctx: &WordContext,
    words: &[String],
    i: usize,
    dict: &Dictionary,
    policy: NounPolicy,
) -> (r: bool)
    requires
        i <= words@.len(),
    ensures
        r == (!dict@.knows(ctx.clean@) && policy_admits(policy, proper_noun(ctx@))),
{
    if dict.contains(ctx.clean.as_str()) {
        return false;
    }
    let proper = is_proper_noun(ctx, words, i);
    if proper {
        if policy.only_proper_nouns {
            return true;
        }
        if !policy.fix_proper_nouns {
            return false;
        }
    } else if policy.only_proper_nouns {
        return false;
    }
    true
}

/// The character at position `i` of a corrected word, with the case of the original.
pub open spec fn cased_char(original: Seq<char>, corrected: Seq<char>, i: int) -> char {
    let c = if i < original.len() && uppercase(original[i]) {
        raised(corrected[i])
    } else {
        corrected[i]
    };
    if i == 0 && original.len() > 0 && uppercase(original[0]) {
        raised(c)
    } else {
        c
    }
}

/// A corrected word with the case of the original, position by position.
pub open spec fn recased(original: Seq<char>, corrected: Seq<char>) -> Seq<char> {
    Seq::new(corrected.len(), |i: int| cased_char(original, corrected, i))
}

/// Gives a corrected word the case of the original, position by position.
pub fn restore_case(original: &str, corrected_lower: &str) -> (r: String)
    ensures
        r@ == recased(original@, corrected_lower@),
{
    let orig = chars_of(original);
    let corr = chars_of(corrected_lower);
    let mut out = String::new();
    let mut i: usize = 0;
    while i < corr.len()
        invariant
            i <= corr.len(),
            orig@ == original@,
            corr@ == corrected_lower@,
            out@ == recased(orig@, corr@).take(i as int),
        decreases corr.len() - i,
    {
        let mut c = corr[i];
        if i < orig.len() && orig[i].is_uppercase() {
            c = raise(c);
        }
        if i == 0 && orig.len() > 0 && orig[0].is_uppercase() {
            c = raise(c);
        }
        out.push(c);
        assert(recased(orig@, corr@).take(i + 1) =~= recased(orig@, corr@).take(i as int).push(c));
        i += 1;
    }
    assert(recased(orig@, corr@).take(corr@.len() as int) =~= recased(orig@, corr@));
    out
}

/// A correction keeps its length and every character at which the original is not in
/// upper case.
pub proof fn recasing_keeps_lower_letters(original: Seq<char>, corrected: Seq<char>, i: int)
    requires
        0 <= i < corrected.len(),
        i < original.len() ==> !uppercase(original[i]),
    ensures
        recased(original, corrected).len() == corrected.len(),
        recased(original, corrected)[i] == corrected[i],
{
}

/// No character is both outer punctuation and part of a word.
pub proof fn outer_punct_is_not_inner(c: char)
    ensures
        outer_punct(c) ==> !inner(c),
{
    reveal(alphabetic);
    reveal(numeric);
}

/// The punctuation around a word holds no letters.
pub proof fn lemma_punct_has_no_letters(w: Seq<char>)
    ensures
        letters(punct_before(w)) == Seq::<char>::empty(),
        letters(punct_after(w)) == Seq::<char>::empty(),
{
    lemma_first_inner(w, 0);
    lemma_last_inner(w, w.len() as int);
    let a = punct_before(w);
    let b = punct_after(w);
    assert forall|i: int| 0 <= i < a.len() implies !alphabetic(#[trigger] a[i]) by {
        assert(a[i] == w[i]);
        assert(!inner(w[i]));
    }
    assert forall|i: int| 0 <= i < b.len() implies !alphabetic(#[trigger] b[i]) by {
        let e = last_inner(w, w.len() as int);
        assert(b[i] == w[e + i]);
        assert(!inner(w[e + i]));
    }
    lemma_no_letters(a);
    lemma_no_letters(b);
}

} // verus!

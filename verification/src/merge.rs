//! Joining words that were torn apart, the longest run first.

use crate::chars::{
    alphabetic, lowered, raise, raised, russian, small_russian, uppercase, uppercased,
};
use crate::dictionary::{DictView, Dictionary};
use crate::diffs::{diff_views, AlignDiff, DiffView};
use crate::text::{
    chars_of, join_spaced, lemma_all_letters, lemma_letters_of_sum, letters, letters_of,
    lower_chars, spaced, text_of, texts,
};
use crate::words::{
    leading_punct, lemma_punct_has_no_letters, punct_after, punct_before, trailing_punct,
};
use vstd::prelude::*;

verus! {

/// A change that was made to the text.
///
/// `rank` stands for the score of the change: a whole number that grows with the
/// score, so that comparing ranks is comparing scores.
#[derive(Debug)]
pub struct Correction {
    pub original: String,
    pub corrected: String,
    pub diffs: Vec<AlignDiff>,
    pub context: String,
    pub rank: i64,
    pub reason: String,
    pub is_merge: bool,
}

/// The mathematical content of a `Correction`.
#[verifier::ext_equal]
pub struct CorrectionView {
    pub original: Seq<char>,
    pub corrected: Seq<char>,
    pub diffs: Seq<DiffView>,
    pub context: Seq<char>,
    pub rank: i64,
    pub reason: Seq<char>,
    pub is_merge: bool,
}

impl View for Correction {
    type V = CorrectionView;

    open spec fn view(&self) -> CorrectionView {
        CorrectionView {
            original: self.original@,
            corrected: self.corrected@,
            diffs: diff_views(self.diffs@),
            context: self.context@,
            rank: self.rank,
            reason: self.reason@,
            is_merge: self.is_merge,
        }
    }
}

/// The contents of a list of changes.
pub open spec fn correction_views(cs: Seq<Correction>) -> Seq<CorrectionView> {
    Seq::new(cs.len(), |i: int| cs[i]@)
}

/// The rank of every join: the bit pattern of the double-precision score 100.
pub const MERGE_RANK: i64 = 4636737291354636288;

/// The longest run of words that is joined.
pub const MAX_SPAN: usize = 4;

/// The fewest letters of a joined word.
pub const MIN_MERGED_LEN: usize = 5;

/// The letters of `span` words from position `i` on, one after another.
pub open spec fn run_letters(words: Seq<Seq<char>>, i: int, span: nat) -> Seq<char>
    decreases span,
{
    if span == 0 {
        Seq::empty()
    } else {
        run_letters(words, i, (span - 1) as nat) + letters(words[i + span - 1])
    }
}

/// Whether a word has letters and is unknown.
pub open spec fn is_fragment(w: Seq<char>, d: DictView) -> bool {
    letters(w).len() > 0 && !d.knows(lowered(letters(w)))
}

/// Whether `span` words from position `i` on are to be joined: each is a fragment, and
/// together they are a known word of at least five letters.
pub open spec fn mergeable(words: Seq<Seq<char>>, i: int, span: nat, d: DictView) -> bool {
    &&& i + span <= words.len()
    &&& forall|k: int| i <= k < i + span ==> is_fragment(#[trigger] words[k], d)
    &&& run_letters(words, i, span).len() >= MIN_MERGED_LEN
    &&& d.knows(lowered(run_letters(words, i, span)))
}

/// How many words from position `i` on are joined: the most that can be, or none.
pub open spec fn merge_span(words: Seq<Seq<char>>, i: int, d: DictView) -> nat {
    if mergeable(words, i, 4, d) {
        4
    } else if mergeable(words, i, 3, d) {
        3
    } else if mergeable(words, i, 2, d) {
        2
    } else {
        0
    }
}

/// A text with its first character in upper case.
pub open spec fn capitalized(s: Seq<char>) -> Seq<char> {
    if s.len() > 0 {
        s.update(0, raised(s[0]))
    } else {
        s
    }
}

/// The word that a run becomes, in the case of its first letter.
pub open spec fn merged_word(words: Seq<Seq<char>>, i: int, span: nat) -> Seq<char> {
    let low = lowered(run_letters(words, i, span));
    if uppercase(letters(words[i])[0]) {
        capitalized(low)
    } else {
        low
    }
}

/// The joined word between the punctuation before the run and after it.
pub open spec fn merged_token(words: Seq<Seq<char>>, i: int, span: nat) -> Seq<char> {
    punct_before(words[i]) + merged_word(words, i, span) + punct_after(words[i + span - 1])
}

/// The change that joining a run makes.
pub open spec fn merge_change(words: Seq<Seq<char>>, i: int, span: nat) -> CorrectionView {
    CorrectionView {
        original: spaced(words.subrange(i, i + span)),
        corrected: merged_word(words, i, span),
        diffs: Seq::empty(),
        context: Seq::empty(),
        rank: MERGE_RANK,
        reason: "склейка"@,
        is_merge: true,
    }
}

/// The words from position `i` on, with torn words joined.
pub open spec fn merged_from(words: Seq<Seq<char>>, i: int, d: DictView) -> Seq<Seq<char>>
    decreases words.len() - i,
{
    if i < 0 || i >= words.len() {
        Seq::empty()
    } else {
        let span = merge_span(words, i, d);
        if span > 0 {
            seq![merged_token(words, i, span)] + merged_from(words, i + span, d)
        } else {
            seq![words[i]] + merged_from(words, i + 1, d)
        }
    }
}

/// The joins from position `i` on.
pub open spec fn merges_from(words: Seq<Seq<char>>, i: int, d: DictView) -> Seq<CorrectionView>
    decreases words.len() - i,
{
    if i < 0 || i >= words.len() {
        Seq::empty()
    } else {
        let span = merge_span(words, i, d);
        if span > 0 {
            seq![merge_change(words, i, span)] + merges_from(words, i + span, d)
        } else {
            merges_from(words, i + 1, d)
        }
    }
}

/// The words with torn words joined.
pub open spec fn merged_words(words: Seq<Seq<char>>, d: DictView) -> Seq<Seq<char>> {
    merged_from(words, 0, d)
}

/// The joins that are made.
pub open spec fn merge_changes(words: Seq<Seq<char>>, d: DictView) -> Seq<CorrectionView> {
    merges_from(words, 0, d)
}

/// Joins `span` words from position `i` on, if they are to be joined.
pub fn try_merge(words: &[String], i: usize, span: usize, dict: &Dictionary) -> (r: Option<
    (String, Correction),
>)
    requires
        i < words@.len(),
        span > 0,
    ensures
        match r {
            Some(m) => {
                &&& mergeable(texts(words@), i as int, span as nat, dict@)
                &&& m.0@ == merged_token(texts(words@), i as int, span as nat)
                &&& m.1@ == merge_change(texts(words@), i as int, span as nat)
            },
            None => !mergeable(texts(words@), i as int, span as nat, dict@),
        },
{
    let ghost ws = texts(words@);
    if span > words.len() - i {
        return None;
    }
    let mut all: Vec<char> = Vec::new();
    let mut first_upper = false;
    let mut k: usize = 0;
    while k < span
        invariant
            k <= span,
            span > 0,
            i + span <= words@.len(),
            ws == texts(words@),
            all@ == run_letters(ws, i as int, k as nat),
            forall|x: int| i <= x < i + k ==> is_fragment(#[trigger] ws[x], dict@),
            k > 0 ==> first_upper == uppercase(letters(ws[i as int])[0]),
        decreases span - k,
    {
        assert(words@.len() == words.len());
        let chunk = letters_of(chars_of(words[i + k].as_str()).as_slice());
        assert(chunk@ == letters(ws[i + k]));
        if chunk.len() == 0 {
            assert(!is_fragment(ws[i + k], dict@));
            return None;
        }
        let low = text_of(lower_chars(chunk.as_slice()).as_slice());
        if dict.contains(low.as_str()) {
            assert(!is_fragment(ws[i + k], dict@));
            return None;
        }
        if k == 0 {
            first_upper = chunk[0].is_uppercase();
        }
        let mut add = chunk;
        all.append(&mut add);
        k += 1;
    }
    if all.len() < MIN_MERGED_LEN {
        return None;
    }
    let low = lower_chars(all.as_slice());
    let low_text = text_of(low.as_slice());
    if !dict.contains(low_text.as_str()) {
        return None;
    }
    let mut word = low;
    if first_upper && word.len() > 0 {
        let c = raise(word[0]);
        word.set(0, c);
    }
    assert(word@ =~= merged_word(ws, i as int, span as nat));
    let mut token = leading_punct(chars_of(words[i].as_str()).as_slice());
    let corrected = text_of(word.as_slice());
    token.append(corrected.as_str());
    token.append(trailing_punct(chars_of(words[i + span - 1].as_str()).as_slice()).as_str());
    let run = &words[i..i + span];
    assert(texts(run@) =~= ws.subrange(i as int, i + span));
    let original = join_spaced(run);
    let change = Correction {
        original,
        corrected,
        diffs: Vec::new(),
        context: String::new(),
        rank: MERGE_RANK,
        reason: "склейка".to_string(),
        is_merge: true,
    };
    assert(diff_views(change.diffs@) =~= Seq::empty());
    Some((token, change))
}

/// Joins words that were torn apart, trying longer runs before shorter ones.
pub fn merge_split_words(words: &[String], dict: &Dictionary) -> (r: (Vec<String>, Vec<Correction>))
    ensures
        texts(r.0@) == merged_words(texts(words@), dict@),
        correction_views(r.1@) == merge_changes(texts(words@), dict@),
{
    let ghost ws = texts(words@);
    let mut result: Vec<String> = Vec::new();
    let mut changes: Vec<Correction> = Vec::new();
    let mut i: usize = 0;
    proof {
        assert(texts(result@) =~= Seq::empty());
        assert(correction_views(changes@) =~= Seq::empty());
        assert(texts(result@) + merged_from(ws, 0, dict@) =~= merged_words(ws, dict@));
        assert(correction_views(changes@) + merges_from(ws, 0, dict@) =~= merge_changes(ws, dict@));
    }
    while i < words.len()
        invariant
            i <= words.len(),
            ws == texts(words@),
            texts(result@) + merged_from(ws, i as int, dict@) == merged_words(ws, dict@),
            correction_views(changes@) + merges_from(ws, i as int, dict@) == merge_changes(
                ws,
                dict@,
            ),
        decreases words.len() - i,
    {
        let ghost done = texts(result@);
        let ghost made = correction_views(changes@);
        let mut found: Option<(String, Correction)> = None;
        let mut span: usize = MAX_SPAN;
        let mut used: usize = 0;
        while span >= 2 && used == 0
            invariant
                1 <= span <= MAX_SPAN,
                i < words@.len(),
                ws == texts(words@),
                used == 0 ==> found is None,
                used == 0 ==> forall|s: nat|
                    span < s <= MAX_SPAN ==> !#[trigger] mergeable(ws, i as int, s, dict@),
                used > 0 ==> {
                    &&& 2 <= used <= MAX_SPAN
                    &&& found is Some
                    &&& mergeable(ws, i as int, used as nat, dict@)
                    &&& merge_span(ws, i as int, dict@) == used
                    &&& (found->0).0@ == merged_token(ws, i as int, used as nat)
                    &&& (found->0).1@ == merge_change(ws, i as int, used as nat)
                },
            decreases span, (if used == 0 { 1int } else { 0int }),
        {
            found = try_merge(words, i, span, dict);
            if found.is_some() {
                used = span;
                proof {
                    assert(span < 4 ==> !mergeable(ws, i as int, 4, dict@));
                    assert(span < 3 ==> !mergeable(ws, i as int, 3, dict@));
                }
            } else {
                span -= 1;
            }
        }
        match found {
            Some((token, change)) => {
                result.push(token);
                changes.push(change);
                proof {
                    let t = merged_token(ws, i as int, used as nat);
                    let c = merge_change(ws, i as int, used as nat);
                    assert(texts(result@) =~= done.push(t));
                    assert(correction_views(changes@) =~= made.push(c));
                    assert(texts(result@) + merged_from(ws, i + used, dict@) =~= done + merged_from(
                        ws,
                        i as int,
                        dict@,
                    ));
                    assert(correction_views(changes@) + merges_from(ws, i + used, dict@) =~= made
                        + merges_from(ws, i as int, dict@));
                }
                i += used;
            },
            None => {
                result.push(words[i].clone());
                proof {
                    assert(!mergeable(ws, i as int, 4, dict@));
                    assert(!mergeable(ws, i as int, 3, dict@));
                    assert(!mergeable(ws, i as int, 2, dict@));
                    assert(texts(result@) =~= done.push(ws[i as int]));
                    assert(texts(result@) + merged_from(ws, i + 1, dict@) =~= done + merged_from(
                        ws,
                        i as int,
                        dict@,
                    ));
                }
                i += 1;
            },
        }
    }
    proof {
        assert(texts(result@) + Seq::<Seq<char>>::empty() =~= texts(result@));
        assert(correction_views(changes@) + Seq::<CorrectionView>::empty() =~= correction_views(
            changes@,
        ));
    }
    (result, changes)
}

proof fn lemma_merged_len(words: Seq<Seq<char>>, i: int, d: DictView)
    requires
        0 <= i <= words.len(),
    ensures
        merged_from(words, i, d).len() <= words.len() - i,
    decreases words.len() - i,
{
    if i < words.len() {
        let span = merge_span(words, i, d);
        if span > 0 {
            lemma_merged_len(words, i + span, d);
        } else {
            lemma_merged_len(words, i + 1, d);
        }
    }
}

/// Joining never makes a text longer in words.
pub proof fn merging_adds_no_words(words: Seq<Seq<char>>, d: DictView)
    ensures
        merged_words(words, d).len() <= words.len(),
{
    lemma_merged_len(words, 0, d);
}

proof fn lemma_known_words_stay(words: Seq<Seq<char>>, i: int, d: DictView)
    requires
        0 <= i <= words.len(),
        forall|k: int| 0 <= k < words.len() ==> !is_fragment(#[trigger] words[k], d),
    ensures
        merged_from(words, i, d) == words.skip(i),
        merges_from(words, i, d) == Seq::<CorrectionView>::empty(),
    decreases words.len() - i,
{
    if i < words.len() {
        assert(!is_fragment(words[i], d));
        assert(merge_span(words, i, d) == 0);
        lemma_known_words_stay(words, i + 1, d);
        assert(merged_from(words, i, d) =~= words.skip(i));
    } else {
        assert(words.skip(i) =~= Seq::empty());
    }
}

/// A text in which every word is known or without letters is left as it is.
pub proof fn known_words_are_not_merged(words: Seq<Seq<char>>, d: DictView)
    requires
        forall|k: int| 0 <= k < words.len() ==> !is_fragment(#[trigger] words[k], d),
    ensures
        merged_words(words, d) == words,
        merge_changes(words, d) == Seq::<CorrectionView>::empty(),
{
    lemma_known_words_stay(words, 0, d);
    assert(words.skip(0) =~= words);
}

/// Where the word at position `k` comes to stand when the words from position `i` on are
/// joined: its own place, or that of the word which it becomes a piece of.
pub open spec fn place_from(words: Seq<Seq<char>>, i: int, k: int, d: DictView) -> int
    decreases words.len() - i,
{
    if i < 0 || i >= words.len() {
        0
    } else {
        let span = merge_span(words, i, d);
        let step = if span > 0 {
            span as int
        } else {
            1
        };
        if k < i + step {
            0
        } else {
            1 + place_from(words, i + step, k, d)
        }
    }
}

/// Where the word at position `k` comes to stand when torn words are joined.
pub open spec fn place_after_joining(words: Seq<Seq<char>>, k: int, d: DictView) -> int {
    place_from(words, 0, k, d)
}

proof fn lemma_place_from(words: Seq<Seq<char>>, i: int, k: int, d: DictView)
    requires
        0 <= i <= k < words.len(),
    ensures
        0 <= place_from(words, i, k, d) < merged_from(words, i, d).len(),
        !is_fragment(words[k], d) ==> merged_from(words, i, d)[place_from(words, i, k, d)]
            == words[k],
    decreases words.len() - i,
{
    let span = merge_span(words, i, d);
    let step = if span > 0 {
        span as int
    } else {
        1
    };
    if k < i + step {
        if span > 0 && !is_fragment(words[k], d) {
            assert(is_fragment(words[k], d));
        }
    } else {
        lemma_place_from(words, i + step, k, d);
    }
}

proof fn lemma_places_ascend(words: Seq<Seq<char>>, i: int, j: int, k: int, d: DictView)
    requires
        0 <= i <= j < k < words.len(),
    ensures
        place_from(words, i, j, d) <= place_from(words, i, k, d),
        !is_fragment(words[j], d) || !is_fragment(words[k], d) ==> place_from(words, i, j, d)
            < place_from(words, i, k, d),
    decreases words.len() - i,
{
    let span = merge_span(words, i, d);
    let step = if span > 0 {
        span as int
    } else {
        1
    };
    if k < i + step {
        assert(is_fragment(words[j], d));
        assert(is_fragment(words[k], d));
    } else {
        lemma_place_from(words, i + step, k, d);
        if j >= i + step {
            lemma_places_ascend(words, i + step, j, k, d);
        }
    }
}

/// A known word is never joined with its neighbours: it stands in the result, at the place
/// that joining gives it.
pub proof fn known_word_survives_joining(words: Seq<Seq<char>>, k: int, d: DictView)
    requires
        0 <= k < words.len(),
        !is_fragment(words[k], d),
    ensures
        0 <= place_after_joining(words, k, d) < merged_words(words, d).len(),
        merged_words(words, d)[place_after_joining(words, k, d)] == words[k],
{
    lemma_place_from(words, 0, k, d);
}

/// Joining keeps the order of the words: of two words the first does not come to stand after
/// the second, and a known word keeps a place of its own.
pub proof fn joining_keeps_the_order(words: Seq<Seq<char>>, j: int, k: int, d: DictView)
    requires
        0 <= j < k < words.len(),
    ensures
        0 <= place_after_joining(words, j, d) <= place_after_joining(words, k, d)
            < merged_words(words, d).len(),
        !is_fragment(words[j], d) || !is_fragment(words[k], d) ==> place_after_joining(words, j, d)
            < place_after_joining(words, k, d),
{
    lemma_place_from(words, 0, j, d);
    lemma_place_from(words, 0, k, d);
    lemma_places_ascend(words, 0, j, k, d);
}

/// The longest run that can be joined is the one that is joined.
pub proof fn longest_run_is_merged(words: Seq<Seq<char>>, i: int, d: DictView, span: nat)
    requires
        2 <= span <= MAX_SPAN,
        mergeable(words, i, span, d),
    ensures
        span <= merge_span(words, i, d) <= MAX_SPAN,
        mergeable(words, i, merge_span(words, i, d), d),
{
}

/// A known word that was torn into two, three or four pieces becomes one word again.
pub proof fn torn_word_becomes_one(words: Seq<Seq<char>>, d: DictView)
    requires
        2 <= words.len() <= MAX_SPAN,
        mergeable(words, 0, words.len(), d),
    ensures
        merged_words(words, d) == seq![merged_token(words, 0, words.len())],
        merge_changes(words, d) == seq![merge_change(words, 0, words.len())],
{
    let n = words.len();
    assert(merge_span(words, 0, d) == n);
    assert(merged_from(words, n as int, d) =~= Seq::<Seq<char>>::empty());
    assert(merges_from(words, n as int, d) =~= Seq::<CorrectionView>::empty());
    assert(merged_words(words, d) =~= seq![merged_token(words, 0, n)]);
    assert(merge_changes(words, d) =~= seq![merge_change(words, 0, n)]);
}

/// Whether every character of a text belongs to an alphabet.
pub open spec fn written_in(s: Seq<char>, abc: Set<char>) -> bool {
    forall|i: int| 0 <= i < s.len() ==> abc.contains(#[trigger] s[i])
}

/// Whether a text of an alphabet stays one in lower case and with its first letter raised,
/// and lowering either of these gives the text in lower case again.
pub open spec fn lowers_plainly(s: Seq<char>, abc: Set<char>) -> bool {
    written_in(s, abc) ==> {
        let low = lowered(s);
        &&& written_in(low, abc)
        &&& lowered(low) == low
        &&& written_in(capitalized(low), abc)
        &&& lowered(capitalized(low)) == low
    }
}

/// That the characters of an alphabet are letters, and that case changes plainly in it.
pub open spec fn has_plain_case(abc: Set<char>) -> bool {
    &&& forall|c: char| #[trigger] abc.contains(c) ==> alphabetic(c)
    &&& forall|s: Seq<char>| #[trigger] lowers_plainly(s, abc)
}

/// Whether every letter of a list of words belongs to an alphabet.
pub open spec fn letters_in(words: Seq<Seq<char>>, abc: Set<char>) -> bool {
    forall|k: int| 0 <= k < words.len() ==> written_in(letters(#[trigger] words[k]), abc)
}

pub proof fn lemma_run_in(words: Seq<Seq<char>>, i: int, span: nat, abc: Set<char>)
    requires
        letters_in(words, abc),
        0 <= i,
        i + span <= words.len(),
    ensures
        written_in(run_letters(words, i, span), abc),
    decreases span,
{
    if span > 0 {
        lemma_run_in(words, i, (span - 1) as nat, abc);
        assert(written_in(letters(words[i + span - 1]), abc));
    }
}

proof fn lemma_joined_word_is_known(
    words: Seq<Seq<char>>,
    i: int,
    span: nat,
    d: DictView,
    abc: Set<char>,
)
    requires
        has_plain_case(abc),
        letters_in(words, abc),
        0 <= i,
        span > 0,
        mergeable(words, i, span, d),
    ensures
        !is_fragment(merged_token(words, i, span), d),
{
    let run = run_letters(words, i, span);
    let low = lowered(run);
    let word = merged_word(words, i, span);
    let before = punct_before(words[i]);
    let after = punct_after(words[i + span - 1]);
    lemma_run_in(words, i, span, abc);
    assert(lowers_plainly(run, abc));
    assert(written_in(word, abc));
    assert forall|x: int| 0 <= x < word.len() implies alphabetic(#[trigger] word[x]) by {
        assert(abc.contains(word[x]));
    }
    lemma_all_letters(word);
    lemma_punct_has_no_letters(words[i]);
    lemma_punct_has_no_letters(words[i + span - 1]);
    lemma_letters_of_sum(before, word);
    lemma_letters_of_sum(before + word, after);
    assert(letters(merged_token(words, i, span)) =~= word);
    assert(lowered(word) == low);
}

proof fn lemma_same_run(a: Seq<Seq<char>>, i: int, b: Seq<Seq<char>>, j: int, span: nat)
    requires
        forall|t: int| 0 <= t < span ==> #[trigger] a[i + t] == b[j + t],
    ensures
        run_letters(a, i, span) == run_letters(b, j, span),
    decreases span,
{
    if span > 0 {
        lemma_same_run(a, i, b, j, (span - 1) as nat);
        assert(a[i + (span - 1)] == b[j + (span - 1)]);
    }
}

proof fn lemma_same_mergeable(
    a: Seq<Seq<char>>,
    i: int,
    b: Seq<Seq<char>>,
    j: int,
    span: nat,
    d: DictView,
)
    requires
        0 <= i,
        0 <= j,
        j + span <= b.len(),
        forall|t: int| 0 <= t < span ==> #[trigger] a[i + t] == b[j + t],
        mergeable(a, i, span, d),
    ensures
        mergeable(b, j, span, d),
{
    lemma_same_run(a, i, b, j, span);
    assert forall|k: int| j <= k < j + span implies is_fragment(#[trigger] b[k], d) by {
        let t = k - j;
        assert(a[i + t] == b[j + t]);
        assert(is_fragment(a[i + t], d));
    }
}

proof fn lemma_leading_fragments(
    words: Seq<Seq<char>>,
    i: int,
    d: DictView,
    abc: Set<char>,
    n: nat,
)
    requires
        has_plain_case(abc),
        letters_in(words, abc),
        0 <= i <= words.len(),
        n <= merged_from(words, i, d).len(),
        forall|t: int| 0 <= t < n ==> is_fragment(#[trigger] merged_from(words, i, d)[t], d),
    ensures
        i + n <= words.len(),
        forall|t: int| 0 <= t < n ==> #[trigger] words[i + t] == merged_from(words, i, d)[t],
    decreases n,
{
    if n > 0 {
        let out = merged_from(words, i, d);
        let span = merge_span(words, i, d);
        assert(is_fragment(out[0], d));
        if span > 0 {
            lemma_joined_word_is_known(words, i, span, d, abc);
        }
        let rest = merged_from(words, i + 1, d);
        assert(out =~= seq![words[i]] + rest);
        assert forall|t: int| 0 <= t < n - 1 implies is_fragment(#[trigger] rest[t], d) by {
            assert(rest[t] == out[t + 1]);
        }
        lemma_leading_fragments(words, i + 1, d, abc, (n - 1) as nat);
        assert forall|t: int| 0 <= t < n implies #[trigger] words[i + t] == out[t] by {
            if t > 0 {
                assert(words[(i + 1) + (t - 1)] == rest[t - 1]);
            }
        }
    }
}

proof fn lemma_no_run_is_left(
    words: Seq<Seq<char>>,
    i: int,
    d: DictView,
    abc: Set<char>,
    x: int,
    s: nat,
)
    requires
        has_plain_case(abc),
        letters_in(words, abc),
        0 <= i <= words.len(),
        0 <= x < merged_from(words, i, d).len(),
        2 <= s <= MAX_SPAN,
    ensures
        !mergeable(merged_from(words, i, d), x, s, d),
    decreases words.len() - i,
{
    let out = merged_from(words, i, d);
    if i < words.len() && mergeable(out, x, s, d) {
        let span = merge_span(words, i, d);
        let next = if span > 0 {
            i + span
        } else {
            i + 1
        };
        let rest = merged_from(words, next, d);
        assert(out.skip(1) =~= rest);
        if x > 0 {
            lemma_no_run_is_left(words, next, d, abc, x - 1, s);
            assert forall|t: int| 0 <= t < s implies #[trigger] out[x + t] == rest[x - 1 + t] by {}
            lemma_same_mergeable(out, x, rest, x - 1, s, d);
        } else {
            assert forall|t: int| 0 <= t < s implies is_fragment(#[trigger] out[t], d) by {}
            lemma_leading_fragments(words, i, d, abc, s);
            assert forall|t: int| 0 <= t < s implies #[trigger] out[0 + t] == words[i + t] by {}
            lemma_same_mergeable(out, 0, words, i, s, d);
            assert(is_fragment(out[0], d));
            if span > 0 {
                lemma_joined_word_is_known(words, i, span, d, abc);
            }
        }
    }
}

proof fn lemma_nothing_joined(words: Seq<Seq<char>>, i: int, d: DictView)
    requires
        0 <= i <= words.len(),
        forall|x: int| 0 <= x < words.len() ==> #[trigger] merge_span(words, x, d) == 0,
    ensures
        merged_from(words, i, d) == words.skip(i),
        merges_from(words, i, d) == Seq::<CorrectionView>::empty(),
    decreases words.len() - i,
{
    if i < words.len() {
        assert(merge_span(words, i, d) == 0);
        lemma_nothing_joined(words, i + 1, d);
        assert(merged_from(words, i, d) =~= words.skip(i));
    } else {
        assert(words.skip(i) =~= Seq::empty());
    }
}

/// Joining a second time finds nothing left to join, for words in an alphabet in which case
/// changes plainly.
pub proof fn joining_twice_joins_no_more(words: Seq<Seq<char>>, d: DictView, abc: Set<char>)
    requires
        letters_in(words, abc),
    ensures
        has_plain_case(abc) ==> merged_words(merged_words(words, d), d) == merged_words(words, d),
        has_plain_case(abc) ==> merge_changes(merged_words(words, d), d) == Seq::<
            CorrectionView,
        >::empty(),
{
    if has_plain_case(abc) {
        let out = merged_words(words, d);
        assert forall|x: int| 0 <= x < out.len() implies #[trigger] merge_span(out, x, d) == 0 by {
            lemma_no_run_is_left(words, 0, d, abc, x, 4);
            lemma_no_run_is_left(words, 0, d, abc, x, 3);
            lemma_no_run_is_left(words, 0, d, abc, x, 2);
        }
        lemma_nothing_joined(out, 0, d);
        assert(out.skip(0) =~= out);
    }
}

/// The letters of the Russian alphabet.
pub open spec fn russian_letters() -> Set<char> {
    Set::new(|c: char| russian(c))
}

/// Case changes plainly in the Russian alphabet.
pub proof fn russian_case_is_plain()
    ensures
        has_plain_case(russian_letters()),
{
    reveal(alphabetic);
    reveal(lowered);
    reveal(uppercased);
    let abc = russian_letters();
    assert forall|s: Seq<char>| #[trigger] lowers_plainly(s, abc) by {
        if written_in(s, abc) {
            assert forall|i: int| 0 <= i < s.len() implies russian(#[trigger] s[i]) by {
                assert(abc.contains(s[i]));
            }
            let low = lowered(s);
            let cap = capitalized(low);
            assert forall|i: int| 0 <= i < low.len() implies small_russian(#[trigger] low[i]) by {
                assert(russian(s[i]));
            }
            assert(written_in(low, abc));
            assert(lowered(low) =~= low);
            assert(written_in(cap, abc));
            assert(lowered(cap) =~= low);
        }
    }
}

/// Joining a second time finds nothing left to join in words of Russian letters.
pub proof fn joining_russian_twice_joins_no_more(words: Seq<Seq<char>>, d: DictView)
    requires
        letters_in(words, russian_letters()),
    ensures
        merged_words(merged_words(words, d), d) == merged_words(words, d),
        merge_changes(merged_words(words, d), d) == Seq::<CorrectionView>::empty(),
{
    russian_case_is_plain();
    joining_twice_joins_no_more(words, d, russian_letters());
}

} // verus!

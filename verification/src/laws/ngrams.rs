//! Which runs of stems are counted, and which of them a word completes.

use crate::chars::lowered;
use crate::correct::word_stem;
use crate::dictionary::DictView;
use crate::laws::words::{letters_alone, letters_are_the_alphabetic_characters};
use crate::learn::{ended_ngrams, known_run, known_stem, text_ngrams};
use crate::morphology::stem_of;
use crate::ngrams::{
    context_hits, hits_at, long_enough, ngrams_of, runs_starting, HitView, Surroundings,
};
use crate::text::byte_len;
use vstd::prelude::*;

verus! {

/// Whether a run of stems is counted: every stem takes two bytes or more.
pub open spec fn is_counted(run: Seq<Seq<char>>) -> bool {
    forall|i: int| 0 <= i < run.len() ==> byte_len(#[trigger] run[i]) >= 2
}

/// The runs of `n` neighbouring stems, from the first to the last.
pub open spec fn neighbours(stems: Seq<Seq<char>>, n: nat) -> Seq<Seq<Seq<char>>> {
    Seq::new((stems.len() + 1 - n) as nat, |k: int| stems.subrange(k, k + n))
}

proof fn lemma_neighbours(stems: Seq<Seq<char>>, n: nat, k: nat)
    requires
        1 <= n <= stems.len(),
        k <= stems.len() - n + 1,
    ensures
        runs_starting(stems, n, k) == neighbours(stems, n).take(k as int).filter(
            |r: Seq<Seq<char>>| is_counted(r),
        ),
    decreases k,
{
    reveal(Seq::filter);
    let all = neighbours(stems, n);
    if k > 0 {
        lemma_neighbours(stems, n, (k - 1) as nat);
        assert(all.take(k as int).drop_last() =~= all.take(k - 1));
        assert(all.take(k as int).last() == stems.subrange(k - 1, k - 1 + n));
        assert(long_enough(stems.subrange(k - 1, k - 1 + n)) == is_counted(
            stems.subrange(k - 1, k - 1 + n),
        ));
    }
}

/// Of a run of known words all runs of two stems are counted, then all of three, and so on up to
/// the greatest length: those whose stems take two bytes or more.
pub proof fn neighbouring_stems_are_counted(stems: Seq<Seq<char>>, n: nat)
    ensures
        n < 2 ==> ngrams_of(stems, n) == Seq::<Seq<Seq<char>>>::empty(),
        n >= 2 && n <= stems.len() ==> ngrams_of(stems, n) == ngrams_of(stems, (n - 1) as nat)
            + neighbours(stems, n).filter(|r: Seq<Seq<char>>| is_counted(r)),
        n >= 2 && n > stems.len() ==> ngrams_of(stems, n) == ngrams_of(stems, (n - 1) as nat),
{
    if 2 <= n <= stems.len() {
        let k = (stems.len() - n + 1) as nat;
        lemma_neighbours(stems, n, k);
        assert(neighbours(stems, n).take(k as int) =~= neighbours(stems, n));
    }
}

/// Whether the letters of a word of a text are a known word in lower case.
pub open spec fn has_known_letters(w: Seq<char>, d: DictView) -> bool {
    lowered(letters_alone(w)).len() > 0 && d.words.contains(lowered(lowered(letters_alone(w))))
}

/// The stem of the letters of a word of a text.
pub open spec fn letter_stem(w: Seq<char>) -> Seq<char> {
    stem_of(lowered(letters_alone(w)))
}

/// The stem of a word of a text is that of its letters in lower case.
pub proof fn words_have_the_stems_of_their_letters(w: Seq<char>)
    ensures
        word_stem(w) == letter_stem(w),
{
    letters_are_the_alphabetic_characters(w);
}

proof fn lemma_known_stem(w: Seq<char>, d: DictView)
    ensures
        has_known_letters(w, d) ==> known_stem(w, d) == Some(letter_stem(w)),
        !has_known_letters(w, d) ==> known_stem(w, d) is None,
{
    letters_are_the_alphabetic_characters(w);
}

/// The stems of a list of words.
pub open spec fn stems_of_letters(words: Seq<Seq<char>>) -> Seq<Seq<char>> {
    words.map_values(|w: Seq<char>| letter_stem(w))
}

proof fn lemma_known_run_all(words: Seq<Seq<char>>, d: DictView, n: nat, m: nat)
    requires
        n <= words.len(),
        forall|i: int| 0 <= i < n ==> has_known_letters(#[trigger] words[i], d),
    ensures
        known_run(words, n, d) == stems_of_letters(words.take(n as int)),
        ended_ngrams(words, n, d, m) == Seq::<Seq<Seq<char>>>::empty(),
    decreases n,
{
    if n > 0 {
        lemma_known_run_all(words, d, (n - 1) as nat, m);
        assert(has_known_letters(words[n - 1], d));
        lemma_known_stem(words[n - 1], d);
        assert(known_run(words, n, d) =~= stems_of_letters(words.take(n as int)));
    } else {
        assert(known_run(words, n, d) =~= stems_of_letters(words.take(n as int)));
    }
}

proof fn lemma_run_behind(a: Seq<Seq<char>>, x: Seq<char>, b: Seq<Seq<char>>, d: DictView, n: nat, m: nat)
    requires
        n <= b.len(),
        !has_known_letters(x, d),
    ensures
        known_run(a + seq![x] + b, a.len() + 1 + n, d) == known_run(b, n, d),
        ended_ngrams(a + seq![x] + b, a.len() + 1 + n, d, m) == ended_ngrams(
            a + seq![x] + b,
            a.len() + 1,
            d,
            m,
        ) + ended_ngrams(b, n, d, m),
    decreases n,
{
    let all = a + seq![x] + b;
    lemma_known_stem(x, d);
    if n == 0 {
        assert(all[a.len() as int] == x);
        assert(ended_ngrams(all, a.len() + 1, d, m) + ended_ngrams(b, 0, d, m) =~= ended_ngrams(
            all,
            a.len() + 1,
            d,
            m,
        ));
    } else {
        lemma_run_behind(a, x, b, d, (n - 1) as nat, m);
        let k = a.len() + 1 + n;
        assert(all[k - 1] == b[n - 1]);
        let head = ended_ngrams(all, a.len() + 1, d, m);
        assert(ended_ngrams(all, k, d, m) =~= head + ended_ngrams(b, n, d, m));
    }
}

proof fn lemma_run_before(a: Seq<Seq<char>>, c: Seq<Seq<char>>, d: DictView, n: nat, m: nat)
    requires
        n <= a.len(),
    ensures
        known_run(a + c, n, d) == known_run(a, n, d),
        ended_ngrams(a + c, n, d, m) == ended_ngrams(a, n, d, m),
    decreases n,
{
    if n > 0 {
        lemma_run_before(a, c, d, (n - 1) as nat, m);
        assert((a + c)[n - 1] == a[n - 1]);
    }
}

/// The runs of a text in which every word is known are those of the stems of its words.
pub proof fn known_words_make_one_run(words: Seq<Seq<char>>, d: DictView, m: nat)
    requires
        forall|i: int| 0 <= i < words.len() ==> has_known_letters(#[trigger] words[i], d),
    ensures
        text_ngrams(words, d, m) == ngrams_of(stems_of_letters(words), m),
{
    lemma_known_run_all(words, d, words.len(), m);
    assert(words.take(words.len() as int) =~= words);
    assert(text_ngrams(words, d, m) =~= ngrams_of(stems_of_letters(words), m));
}

/// A word whose letters are not known parts the runs of a text: those before it and those behind
/// it are counted apart.
pub proof fn unknown_words_part_the_runs(
    a: Seq<Seq<char>>,
    x: Seq<char>,
    b: Seq<Seq<char>>,
    d: DictView,
    m: nat,
)
    requires
        !has_known_letters(x, d),
    ensures
        text_ngrams(a + seq![x] + b, d, m) == text_ngrams(a, d, m) + text_ngrams(b, d, m),
{
    let all = a + seq![x] + b;
    lemma_known_stem(x, d);
    lemma_run_behind(a, x, b, d, b.len(), m);
    assert(a + (seq![x] + b) =~= all);
    lemma_run_before(a, seq![x] + b, d, a.len(), m);
    assert(all[a.len() as int] == x);
    assert(text_ngrams(all, d, m) =~= text_ngrams(a, d, m) + text_ngrams(b, d, m));
}

/// How often a run was counted.
pub open spec fn times(run: Seq<Seq<char>>, s: Surroundings) -> nat {
    if s.ngrams.contains_key(run) {
        s.ngrams[run] as nat
    } else {
        0
    }
}

/// A run as a hit.
pub open spec fn as_hit(run: Seq<Seq<char>>, s: Surroundings) -> HitView {
    HitView { n: run.len(), key: run, freq: times(run, s) }
}

/// The hits of a word: for each length, from the longest down to two stems, first the run that
/// the stems before the word make with it, then the one that it makes with the stems behind it,
/// each if there are stems enough and it was counted often enough.
pub proof fn counted_neighbours_are_hits(
    stem: Seq<char>,
    s: Surroundings,
    front: Seq<Seq<char>>,
    back: Seq<Seq<char>>,
    m: nat,
)
    ensures
        m < 2 ==> context_hits(stem, s, m) == Seq::<HitView>::empty(),
        m >= 2 ==> context_hits(stem, s, m) == hits_at(stem, s, m) + context_hits(
            stem,
            s,
            (m - 1) as nat,
        ),
        m >= 2 && front.len() == m - 1 && s.before.len() >= m - 1 && s.before.skip(
            s.before.len() - (m - 1),
        ) == front && s.after.len() < m - 1 ==> hits_at(stem, s, m) == (if times(
            front.push(stem),
            s,
        ) >= s.min_freq {
            seq![as_hit(front.push(stem), s)]
        } else {
            Seq::empty()
        }),
        m >= 2 && back.len() == m - 1 && s.after.len() >= m - 1 && s.after.take(m - 1) == back
            && s.before.len() < m - 1 ==> hits_at(stem, s, m) == (if times(seq![stem] + back, s)
            >= s.min_freq {
            seq![as_hit(seq![stem] + back, s)]
        } else {
            Seq::empty()
        }),
        m >= 2 && front.len() == m - 1 && s.before.len() >= m - 1 && s.before.skip(
            s.before.len() - (m - 1),
        ) == front && back.len() == m - 1 && s.after.len() >= m - 1 && s.after.take(m - 1) == back
            ==> hits_at(stem, s, m) == (if times(front.push(stem), s) >= s.min_freq {
            seq![as_hit(front.push(stem), s)]
        } else {
            Seq::empty()
        }) + (if times(seq![stem] + back, s) >= s.min_freq {
            seq![as_hit(seq![stem] + back, s)]
        } else {
            Seq::empty()
        }),
        s.before.len() < m - 1 && s.after.len() < m - 1 ==> hits_at(stem, s, m) == Seq::<
            HitView,
        >::empty(),
{
    let none = Seq::<HitView>::empty();
    assert(none + none =~= none);
    if m >= 2 {
        let f = hits_at(stem, s, m);
        assert(f + none =~= f);
        assert(none + f =~= f);
    }
}

} // verus!

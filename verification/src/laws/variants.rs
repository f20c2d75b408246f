//! What a digit or mark inside a word may stand for, and which other words are tried in place of
//! a word.

use crate::candidates::KnowledgeView;
use crate::variants::{
    arranging_keeps_first_of_each_text, before_from, bootstrap_pairs, digits_and_marks_make_variants,
    first_of_text, in_text_order, lemma_by_pair_members, lemma_contained_in_sum,
    suggested_by, suggestions, text_before, variant_at, variants_by_pair, variants_by_position,
    variants_here, variants_of, variants_replace_one_character, VariantView,
};
use vstd::prelude::*;

verus! {

/// Whether a digit or mark is read as a letter.
pub open spec fn reads_as(mark: char, letter: char) -> bool {
    ||| mark == '0' && (letter == 'о' || letter == 'c')
    ||| mark == '1' && (letter == 'і' || letter == 'i' || letter == 'л' || letter == 'т')
    ||| mark == '3' && letter == 'з'
    ||| mark == '5' && letter == 'б'
    ||| mark == '6' && letter == 'б'
    ||| mark == '8' && letter == 'в'
    ||| mark == '9' && letter == 'д'
    ||| mark == ';' && (letter == 'щ' || letter == 'ц')
    ||| mark == ':' && (letter == 'і' || letter == 'и')
    ||| mark == '|' && (letter == 'і' || letter == 'л')
    ||| mark == '!' && (letter == 'і' || letter == 'л')
    ||| mark == '\\' && letter == 'л'
    ||| mark == '/' && letter == 'л'
    ||| mark == '*' && letter == 'ж'
}

/// Whether a list of counted confusions names two characters.
pub open spec fn confuses(cs: Seq<((char, char), usize)>, from: char, to: char) -> bool {
    exists|i: int| 0 <= i < cs.len() && (#[trigger] cs[i]).0 == (from, to)
}

/// The place of a reading in the list that variants are made from.
spec fn reading_place(mark: char, letter: char) -> int {
    if mark == '1' {
        if letter == 'і' {
            0
        } else if letter == 'i' {
            1
        } else if letter == 'л' {
            2
        } else {
            3
        }
    } else if mark == '0' {
        if letter == 'о' {
            4
        } else {
            5
        }
    } else if mark == '3' {
        6
    } else if mark == '6' {
        8
    } else if mark == '5' {
        9
    } else if mark == '9' {
        10
    } else if mark == '8' {
        11
    } else if mark == ';' {
        if letter == 'щ' {
            12
        } else {
            13
        }
    } else if mark == ':' {
        if letter == 'і' {
            14
        } else {
            15
        }
    } else if mark == '|' {
        if letter == 'і' {
            16
        } else {
            17
        }
    } else if mark == '!' {
        if letter == 'і' {
            18
        } else {
            19
        }
    } else if mark == '\\' {
        20
    } else if mark == '/' {
        21
    } else {
        22
    }
}

proof fn lemma_readings()
    ensures
        forall|mark: char, letter: char| #[trigger]
            reads_as(mark, letter) ==> {
                let x = reading_place(mark, letter);
                0 <= x < bootstrap_pairs().len() && bootstrap_pairs()[x] == (mark, letter)
            },
        forall|x: int|
            0 <= x < bootstrap_pairs().len() ==> reads_as(
                (#[trigger] bootstrap_pairs()[x]).0,
                bootstrap_pairs()[x].1,
            ),
{
    let l = bootstrap_pairs();
    assert(l.len() == 23);
    assert(l[0] == ('1', 'і') && l[1] == ('1', 'i') && l[2] == ('1', 'л') && l[3] == ('1', 'т'));
    assert(l[4] == ('0', 'о') && l[5] == ('0', 'c') && l[6] == ('3', 'з') && l[7] == ('3', 'з'));
    assert(l[8] == ('6', 'б') && l[9] == ('5', 'б') && l[10] == ('9', 'д') && l[11] == ('8', 'в'));
    assert(l[12] == (';', 'щ') && l[13] == (';', 'ц') && l[14] == (':', 'і') && l[15] == (':', 'и'));
    assert(l[16] == ('|', 'і') && l[17] == ('|', 'л') && l[18] == ('!', 'і') && l[19] == ('!', 'л'));
    assert(l[20] == ('\\', 'л') && l[21] == ('/', 'л') && l[22] == ('*', 'ж'));
}

/// A digit or mark in a word is tried as each letter that it is read as, whatever confusions
/// were counted.
pub proof fn marks_are_tried_as_letters(
    word: Seq<char>,
    confusions: Seq<((char, char), usize)>,
    pos: nat,
    letter: char,
)
    requires
        pos < word.len(),
        reads_as(word[pos as int], letter),
    ensures
        variants_of(word, confusions).contains(
            (VariantView {
                text: word.update(pos as int, letter),
                from: word[pos as int],
                to: letter,
                pos,
            }),
        ),
{
    lemma_readings();
    let x = reading_place(word[pos as int], letter);
    digits_and_marks_make_variants(word, confusions, pos, x);
}

/// A character of a word is tried as each character that it was confused with.
pub proof fn confused_characters_are_tried(
    word: Seq<char>,
    confusions: Seq<((char, char), usize)>,
    pos: nat,
    to: char,
)
    requires
        pos < word.len(),
        confuses(confusions, word[pos as int], to),
    ensures
        exists|i: int|
            0 <= i < variants_of(word, confusions).len() && (#[trigger] variants_of(
                word,
                confusions,
            )[i]).text == word.update(pos as int, to),
{
    let v = variant_at(word, word[pos as int], to, pos);
    let raw = suggestions(word, confusions);
    let x = choose|x: int|
        0 <= x < confusions.len() && (#[trigger] confusions[x]).0 == (word[pos as int], to);
    assert(suggested_by(word, confusions, confusions.len(), v));
    lemma_by_pair_members(word, confusions, confusions.len(), v);
    lemma_contained_in_sum(
        variants_by_position(word, bootstrap_pairs(), word.len()),
        variants_by_pair(word, confusions, confusions.len()),
        v,
    );
    let j = choose|j: int| 0 <= j < raw.len() && raw[j] == v;
    arranging_keeps_first_of_each_text(raw);
    let out = variants_of(word, confusions);
    let i = choose|i: int| 0 <= i < out.len() && (#[trigger] out[i]).text == raw[j].text;
    assert(out[i].text == word.update(pos as int, to));
}

proof fn lemma_here_source(word: Seq<char>, pairs: Seq<(char, char)>, pos: nat, k: nat, v: VariantView)
    requires
        k <= pairs.len(),
        variants_here(word, pairs, pos, k).contains(v),
    ensures
        exists|x: int| 0 <= x < pairs.len() && (#[trigger] pairs[x]) == (v.from, v.to),
    decreases k,
{
    let now = variants_here(word, pairs, pos, k);
    if k > 0 {
        let before = variants_here(word, pairs, pos, (k - 1) as nat);
        let i = choose|i: int| 0 <= i < now.len() && now[i] == v;
        if i < before.len() {
            assert(before[i] == v);
            lemma_here_source(word, pairs, pos, (k - 1) as nat, v);
        } else {
            assert(pairs[k - 1] == (v.from, v.to));
        }
    }
}

proof fn lemma_position_source(word: Seq<char>, pairs: Seq<(char, char)>, n: nat, v: VariantView)
    requires
        variants_by_position(word, pairs, n).contains(v),
    ensures
        exists|x: int| 0 <= x < pairs.len() && (#[trigger] pairs[x]) == (v.from, v.to),
    decreases n,
{
    if n > 0 {
        let before = variants_by_position(word, pairs, (n - 1) as nat);
        let here = variants_here(word, pairs, (n - 1) as nat, pairs.len());
        lemma_contained_in_sum(before, here, v);
        if before.contains(v) {
            lemma_position_source(word, pairs, (n - 1) as nat, v);
        } else {
            lemma_here_source(word, pairs, (n - 1) as nat, pairs.len(), v);
        }
    }
}

/// Nothing else is tried: every variant is the word with one character replaced, by a letter
/// that the digit or mark there is read as, or by a character that it was confused with.
pub proof fn nothing_else_is_tried(word: Seq<char>, confusions: Seq<((char, char), usize)>, i: int)
    requires
        0 <= i < variants_of(word, confusions).len(),
    ensures
        ({
            let v = variants_of(word, confusions)[i];
            &&& v.pos < word.len()
            &&& v.from == word[v.pos as int]
            &&& v.text == word.update(v.pos as int, v.to)
            &&& reads_as(v.from, v.to) || confuses(confusions, v.from, v.to)
        }),
{
    let raw = suggestions(word, confusions);
    let out = variants_of(word, confusions);
    let v = out[i];
    variants_replace_one_character(word, confusions, i);
    arranging_keeps_first_of_each_text(raw);
    assert(out.contains(v));
    assert(first_of_text(raw, v));
    assert(raw.contains(v));
    let boot = variants_by_position(word, bootstrap_pairs(), word.len());
    lemma_contained_in_sum(boot, variants_by_pair(word, confusions, confusions.len()), v);
    if boot.contains(v) {
        lemma_position_source(word, bootstrap_pairs(), word.len(), v);
        lemma_readings();
    } else {
        lemma_by_pair_members(word, confusions, confusions.len(), v);
        let x = choose|x: int|
            0 <= x < confusions.len() && word[v.pos as int] == (#[trigger] confusions[x]).0.0 && v
                == variant_at(word, confusions[x].0.0, confusions[x].0.1, v.pos);
        assert(confusions[x].0 == (v.from, v.to));
    }
}

/// Whether a text comes before another: the two agree up to a character that is less, or up to
/// the end of the first.
pub open spec fn reads_before(a: Seq<char>, b: Seq<char>) -> bool {
    exists|n: int|
        0 <= n <= a.len() && n < b.len() && a.take(n) == #[trigger] b.take(n) && (n == a.len() || a[n]
            < b[n])
}

proof fn lemma_reads_before(a: Seq<char>, b: Seq<char>, i: int)
    requires
        0 <= i <= a.len(),
        i <= b.len(),
        a.take(i) == b.take(i),
        before_from(a, b, i),
    ensures
        reads_before(a, b),
    decreases a.len() - i,
{
    if i < a.len() && a[i] == b[i] {
        assert(a.take(i + 1) =~= a.take(i).push(a[i]));
        assert(b.take(i + 1) =~= b.take(i).push(b[i]));
        lemma_reads_before(a, b, i + 1);
    } else {
        assert(a.take(i) == b.take(i));
    }
}

/// What is tried comes in the order of the texts, and each text once.
pub proof fn variants_come_in_the_order_of_their_texts(
    word: Seq<char>,
    confusions: Seq<((char, char), usize)>,
    i: int,
    j: int,
)
    requires
        0 <= i < j < variants_of(word, confusions).len(),
    ensures
        reads_before(variants_of(word, confusions)[i].text, variants_of(word, confusions)[j].text),
        variants_of(word, confusions)[i].text != variants_of(word, confusions)[j].text,
{
    let vs = variants_of(word, confusions);
    arranging_keeps_first_of_each_text(suggestions(word, confusions));
    assert(in_text_order(vs));
    let a = vs[i].text;
    let b = vs[j].text;
    assert(text_before(a, b));
    assert(a.take(0) =~= b.take(0));
    lemma_reads_before(a, b, 0);
    crate::variants::lemma_before_cases(a, b, 0);
}

/// A confusion makes variants exactly if it was counted often enough.
pub proof fn counted_confusions_are_tried(k: KnowledgeView, from: char, to: char)
    requires
        k.is_grounded(),
    ensures
        confuses(k.confusions, from, to) <==> k.ocr_confusions.contains_key((from, to))
            && k.ocr_confusions[(from, to)] >= k.settings.min_confusion_freq,
{
    let cs = k.confusions;
    if confuses(cs, from, to) {
        let i = choose|i: int| 0 <= i < cs.len() && (#[trigger] cs[i]).0 == (from, to);
        assert(cs.contains(cs[i]));
    }
    if k.ocr_confusions.contains_key((from, to)) && k.ocr_confusions[(from, to)]
        >= k.settings.min_confusion_freq {
        let e = ((from, to), k.ocr_confusions[(from, to)]);
        assert(cs.contains(e));
        let i = choose|i: int| 0 <= i < cs.len() && cs[i] == e;
        assert(cs[i].0 == (from, to));
    }
}

} // verus!

//! Variants of a word with one character replaced, as confusions suggest.

use crate::counts::lists_table;
use crate::order::{by_count, ordering_keeps_the_entries, sort_by_count};
use crate::stats::GlobalStats;
use crate::text::{chars_of, text_of};
use vstd::prelude::*;

verus! {

/// A word with one character replaced.
#[derive(Debug)]
pub struct Variant {
    pub text: String,
    pub from: char,
    pub to: char,
    pub pos: usize,
}

/// The mathematical content of a `Variant`.
#[verifier::ext_equal]
pub struct VariantView {
    pub text: Seq<char>,
    pub from: char,
    pub to: char,
    pub pos: nat,
}

impl View for Variant {
    type V = VariantView;

    open spec fn view(&self) -> VariantView {
        VariantView { text: self.text@, from: self.from, to: self.to, pos: self.pos as nat }
    }
}

/// The contents of a list of variants.
pub open spec fn variant_views(vs: Seq<Variant>) -> Seq<VariantView> {
    Seq::new(vs.len(), |i: int| vs[i]@)
}

/// Digits and marks with the letters that they often stand for.
pub open spec fn bootstrap_pairs() -> Seq<(char, char)> {
    seq![
        ('1', 'і'),
        ('1', 'i'),
        ('1', 'л'),
        ('1', 'т'),
        ('0', 'о'),
        ('0', 'c'),
        ('3', 'з'),
        ('3', 'з'),
        ('6', 'б'),
        ('5', 'б'),
        ('9', 'д'),
        ('8', 'в'),
        (';', 'щ'),
        (';', 'ц'),
        (':', 'і'),
        (':', 'и'),
        ('|', 'і'),
        ('|', 'л'),
        ('!', 'і'),
        ('!', 'л'),
        ('\\', 'л'),
        ('/', 'л'),
        ('*', 'ж'),
    ]
}

/// The word with the character at `pos` replaced by `to`.
pub open spec fn variant_at(word: Seq<char>, from: char, to: char, pos: nat) -> VariantView {
    VariantView { text: word.update(pos as int, to), from, to, pos }
}

/// The variants at one position that the first `k` pairs suggest.
pub open spec fn variants_here(word: Seq<char>, pairs: Seq<(char, char)>, pos: nat, k: nat) -> Seq<
    VariantView,
>
    decreases k,
{
    if k == 0 {
        Seq::empty()
    } else {
        let before = variants_here(word, pairs, pos, (k - 1) as nat);
        if word[pos as int] == pairs[k - 1].0 {
            before.push(variant_at(word, pairs[k - 1].0, pairs[k - 1].1, pos))
        } else {
            before
        }
    }
}

/// The variants at the first `n` positions that a list of pairs suggests, position by position.
pub open spec fn variants_by_position(word: Seq<char>, pairs: Seq<(char, char)>, n: nat) -> Seq<
    VariantView,
>
    decreases n,
{
    if n == 0 {
        Seq::empty()
    } else {
        variants_by_position(word, pairs, (n - 1) as nat) + variants_here(
            word,
            pairs,
            (n - 1) as nat,
            pairs.len(),
        )
    }
}

/// The variants at the first `n` positions that one pair suggests.
pub open spec fn variants_of_pair(word: Seq<char>, pair: (char, char), n: nat) -> Seq<VariantView>
    decreases n,
{
    if n == 0 {
        Seq::empty()
    } else {
        let before = variants_of_pair(word, pair, (n - 1) as nat);
        if word[n - 1] == pair.0 {
            before.push(variant_at(word, pair.0, pair.1, (n - 1) as nat))
        } else {
            before
        }
    }
}

/// The variants that the first `k` counted pairs suggest, pair by pair.
pub open spec fn variants_by_pair(
    word: Seq<char>,
    confusions: Seq<((char, char), usize)>,
    k: nat,
) -> Seq<VariantView>
    decreases k,
{
    if k == 0 {
        Seq::empty()
    } else {
        variants_by_pair(word, confusions, (k - 1) as nat) + variants_of_pair(
            word,
            confusions[k - 1].0,
            word.len(),
        )
    }
}

/// Every suggested variant: what digits and marks stand for, and what confusions show.
pub open spec fn suggestions(word: Seq<char>, confusions: Seq<((char, char), usize)>) -> Seq<
    VariantView,
> {
    variants_by_position(word, bootstrap_pairs(), word.len()) + variants_by_pair(
        word,
        confusions,
        confusions.len(),
    )
}

/// Whether `a` comes before `b` from position `i` on, in the order of code points.
pub open spec fn before_from(a: Seq<char>, b: Seq<char>, i: int) -> bool
    decreases a.len() - i,
{
    if i < 0 || i >= b.len() {
        false
    } else if i >= a.len() {
        true
    } else if a[i] != b[i] {
        a[i] < b[i]
    } else {
        before_from(a, b, i + 1)
    }
}

/// Whether text `a` comes before text `b` in the order of code points.
pub open spec fn text_before(a: Seq<char>, b: Seq<char>) -> bool {
    before_from(a, b, 0)
}

/// Whether text `a` comes before text `b` in the order of code points.
pub fn comes_before(a: &[char], b: &[char]) -> (r: bool)
    ensures
        r == text_before(a@, b@),
{
    let mut i: usize = 0;
    loop
        invariant
            i <= a.len(),
            i <= b.len(),
            text_before(a@, b@) == before_from(a@, b@, i as int),
        decreases a.len() - i,
    {
        if i >= b.len() {
            return false;
        }
        if i >= a.len() {
            return true;
        }
        if a[i] != b[i] {
            return a[i] < b[i];
        }
        i += 1;
    }
}

/// The first position in `vs`, from `i` on, whose text does not come before `text`.
pub open spec fn place_from(vs: Seq<VariantView>, text: Seq<char>, i: int) -> int
    decreases vs.len() - i,
{
    if 0 <= i < vs.len() && text_before(vs[i].text, text) {
        place_from(vs, text, i + 1)
    } else {
        i
    }
}

/// A list in the order of its texts with one more variant, unless its text is there already.
pub open spec fn with_variant(vs: Seq<VariantView>, v: VariantView) -> Seq<VariantView> {
    let p = place_from(vs, v.text, 0);
    if p < vs.len() && vs[p].text == v.text {
        vs
    } else {
        vs.insert(p, v)
    }
}

/// The variants in the order of their texts; of several with one text the first stays.
pub open spec fn arranged(vs: Seq<VariantView>) -> Seq<VariantView>
    decreases vs.len(),
{
    if vs.len() == 0 {
        Seq::empty()
    } else {
        with_variant(arranged(vs.drop_last()), vs.last())
    }
}

/// The variants of a word, in the order of their texts and each text once.
pub open spec fn variants_of(word: Seq<char>, confusions: Seq<((char, char), usize)>) -> Seq<
    VariantView,
> {
    arranged(suggestions(word, confusions))
}

proof fn lemma_place(vs: Seq<VariantView>, text: Seq<char>, i: int)
    requires
        0 <= i <= vs.len(),
    ensures
        i <= place_from(vs, text, i) <= vs.len(),
        place_from(vs, text, i) < vs.len() ==> !text_before(vs[place_from(vs, text, i)].text, text),
        forall|x: int| i <= x < place_from(vs, text, i) ==> text_before((#[trigger] vs[x]).text, text),
    decreases vs.len() - i,
{
    if i < vs.len() && text_before(vs[i].text, text) {
        lemma_place(vs, text, i + 1);
    }
}

pub proof fn lemma_before_cases(a: Seq<char>, b: Seq<char>, i: int)
    requires
        0 <= i,
        i <= a.len(),
        i <= b.len(),
        forall|x: int| 0 <= x < i ==> a[x] == b[x],
    ensures
        before_from(a, b, i) ==> a != b,
        !(before_from(a, b, i) && before_from(b, a, i)),
        before_from(a, b, i) || before_from(b, a, i) || a == b,
    decreases a.len() - i,
{
    if i < a.len() && i < b.len() {
        if a[i] == b[i] {
            lemma_before_cases(a, b, i + 1);
        }
    } else if a.len() == b.len() {
        assert(a =~= b);
    }
}

proof fn lemma_before_transitive(a: Seq<char>, b: Seq<char>, c: Seq<char>, i: int)
    requires
        0 <= i,
        before_from(a, b, i),
        before_from(b, c, i),
    ensures
        before_from(a, c, i),
    decreases a.len() - i,
{
    if i < a.len() && i < b.len() && i < c.len() && a[i] == b[i] && b[i] == c[i] {
        lemma_before_transitive(a, b, c, i + 1);
    }
}

/// Whether a list is in the order of its texts, each text once.
pub open spec fn in_text_order(vs: Seq<VariantView>) -> bool {
    forall|i: int, j: int|
        0 <= i < j < vs.len() ==> text_before((#[trigger] vs[i]).text, (#[trigger] vs[j]).text)
}

proof fn lemma_with_variant(vs: Seq<VariantView>, v: VariantView)
    requires
        in_text_order(vs),
    ensures
        in_text_order(with_variant(vs, v)),
        forall|x: VariantView| #[trigger]
            with_variant(vs, v).contains(x) ==> vs.contains(x) || x == v,
        forall|x: VariantView| #[trigger] vs.contains(x) ==> with_variant(vs, v).contains(x),
        exists|k: int|
            0 <= k < with_variant(vs, v).len() && (#[trigger] with_variant(vs, v)[k]).text == v.text,
        (forall|x: int| 0 <= x < vs.len() ==> (#[trigger] vs[x]).text != v.text) ==> with_variant(
            vs,
            v,
        ).contains(v),
{
    let p = place_from(vs, v.text, 0);
    let after = with_variant(vs, v);
    lemma_place(vs, v.text, 0);
    if p < vs.len() && vs[p].text == v.text {
        assert(after[p].text == v.text);
    } else {
        assert(after[p] == v);
        assert forall|x: VariantView| #[trigger] vs.contains(x) implies after.contains(x) by {
            let k = choose|k: int| 0 <= k < vs.len() && vs[k] == x;
            if k < p {
                assert(after[k] == x);
            } else {
                assert(after[k + 1] == x);
            }
        }
        assert forall|x: VariantView| #[trigger] after.contains(x) implies vs.contains(x) || x
            == v by {
            let k = choose|k: int| 0 <= k < after.len() && after[k] == x;
            if k < p {
                assert(vs[k] == x);
            } else if k > p {
                assert(vs[k - 1] == x);
            }
        }
        assert forall|i: int, j: int| 0 <= i < j < after.len() implies text_before(
            (#[trigger] after[i]).text,
            (#[trigger] after[j]).text,
        ) by {
            if p < vs.len() {
                lemma_before_cases(v.text, vs[p].text, 0);
            }
            if i == p {
                assert(after[j] == vs[j - 1]);
                if j - 1 > p {
                    assert(text_before(vs[p].text, vs[j - 1].text));
                    lemma_before_transitive(v.text, vs[p].text, vs[j - 1].text, 0);
                }
            } else if j == p {
                assert(after[i] == vs[i]);
            } else {
                let a = if i < p { i } else { i - 1 };
                let b = if j < p { j } else { j - 1 };
                assert(after[i] == vs[a]);
                assert(after[j] == vs[b]);
            }
        }
    }
}

/// Whether a variant is the first of its text in a list.
pub open spec fn first_of_text(raw: Seq<VariantView>, v: VariantView) -> bool {
    exists|k: int|
        0 <= k < raw.len() && #[trigger] raw[k] == v && forall|x: int|
            0 <= x < k ==> (#[trigger] raw[x]).text != v.text
}

/// Arranging a list puts it in the order of its texts, keeps of each text the variant
/// that came first, and loses no text.
pub proof fn arranging_keeps_first_of_each_text(raw: Seq<VariantView>)
    ensures
        in_text_order(arranged(raw)),
        forall|v: VariantView| #[trigger] arranged(raw).contains(v) ==> first_of_text(raw, v),
        forall|j: int|
            0 <= j < raw.len() ==> exists|k: int|
                0 <= k < arranged(raw).len() && (#[trigger] arranged(raw)[k]).text == (
                #[trigger] raw[j]).text,
    decreases raw.len(),
{
    if raw.len() > 0 {
        let rest = raw.drop_last();
        let last = raw.last();
        let vs = arranged(rest);
        let after = arranged(raw);
        arranging_keeps_first_of_each_text(rest);
        lemma_with_variant(vs, last);
        assert forall|v: VariantView| #[trigger] after.contains(v) implies first_of_text(raw, v) by {
            if vs.contains(v) {
                assert(first_of_text(rest, v));
                let k = choose|k: int|
                    0 <= k < rest.len() && #[trigger] rest[k] == v && forall|x: int|
                        0 <= x < k ==> (#[trigger] rest[x]).text != v.text;
                assert(raw[k] == v);
                assert forall|x: int| 0 <= x < k implies (#[trigger] raw[x]).text != v.text by {
                    assert(rest[x] == raw[x]);
                }
            } else {
                assert(v == last);
                let n = raw.len() - 1;
                assert(raw[n] == v);
                assert forall|x: int| 0 <= x < n implies (#[trigger] raw[x]).text != v.text by {
                    if raw[x].text == v.text {
                        assert(rest[x] == raw[x]);
                        let k = choose|k: int|
                            0 <= k < vs.len() && (#[trigger] vs[k]).text == rest[x].text;
                        lemma_place(vs, v.text, 0);
                        let p = place_from(vs, v.text, 0);
                        lemma_before_cases(vs[k].text, v.text, 0);
                        if p < k {
                            assert(text_before(vs[p].text, vs[k].text));
                        } else if k < p {
                            assert(text_before(vs[k].text, v.text));
                        }
                        assert(p == k);
                        assert(after == vs);
                        assert(vs.contains(v));
                    }
                }
            }
        }
        assert forall|j: int| 0 <= j < raw.len() implies exists|k: int|
            0 <= k < after.len() && (#[trigger] after[k]).text == (#[trigger] raw[j]).text by {
            if j < rest.len() {
                assert(rest[j] == raw[j]);
                let k = choose|k: int| 0 <= k < vs.len() && (#[trigger] vs[k]).text == rest[j].text;
                assert(vs.contains(vs[k]));
                assert(after.contains(vs[k]));
                let m = choose|m: int| 0 <= m < after.len() && after[m] == vs[k];
                assert(after[m].text == raw[j].text);
            } else {
                let k = choose|k: int| 0 <= k < after.len() && (#[trigger] after[k]).text == last.text;
                assert(after[k].text == raw[j].text);
            }
        }
    }
}

/// Whether a variant is the word with one of its characters replaced.
pub open spec fn replaces_one(word: Seq<char>, v: VariantView) -> bool {
    v.pos < word.len() && word[v.pos as int] == v.from && v.text == word.update(
        v.pos as int,
        v.to,
    )
}

/// Whether every variant of a list is the word with one of its characters replaced.
pub open spec fn all_replace_one(word: Seq<char>, vs: Seq<VariantView>) -> bool {
    forall|i: int| 0 <= i < vs.len() ==> replaces_one(word, #[trigger] vs[i])
}

proof fn lemma_here(word: Seq<char>, pairs: Seq<(char, char)>, pos: nat, k: nat)
    requires
        pos < word.len(),
    ensures
        all_replace_one(word, variants_here(word, pairs, pos, k)),
    decreases k,
{
    if k > 0 {
        lemma_here(word, pairs, pos, (k - 1) as nat);
    }
}

proof fn lemma_by_position(word: Seq<char>, pairs: Seq<(char, char)>, n: nat)
    requires
        n <= word.len(),
    ensures
        all_replace_one(word, variants_by_position(word, pairs, n)),
    decreases n,
{
    if n > 0 {
        lemma_by_position(word, pairs, (n - 1) as nat);
        lemma_here(word, pairs, (n - 1) as nat, pairs.len());
    }
}

proof fn lemma_of_pair(word: Seq<char>, pair: (char, char), n: nat)
    requires
        n <= word.len(),
    ensures
        all_replace_one(word, variants_of_pair(word, pair, n)),
    decreases n,
{
    if n > 0 {
        lemma_of_pair(word, pair, (n - 1) as nat);
    }
}

proof fn lemma_by_pair(word: Seq<char>, confusions: Seq<((char, char), usize)>, k: nat)
    ensures
        all_replace_one(word, variants_by_pair(word, confusions, k)),
    decreases k,
{
    if k > 0 {
        lemma_by_pair(word, confusions, (k - 1) as nat);
        lemma_of_pair(word, confusions[k - 1].0, word.len());
    }
}

/// Every variant of a word is the word with one character replaced, at the position and by
/// the character that the variant names.
pub proof fn variants_replace_one_character(
    word: Seq<char>,
    confusions: Seq<((char, char), usize)>,
    i: int,
)
    requires
        0 <= i < variants_of(word, confusions).len(),
    ensures
        replaces_one(word, variants_of(word, confusions)[i]),
{
    let raw = suggestions(word, confusions);
    let v = variants_of(word, confusions)[i];
    lemma_by_position(word, bootstrap_pairs(), word.len());
    lemma_by_pair(word, confusions, confusions.len());
    arranging_keeps_first_of_each_text(raw);
    assert(arranged(raw).contains(v));
    assert(first_of_text(raw, v));
}

/// Puts a variant into its place among the others, unless its text is there already.
fn place_variant(vs: &mut Vec<Variant>, v: Variant)
    ensures
        variant_views(final(vs)@) == with_variant(variant_views(old(vs)@), v@),
{
    let ghost all = variant_views(vs@);
    let text = chars_of(v.text.as_str());
    let mut p: usize = 0;
    while p < vs.len() && comes_before(chars_of(vs[p].text.as_str()).as_slice(), text.as_slice())
        invariant
            p <= vs.len(),
            vs@ == old(vs)@,
            all == variant_views(vs@),
            text@ == v.text@,
            place_from(all, v@.text, 0) == place_from(all, v@.text, p as int),
        decreases vs.len() - p,
    {
        p += 1;
    }
    if p < vs.len() && vs[p].text == v.text {
        return;
    }
    vs.insert(p, v);
    assert(variant_views(vs@) =~= all.insert(p as int, v@));
}

/// Adds the variant at `pos` to the arranged ones.
fn add_variant(vs: &mut Vec<Variant>, word: &Vec<char>, from: char, to: char, pos: usize)
    requires
        pos < word@.len(),
    ensures
        variant_views(final(vs)@) == with_variant(
            variant_views(old(vs)@),
            variant_at(word@, from, to, pos as nat),
        ),
{
    let mut nc = vstd::slice::slice_to_vec(word.as_slice());
    nc.set(pos, to);
    place_variant(vs, Variant { text: text_of(nc.as_slice()), from, to, pos });
}

/// The variants of a word that digits and marks suggest, and the confusions given.
pub fn variants_with(word_lower: &str, confusions: &[((char, char), usize)]) -> (r: Vec<
    Variant,
>)
    ensures
        variant_views(r@) == variants_of(word_lower@, confusions@),
{
    let word = chars_of(word_lower);
    let ghost w = word@;
    let boot: [(char, char); 23] = [
        ('1', 'і'),
        ('1', 'i'),
        ('1', 'л'),
        ('1', 'т'),
        ('0', 'о'),
        ('0', 'c'),
        ('3', 'з'),
        ('3', 'з'),
        ('6', 'б'),
        ('5', 'б'),
        ('9', 'д'),
        ('8', 'в'),
        (';', 'щ'),
        (';', 'ц'),
        (':', 'і'),
        (':', 'и'),
        ('|', 'і'),
        ('|', 'л'),
        ('!', 'і'),
        ('!', 'л'),
        ('\\', 'л'),
        ('/', 'л'),
        ('*', 'ж'),
    ];
    let ghost pairs = bootstrap_pairs();
    assert(boot@ =~= pairs);
    let mut out: Vec<Variant> = Vec::new();
    let mut i: usize = 0;
    assert(variant_views(out@) =~= arranged(variants_by_position(w, pairs, 0)));
    while i < word.len()
        invariant
            i <= word.len(),
            w == word@,
            boot@ == pairs,
            variant_views(out@) == arranged(variants_by_position(w, pairs, i as nat)),
        decreases word.len() - i,
    {
        let ghost base = variants_by_position(w, pairs, i as nat);
        let mut k: usize = 0;
        assert(base + variants_here(w, pairs, i as nat, 0) =~= base);
        while k < boot.len()
            invariant
                i < word.len(),
                k <= boot.len(),
                w == word@,
                boot@ == pairs,
                base == variants_by_position(w, pairs, i as nat),
                variant_views(out@) == arranged(base + variants_here(w, pairs, i as nat, k as nat)),
            decreases boot.len() - k,
        {
            let ghost sofar = base + variants_here(w, pairs, i as nat, k as nat);
            let ghost next = base + variants_here(w, pairs, i as nat, (k + 1) as nat);
            let (from, to) = boot[k];
            assert(pairs[k as int] == (from, to));
            if word[i] == from {
                add_variant(&mut out, &word, from, to, i);
                proof {
                    assert(next =~= sofar.push(variant_at(w, from, to, i as nat)));
                    assert(next.drop_last() =~= sofar);
                }
            } else {
                assert(next =~= sofar);
            }
            k += 1;
        }
        i += 1;
    }
    let ghost first = variants_by_position(w, pairs, w.len());
    let mut c: usize = 0;
    assert(first + variants_by_pair(w, confusions@, 0) =~= first);
    while c < confusions.len()
        invariant
            c <= confusions.len(),
            w == word@,
            first == variants_by_position(w, pairs, w.len()),
            variant_views(out@) == arranged(first + variants_by_pair(w, confusions@, c as nat)),
        decreases confusions.len() - c,
    {
        let ghost base = first + variants_by_pair(w, confusions@, c as nat);
        let pair = confusions[c].0;
        let mut j: usize = 0;
        assert(base + variants_of_pair(w, pair, 0) =~= base);
        while j < word.len()
            invariant
                j <= word.len(),
                w == word@,
                variant_views(out@) == arranged(base + variants_of_pair(w, pair, j as nat)),
            decreases word.len() - j,
        {
            let ghost sofar = base + variants_of_pair(w, pair, j as nat);
            let ghost next = base + variants_of_pair(w, pair, (j + 1) as nat);
            if word[j] == pair.0 {
                add_variant(&mut out, &word, pair.0, pair.1, j);
                proof {
                    assert(next =~= sofar.push(variant_at(w, pair.0, pair.1, j as nat)));
                    assert(next.drop_last() =~= sofar);
                }
            } else {
                assert(next =~= sofar);
            }
            j += 1;
        }
        proof {
            assert(first + variants_by_pair(w, confusions@, (c + 1) as nat) =~= base
                + variants_of_pair(w, pair, w.len()));
        }
        c += 1;
    }
    out
}

/// The entries that were counted at least `min` times, in order.
pub open spec fn at_least<K>(es: Seq<(K, usize)>, min: usize) -> Seq<(K, usize)>
    decreases es.len(),
{
    if es.len() == 0 {
        Seq::empty()
    } else if es.last().1 >= min {
        at_least(es.drop_last(), min).push(es.last())
    } else {
        at_least(es.drop_last(), min)
    }
}

proof fn lemma_at_least<K>(es: Seq<(K, usize)>, min: usize, e: (K, usize))
    ensures
        at_least(es, min).contains(e) <==> es.contains(e) && e.1 >= min,
    decreases es.len(),
{
    if es.len() > 0 {
        let rest = es.drop_last();
        let kept = at_least(es, min);
        lemma_at_least(rest, min, e);
        assert(es =~= rest.push(es.last()));
        if es.contains(e) {
            let x = choose|x: int| 0 <= x < es.len() && es[x] == e;
            if x < rest.len() {
                assert(rest[x] == e);
            }
        }
        if rest.contains(e) {
            let x = choose|x: int| 0 <= x < rest.len() && rest[x] == e;
            assert(es[x] == e);
        }
        if e == es.last() {
            assert(es[es.len() - 1] == e);
        }
        let before = at_least(rest, min);
        if es.last().1 >= min {
            assert(kept == before.push(es.last()));
            if before.contains(e) {
                let x = choose|x: int| 0 <= x < before.len() && before[x] == e;
                assert(kept[x] == e);
            }
            if e == es.last() {
                assert(kept[kept.len() - 1] == e);
            }
            if kept.contains(e) {
                let x = choose|x: int| 0 <= x < kept.len() && kept[x] == e;
                if x < before.len() {
                    assert(before[x] == e);
                }
            }
        }
    }
}

/// Of a list of counted pairs, those counted at least `min` times, the greatest counts first.
pub fn rank_confusions(es: &[((char, char), usize)], min: usize) -> (r: Vec<((char, char), usize)>)
    ensures
        r@ == by_count(at_least(es@, min)),
        forall|e: ((char, char), usize)| #[trigger]
            r@.contains(e) <==> es@.contains(e) && e.1 >= min,
{
    let mut kept: Vec<((char, char), usize)> = Vec::new();
    let mut i: usize = 0;
    while i < es.len()
        invariant
            i <= es.len(),
            kept@ == at_least(es@.take(i as int), min),
        decreases es.len() - i,
    {
        assert(es@.take(i + 1).drop_last() =~= es@.take(i as int));
        if es[i].1 >= min {
            kept.push(es[i]);
        }
        i += 1;
    }
    assert(es@.take(es@.len() as int) =~= es@);
    proof {
        assert forall|e: ((char, char), usize)| #[trigger]
            kept@.contains(e) <==> es@.contains(e) && e.1 >= min by {
            lemma_at_least(es@, min, e);
        }
    }
    sort_by_count(kept.as_slice())
}

/// Whether a list names every entry that was counted at least `min` times, and nothing else.
pub open spec fn lists_frequent(
    cs: Seq<((char, char), usize)>,
    m: Map<(char, char), usize>,
    min: usize,
) -> bool {
    forall|e: ((char, char), usize)| #[trigger]
        cs.contains(e) <==> m.contains_key(e.0) && m[e.0] == e.1 && e.1 >= min
}

/// The confusions that were counted at least `min` times, the most frequent first.
/// Confusions of one count come in no particular order.
pub fn frequent_confusions(stats: &GlobalStats, min: usize) -> (r: Vec<((char, char), usize)>)
    ensures
        exists|es: Seq<((char, char), usize)>| #[trigger]
            lists_table(es, stats.ocr_confusions@) && r@ == by_count(at_least(es, min)),
        lists_frequent(r@, stats.ocr_confusions@, min),
{
    let es = stats.ocr_confusions.entries();
    let r = rank_confusions(es.as_slice(), min);
    proof {
        let m = stats.ocr_confusions@;
        assert forall|e: ((char, char), usize)| #[trigger]
            r@.contains(e) <==> m.contains_key(e.0) && m[e.0] == e.1 && e.1 >= min by {
            if es@.contains(e) {
                let x = choose|x: int| 0 <= x < es@.len() && es@[x] == e;
                assert(m.contains_key(es@[x].0));
            }
            if m.contains_key(e.0) && m[e.0] == e.1 {
                let x = choose|x: int| 0 <= x < es@.len() && es@[x].0 == e.0;
                assert(es@[x] == e);
            }
        }
    }
    r
}

/// The variants of a word that digits and marks suggest, and the confusions that were counted
/// at least `min_freq` times.
pub fn generate_ocr_variants(word_lower: &str, stats: &GlobalStats, min_freq: usize) -> (r: Vec<
    Variant,
>)
    ensures
        exists|es: Seq<((char, char), usize)>| #[trigger]
            lists_table(es, stats.ocr_confusions@) && variant_views(r@) == variants_of(
                word_lower@,
                by_count(at_least(es, min_freq)),
            ),
{
    let confusions = frequent_confusions(stats, min_freq);
    variants_with(word_lower, confusions.as_slice())
}

/// Whether a list of counted pairs names a pair.
pub open spec fn names_pair(cs: Seq<((char, char), usize)>, pair: (char, char)) -> bool {
    exists|i: int| 0 <= i < cs.len() && (#[trigger] cs[i]).0 == pair
}

/// Whether two lists of counted pairs name the same pairs.
pub open spec fn same_pairs(a: Seq<((char, char), usize)>, b: Seq<((char, char), usize)>) -> bool {
    forall|pair: (char, char)|
        #![trigger names_pair(a, pair)]
        #![trigger names_pair(b, pair)]
        names_pair(a, pair) == names_pair(b, pair)
}

/// Whether no counted pair pairs a character with itself.
pub open spec fn pairs_differ(cs: Seq<((char, char), usize)>) -> bool {
    forall|i: int| 0 <= i < cs.len() ==> (#[trigger] cs[i]).0.0 != cs[i].0.1
}

/// Whether a variant is suggested at its position by one of the first `k` counted pairs.
pub open spec fn suggested_by(
    word: Seq<char>,
    cs: Seq<((char, char), usize)>,
    k: nat,
    v: VariantView,
) -> bool {
    v.pos < word.len() && exists|x: int|
        0 <= x < k && word[v.pos as int] == (#[trigger] cs[x]).0.0 && v == variant_at(
            word,
            cs[x].0.0,
            cs[x].0.1,
            v.pos,
        )
}

proof fn lemma_of_pair_members(word: Seq<char>, pair: (char, char), n: nat, v: VariantView)
    requires
        n <= word.len(),
    ensures
        variants_of_pair(word, pair, n).contains(v) <==> v.pos < n && word[v.pos as int] == pair.0
            && v == variant_at(word, pair.0, pair.1, v.pos),
    decreases n,
{
    let here = variants_of_pair(word, pair, n);
    if n > 0 {
        let before = variants_of_pair(word, pair, (n - 1) as nat);
        lemma_of_pair_members(word, pair, (n - 1) as nat, v);
        let last = variant_at(word, pair.0, pair.1, (n - 1) as nat);
        if word[n - 1] == pair.0 {
            assert(here == before.push(last));
            if before.contains(v) {
                let x = choose|x: int| 0 <= x < before.len() && before[x] == v;
                assert(here[x] == v);
            }
            if v == last {
                assert(here[here.len() - 1] == v);
            }
            if here.contains(v) {
                let x = choose|x: int| 0 <= x < here.len() && here[x] == v;
                if x < before.len() {
                    assert(before[x] == v);
                }
            }
        }
    }
}

pub proof fn lemma_by_pair_members(
    word: Seq<char>,
    cs: Seq<((char, char), usize)>,
    k: nat,
    v: VariantView,
)
    requires
        k <= cs.len(),
    ensures
        variants_by_pair(word, cs, k).contains(v) <==> suggested_by(word, cs, k, v),
    decreases k,
{
    if k > 0 {
        let before = variants_by_pair(word, cs, (k - 1) as nat);
        let here = variants_of_pair(word, cs[k - 1].0, word.len());
        lemma_by_pair_members(word, cs, (k - 1) as nat, v);
        lemma_of_pair_members(word, cs[k - 1].0, word.len(), v);
        lemma_contained_in_sum(before, here, v);
        if suggested_by(word, cs, k, v) {
            let x = choose|x: int|
                0 <= x < k && word[v.pos as int] == (#[trigger] cs[x]).0.0 && v == variant_at(
                    word,
                    cs[x].0.0,
                    cs[x].0.1,
                    v.pos,
                );
            assert(x < k - 1 ==> suggested_by(word, cs, (k - 1) as nat, v));
        }
        if here.contains(v) {
            assert(word[v.pos as int] == cs[k - 1].0.0);
        }
    }
}

pub proof fn lemma_contained_in_sum(a: Seq<VariantView>, b: Seq<VariantView>, v: VariantView)
    ensures
        (a + b).contains(v) <==> a.contains(v) || b.contains(v),
{
    let all = a + b;
    if all.contains(v) {
        let x = choose|x: int| 0 <= x < all.len() && all[x] == v;
        if x < a.len() {
            assert(a[x] == v);
        } else {
            assert(b[x - a.len()] == v);
        }
    }
    if a.contains(v) {
        let x = choose|x: int| 0 <= x < a.len() && a[x] == v;
        assert(all[x] == v);
    }
    if b.contains(v) {
        let x = choose|x: int| 0 <= x < b.len() && b[x] == v;
        assert(all[a.len() + x] == v);
    }
}

proof fn lemma_same_suggestions(
    word: Seq<char>,
    a: Seq<((char, char), usize)>,
    b: Seq<((char, char), usize)>,
    v: VariantView,
)
    requires
        same_pairs(a, b),
        suggestions(word, a).contains(v),
    ensures
        suggestions(word, b).contains(v),
{
    let boot = variants_by_position(word, bootstrap_pairs(), word.len());
    let by_a = variants_by_pair(word, a, a.len());
    let by_b = variants_by_pair(word, b, b.len());
    lemma_contained_in_sum(boot, by_a, v);
    lemma_contained_in_sum(boot, by_b, v);
    lemma_by_pair_members(word, a, a.len(), v);
    lemma_by_pair_members(word, b, b.len(), v);
    if by_a.contains(v) {
        let x = choose|x: int|
            0 <= x < a.len() && word[v.pos as int] == (#[trigger] a[x]).0.0 && v == variant_at(
                word,
                a[x].0.0,
                a[x].0.1,
                v.pos,
            );
        assert(names_pair(a, a[x].0));
        assert(names_pair(b, a[x].0));
        let y = choose|y: int| 0 <= y < b.len() && (#[trigger] b[y]).0 == a[x].0;
        assert(word[v.pos as int] == b[y].0.0);
        assert(suggested_by(word, b, b.len(), v));
    }
}

/// Whether a variant replaces a character by another one.
pub open spec fn really_replaces(word: Seq<char>, v: VariantView) -> bool {
    replaces_one(word, v) && v.from != v.to
}

proof fn lemma_text_tells_variant(word: Seq<char>, v: VariantView, w: VariantView)
    requires
        really_replaces(word, v),
        really_replaces(word, w),
        v.text == w.text,
    ensures
        v == w,
{
    assert(v.text[v.pos as int] == v.to);
    assert(w.text[w.pos as int] == w.to);
    if v.pos != w.pos {
        assert(w.text[v.pos as int] == word[v.pos as int]);
    }
}

proof fn lemma_here_replaces(word: Seq<char>, pairs: Seq<(char, char)>, pos: nat, k: nat)
    requires
        pos < word.len(),
        k <= pairs.len(),
        forall|x: int| 0 <= x < pairs.len() ==> (#[trigger] pairs[x]).0 != pairs[x].1,
    ensures
        forall|i: int|
            0 <= i < variants_here(word, pairs, pos, k).len() ==> really_replaces(
                word,
                #[trigger] variants_here(word, pairs, pos, k)[i],
            ),
    decreases k,
{
    if k > 0 {
        lemma_here_replaces(word, pairs, pos, (k - 1) as nat);
        let before = variants_here(word, pairs, pos, (k - 1) as nat);
        let here = variants_here(word, pairs, pos, k);
        assert(pairs[k - 1].0 != pairs[k - 1].1);
        assert forall|i: int| 0 <= i < here.len() implies really_replaces(
            word,
            #[trigger] here[i],
        ) by {
            if i < before.len() {
                assert(really_replaces(word, before[i]));
            }
        }
    }
}

proof fn lemma_by_position_replaces(word: Seq<char>, pairs: Seq<(char, char)>, n: nat)
    requires
        n <= word.len(),
        forall|x: int| 0 <= x < pairs.len() ==> (#[trigger] pairs[x]).0 != pairs[x].1,
    ensures
        forall|i: int|
            0 <= i < variants_by_position(word, pairs, n).len() ==> really_replaces(
                word,
                #[trigger] variants_by_position(word, pairs, n)[i],
            ),
    decreases n,
{
    if n > 0 {
        let before = variants_by_position(word, pairs, (n - 1) as nat);
        let here = variants_here(word, pairs, (n - 1) as nat, pairs.len());
        let all = variants_by_position(word, pairs, n);
        lemma_by_position_replaces(word, pairs, (n - 1) as nat);
        lemma_here_replaces(word, pairs, (n - 1) as nat, pairs.len());
        assert forall|i: int| 0 <= i < all.len() implies really_replaces(word, #[trigger] all[i]) by {
            if i < before.len() {
                assert(really_replaces(word, before[i]));
            } else {
                assert(really_replaces(word, here[i - before.len()]));
            }
        }
    }
}

proof fn lemma_suggestion_replaces(
    word: Seq<char>,
    cs: Seq<((char, char), usize)>,
    v: VariantView,
)
    requires
        pairs_differ(cs),
        suggestions(word, cs).contains(v),
    ensures
        really_replaces(word, v),
{
    let boot = variants_by_position(word, bootstrap_pairs(), word.len());
    let by = variants_by_pair(word, cs, cs.len());
    lemma_contained_in_sum(boot, by, v);
    lemma_by_position_replaces(word, bootstrap_pairs(), word.len());
    lemma_by_pair_members(word, cs, cs.len(), v);
    if boot.contains(v) {
        let x = choose|x: int| 0 <= x < boot.len() && boot[x] == v;
        assert(really_replaces(word, boot[x]));
    }
}

proof fn lemma_ordered_lists_agree(a: Seq<VariantView>, b: Seq<VariantView>)
    requires
        in_text_order(a),
        in_text_order(b),
        forall|v: VariantView| #[trigger] a.contains(v) <==> b.contains(v),
    ensures
        a == b,
    decreases a.len(),
{
    if a.len() == 0 {
        if b.len() > 0 {
            assert(b.contains(b[0]));
            assert(a.contains(b[0]));
        }
        assert(a =~= b);
    } else {
        let la = a.last();
        assert(a[a.len() - 1] == la && a.contains(la));
        assert(b.contains(la));
        let i = choose|i: int| 0 <= i < b.len() && b[i] == la;
        let lb = b.last();
        assert(b[b.len() - 1] == lb && b.contains(lb));
        assert(a.contains(lb));
        let j = choose|j: int| 0 <= j < a.len() && a[j] == lb;
        lemma_before_cases(la.text, lb.text, 0);
        assert(i == b.len() - 1) by {
            if i < b.len() - 1 {
                assert(text_before(b[i].text, b[b.len() - 1].text));
                if j < a.len() - 1 {
                    assert(text_before(a[j].text, a[a.len() - 1].text));
                }
            }
        }
        assert(la == lb);
        let ra = a.drop_last();
        let rb = b.drop_last();
        assert forall|v: VariantView| #[trigger] ra.contains(v) <==> rb.contains(v) by {
            if ra.contains(v) {
                let x = choose|x: int| 0 <= x < ra.len() && ra[x] == v;
                assert(a[x] == v && a.contains(v));
                assert(text_before(a[x].text, a[a.len() - 1].text));
                lemma_before_cases(v.text, la.text, 0);
                let y = choose|y: int| 0 <= y < b.len() && b[y] == v;
                assert(y < b.len() - 1);
                assert(rb[y] == v);
            }
            if rb.contains(v) {
                let x = choose|x: int| 0 <= x < rb.len() && rb[x] == v;
                assert(b[x] == v && b.contains(v));
                assert(a.contains(v));
                assert(text_before(b[x].text, b[b.len() - 1].text));
                lemma_before_cases(v.text, lb.text, 0);
                let y = choose|y: int| 0 <= y < a.len() && a[y] == v;
                assert(y < a.len() - 1);
                assert(ra[y] == v);
            }
        }
        lemma_ordered_lists_agree(ra, rb);
        assert(a =~= ra.push(la));
        assert(b =~= rb.push(lb));
    }
}

proof fn lemma_arranged_members(
    word: Seq<char>,
    a: Seq<((char, char), usize)>,
    b: Seq<((char, char), usize)>,
    v: VariantView,
)
    requires
        same_pairs(a, b),
        pairs_differ(a),
        pairs_differ(b),
        variants_of(word, a).contains(v),
    ensures
        variants_of(word, b).contains(v),
{
    let ra = suggestions(word, a);
    let rb = suggestions(word, b);
    let out = variants_of(word, b);
    arranging_keeps_first_of_each_text(ra);
    arranging_keeps_first_of_each_text(rb);
    assert(first_of_text(ra, v));
    assert(ra.contains(v));
    lemma_same_suggestions(word, a, b, v);
    lemma_suggestion_replaces(word, a, v);
    let j = choose|j: int| 0 <= j < rb.len() && rb[j] == v;
    let k = choose|k: int| 0 <= k < out.len() && (#[trigger] out[k]).text == rb[j].text;
    let w = out[k];
    assert(out.contains(w));
    assert(first_of_text(rb, w));
    assert(rb.contains(w));
    lemma_suggestion_replaces(word, b, w);
    lemma_text_tells_variant(word, v, w);
}

/// The variants of a word do not depend on the order in which confusions are listed, as long
/// as no confusion pairs a character with itself.
pub proof fn variants_do_not_depend_on_order(
    word: Seq<char>,
    a: Seq<((char, char), usize)>,
    b: Seq<((char, char), usize)>,
)
    requires
        same_pairs(a, b),
        pairs_differ(a),
    ensures
        variants_of(word, a) == variants_of(word, b),
{
    assert(pairs_differ(b)) by {
        assert forall|j: int| 0 <= j < b.len() implies (#[trigger] b[j]).0.0 != b[j].0.1 by {
            assert(names_pair(b, b[j].0));
            assert(names_pair(a, b[j].0));
            let i = choose|i: int| 0 <= i < a.len() && (#[trigger] a[i]).0 == b[j].0;
            assert(a[i].0.0 != a[i].0.1);
        }
    }
    let va = variants_of(word, a);
    let vb = variants_of(word, b);
    arranging_keeps_first_of_each_text(suggestions(word, a));
    arranging_keeps_first_of_each_text(suggestions(word, b));
    assert forall|v: VariantView| #[trigger] va.contains(v) <==> vb.contains(v) by {
        if va.contains(v) {
            lemma_arranged_members(word, a, b, v);
        }
        if vb.contains(v) {
            lemma_arranged_members(word, b, a, v);
        }
    }
    lemma_ordered_lists_agree(va, vb);
}

proof fn lemma_here_contains(word: Seq<char>, pairs: Seq<(char, char)>, pos: nat, k: nat, x: int)
    requires
        0 <= x < k <= pairs.len(),
        word[pos as int] == pairs[x].0,
    ensures
        variants_here(word, pairs, pos, k).contains(
            variant_at(word, pairs[x].0, pairs[x].1, pos),
        ),
    decreases k,
{
    let v = variant_at(word, pairs[x].0, pairs[x].1, pos);
    let here = variants_here(word, pairs, pos, k);
    let before = variants_here(word, pairs, pos, (k - 1) as nat);
    if x == k - 1 {
        assert(here[here.len() - 1] == v);
    } else {
        lemma_here_contains(word, pairs, pos, (k - 1) as nat, x);
        let i = choose|i: int| 0 <= i < before.len() && before[i] == v;
        assert(here[i] == v);
    }
}

proof fn lemma_by_position_contains(
    word: Seq<char>,
    pairs: Seq<(char, char)>,
    n: nat,
    pos: nat,
    x: int,
)
    requires
        pos < n <= word.len(),
        0 <= x < pairs.len(),
        word[pos as int] == pairs[x].0,
    ensures
        variants_by_position(word, pairs, n).contains(
            variant_at(word, pairs[x].0, pairs[x].1, pos),
        ),
    decreases n,
{
    let v = variant_at(word, pairs[x].0, pairs[x].1, pos);
    let before = variants_by_position(word, pairs, (n - 1) as nat);
    let here = variants_here(word, pairs, (n - 1) as nat, pairs.len());
    lemma_contained_in_sum(before, here, v);
    if pos == n - 1 {
        lemma_here_contains(word, pairs, pos, pairs.len(), x);
    } else {
        lemma_by_position_contains(word, pairs, (n - 1) as nat, pos, x);
    }
}

/// Every digit or mark in a word makes a variant of each letter that it often stands for,
/// whatever the confusions suggest.
pub proof fn digits_and_marks_make_variants(
    word: Seq<char>,
    confusions: Seq<((char, char), usize)>,
    pos: nat,
    x: int,
)
    requires
        pos < word.len(),
        0 <= x < bootstrap_pairs().len(),
        word[pos as int] == bootstrap_pairs()[x].0,
    ensures
        variants_of(word, confusions).contains(
            variant_at(word, bootstrap_pairs()[x].0, bootstrap_pairs()[x].1, pos),
        ),
{
    let pairs = bootstrap_pairs();
    let v = variant_at(word, pairs[x].0, pairs[x].1, pos);
    let boot = variants_by_position(word, pairs, word.len());
    let raw = suggestions(word, confusions);
    let out = variants_of(word, confusions);
    lemma_by_position_contains(word, pairs, word.len(), pos, x);
    lemma_by_position_replaces(word, pairs, word.len());
    let i = choose|i: int| 0 <= i < boot.len() && boot[i] == v;
    assert(raw[i] == v);
    arranging_keeps_first_of_each_text(raw);
    let k = choose|k: int| 0 <= k < out.len() && (#[trigger] out[k]).text == raw[i].text;
    let w = out[k];
    assert(out.contains(w));
    assert(first_of_text(raw, w));
    let j = choose|j: int|
        0 <= j < raw.len() && #[trigger] raw[j] == w && forall|y: int|
            0 <= y < j ==> (#[trigger] raw[y]).text != w.text;
    assert(j <= i) by {
        if i < j {
            assert(raw[i].text != w.text);
        }
    }
    assert(raw[j] == boot[j]);
    assert(really_replaces(word, boot[j]));
    assert(really_replaces(word, boot[i]));
    lemma_text_tells_variant(word, v, w);
}

/// The variants of a list whose text is not the word itself, in order.
pub open spec fn others(vs: Seq<VariantView>, word: Seq<char>) -> Seq<VariantView>
    decreases vs.len(),
{
    if vs.len() == 0 {
        Seq::empty()
    } else if vs.last().text != word {
        others(vs.drop_last(), word).push(vs.last())
    } else {
        others(vs.drop_last(), word)
    }
}

proof fn lemma_others(vs: Seq<VariantView>, word: Seq<char>)
    requires
        in_text_order(vs),
    ensures
        in_text_order(others(vs, word)),
        forall|v: VariantView| #[trigger]
            others(vs, word).contains(v) <==> vs.contains(v) && v.text != word,
    decreases vs.len(),
{
    if vs.len() > 0 {
        let rest = vs.drop_last();
        let last = vs.last();
        let before = others(rest, word);
        let out = others(vs, word);
        assert forall|i: int, j: int| 0 <= i < j < rest.len() implies text_before(
            (#[trigger] rest[i]).text,
            (#[trigger] rest[j]).text,
        ) by {
            assert(text_before(vs[i].text, vs[j].text));
        }
        lemma_others(rest, word);
        assert(vs =~= rest.push(last));
        assert forall|v: VariantView| #[trigger] out.contains(v) <==> vs.contains(v) && v.text
            != word by {
            lemma_contained_in_sum(rest, seq![last], v);
            assert(rest + seq![last] =~= vs);
            assert(seq![last].contains(v) <==> v == last) by {
                assert(seq![last][0] == last);
            }
            if last.text != word {
                lemma_contained_in_sum(before, seq![last], v);
                assert(before + seq![last] =~= out);
            }
            assert(before.contains(v) <==> rest.contains(v) && v.text != word);
        }
        if last.text != word {
            assert forall|i: int, j: int| 0 <= i < j < out.len() implies text_before(
                (#[trigger] out[i]).text,
                (#[trigger] out[j]).text,
            ) by {
                if j < before.len() {
                    assert(text_before(before[i].text, before[j].text));
                } else {
                    assert(before.contains(before[i]));
                    let x = choose|x: int| 0 <= x < rest.len() && rest[x] == before[i];
                    assert(text_before(vs[x].text, vs[vs.len() - 1].text));
                }
            }
        }
    }
}

proof fn lemma_other_members(
    word: Seq<char>,
    a: Seq<((char, char), usize)>,
    b: Seq<((char, char), usize)>,
    v: VariantView,
)
    requires
        same_pairs(a, b),
        variants_of(word, a).contains(v),
        v.text != word,
    ensures
        variants_of(word, b).contains(v),
{
    let ra = suggestions(word, a);
    let rb = suggestions(word, b);
    let va = variants_of(word, a);
    let vb = variants_of(word, b);
    arranging_keeps_first_of_each_text(ra);
    arranging_keeps_first_of_each_text(rb);
    assert(first_of_text(ra, v));
    assert(ra.contains(v));
    lemma_same_suggestions(word, a, b, v);
    let i = choose|i: int| 0 <= i < va.len() && va[i] == v;
    variants_replace_one_character(word, a, i);
    let j = choose|j: int| 0 <= j < rb.len() && rb[j] == v;
    let k = choose|k: int| 0 <= k < vb.len() && (#[trigger] vb[k]).text == rb[j].text;
    variants_replace_one_character(word, b, k);
    lemma_other_text_replaces(word, v);
    lemma_other_text_replaces(word, vb[k]);
    lemma_text_tells_variant(word, v, vb[k]);
}

proof fn lemma_other_text_replaces(word: Seq<char>, v: VariantView)
    requires
        replaces_one(word, v),
        v.text != word,
    ensures
        really_replaces(word, v),
{
    if v.from == v.to {
        assert(v.text =~= word);
    }
}

/// The order in which confusions are listed makes no difference to the variants of a word that
/// are not the word itself.
pub proof fn other_variants_do_not_depend_on_order(
    word: Seq<char>,
    a: Seq<((char, char), usize)>,
    b: Seq<((char, char), usize)>,
)
    requires
        same_pairs(a, b),
    ensures
        others(variants_of(word, a), word) == others(variants_of(word, b), word),
{
    let va = variants_of(word, a);
    let vb = variants_of(word, b);
    arranging_keeps_first_of_each_text(suggestions(word, a));
    arranging_keeps_first_of_each_text(suggestions(word, b));
    lemma_others(va, word);
    lemma_others(vb, word);
    assert forall|v: VariantView| #[trigger] others(va, word).contains(v) <==> others(
        vb,
        word,
    ).contains(v) by {
        if va.contains(v) && v.text != word {
            lemma_other_members(word, a, b, v);
        }
        if vb.contains(v) && v.text != word {
            lemma_other_members(word, b, a, v);
        }
    }
    lemma_ordered_lists_agree(others(va, word), others(vb, word));
}

proof fn lemma_at_least_len<K>(es: Seq<(K, usize)>, min: usize)
    ensures
        at_least(es, min).len() <= es.len(),
    decreases es.len(),
{
    if es.len() > 0 {
        lemma_at_least_len(es.drop_last(), min);
    }
}

/// Every list of the confusions that were counted often enough names the pairs that any
/// listing of the table gives.
pub proof fn frequent_lists_name_the_same_pairs(
    cs: Seq<((char, char), usize)>,
    es: Seq<((char, char), usize)>,
    m: Map<(char, char), usize>,
    min: usize,
)
    requires
        lists_frequent(cs, m, min),
        lists_table(es, m),
        es.len() <= usize::MAX,
    ensures
        same_pairs(cs, by_count(at_least(es, min))),
{
    let kept = at_least(es, min);
    let sorted = by_count(kept);
    lemma_at_least_len(es, min);
    ordering_keeps_the_entries(kept);
    assert forall|pair: (char, char)| names_pair(cs, pair) == names_pair(sorted, pair) by {
        if names_pair(cs, pair) {
            let i = choose|i: int| 0 <= i < cs.len() && (#[trigger] cs[i]).0 == pair;
            let e = cs[i];
            assert(cs.contains(e));
            let x = choose|x: int| 0 <= x < es.len() && es[x].0 == pair;
            assert(es[x] == e);
            assert(es.contains(e));
            lemma_at_least(es, min, e);
            assert(sorted.contains(e));
            let y = choose|y: int| 0 <= y < sorted.len() && sorted[y] == e;
            assert(sorted[y].0 == pair);
        }
        if names_pair(sorted, pair) {
            let i = choose|i: int| 0 <= i < sorted.len() && (#[trigger] sorted[i]).0 == pair;
            let e = sorted[i];
            assert(sorted.contains(e));
            assert(kept.contains(e));
            lemma_at_least(es, min, e);
            let x = choose|x: int| 0 <= x < es.len() && es[x] == e;
            assert(m.contains_key(es[x].0));
            assert(cs.contains(e));
            let y = choose|y: int| 0 <= y < cs.len() && cs[y] == e;
            assert(cs[y].0 == pair);
        }
    }
}

} // verus!

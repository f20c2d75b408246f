//! What one edit is, how many edits part two words, and which errors are read off them.

use crate::align::{
    align_at, alignment, cost_at, dist_at, distance_covers_length_gap, distance_zero_means_equal,
    edit_distance, lemma_align_at, lemma_counts_of_push, lemma_dist_match, lemma_dist_step,
    lemma_step_in_bounds, right_at, wrong_at, AlignOp,
};
use crate::diffs::{
    deletion_events, deletions_at, insertion_events, insertions_at, sub_events, subs_at,
    unequal_pairs,
};
use crate::learned::{explained, step_learned, LearnedView};
use vstd::prelude::*;

verus! {

/// Whether one character of `a` is left out to make `b`.
pub open spec fn one_left_out(a: Seq<char>, b: Seq<char>, i: int) -> bool {
    0 <= i < a.len() && b == a.remove(i)
}

/// Whether one character is put into `a` to make `b`.
pub open spec fn one_put_in(a: Seq<char>, b: Seq<char>, i: int) -> bool {
    0 <= i < b.len() && a == b.remove(i)
}

/// Whether one character of `a` is replaced by another to make `b`.
pub open spec fn one_replaced(a: Seq<char>, b: Seq<char>, i: int) -> bool {
    0 <= i < a.len() && a.len() == b.len() && a[i] != b[i] && b == a.update(i, b[i])
}

/// Whether one edit makes `b` of `a`.
pub open spec fn one_edit(a: Seq<char>, b: Seq<char>) -> bool {
    ||| exists|i: int| one_left_out(a, b, i)
    ||| exists|i: int| one_put_in(a, b, i)
    ||| exists|i: int| one_replaced(a, b, i)
}

proof fn lemma_same_prefix(
    a: Seq<char>,
    b: Seq<char>,
    c: Seq<char>,
    d: Seq<char>,
    i: nat,
    j: nat,
)
    requires
        i <= a.len(),
        i <= c.len(),
        j <= b.len(),
        j <= d.len(),
        forall|x: int| 0 <= x < i ==> a[x] == c[x],
        forall|x: int| 0 <= x < j ==> b[x] == d[x],
    ensures
        dist_at(a, b, i, j) == dist_at(c, d, i, j),
        align_at(a, b, i, j) == align_at(c, d, i, j),
    decreases i + j,
{
    if i > 0 {
        lemma_same_prefix(a, b, c, d, (i - 1) as nat, j);
    }
    if j > 0 {
        lemma_same_prefix(a, b, c, d, i, (j - 1) as nat);
    }
    if i > 0 && j > 0 {
        lemma_same_prefix(a, b, c, d, (i - 1) as nat, (j - 1) as nat);
    }
}

/// One more character at the end of each word: equal ones leave the distance as it is, and
/// unequal ones make it one more than the least that is reached without one of them or without
/// both.
pub proof fn distance_of_longer_words(a: Seq<char>, b: Seq<char>, x: char, y: char)
    ensures
        x == y ==> edit_distance(a.push(x), b.push(y)) == edit_distance(a, b),
        x != y ==> {
            let d = edit_distance(a.push(x), b.push(y));
            &&& d <= edit_distance(a, b) + 1
            &&& d <= edit_distance(a, b.push(y)) + 1
            &&& d <= edit_distance(a.push(x), b) + 1
            &&& d == edit_distance(a, b) + 1 || d == edit_distance(a, b.push(y)) + 1 || d
                == edit_distance(a.push(x), b) + 1
        },
{
    let n = a.len();
    let m = b.len();
    lemma_same_prefix(a.push(x), b.push(y), a, b, n, m);
    lemma_same_prefix(a.push(x), b.push(y), a, b.push(y), n, m + 1);
    lemma_same_prefix(a.push(x), b.push(y), a.push(x), b, n + 1, m);
    lemma_dist_match(a.push(x), b.push(y), n + 1, m + 1);
}

/// A text is as far from the empty one as it is long.
pub proof fn distance_from_nothing(a: Seq<char>)
    ensures
        edit_distance(a, Seq::empty()) == a.len(),
        edit_distance(Seq::empty(), a) == a.len(),
{
}

proof fn lemma_equal_beginnings(a: Seq<char>, b: Seq<char>, n: nat)
    requires
        n <= a.len(),
        n <= b.len(),
        forall|x: int| 0 <= x < n ==> a[x] == b[x],
    ensures
        dist_at(a, b, n, n) == 0,
    decreases n,
{
    if n > 0 {
        lemma_equal_beginnings(a, b, (n - 1) as nat);
        lemma_dist_match(a, b, n, n);
    }
}

proof fn lemma_equal_ends(a: Seq<char>, b: Seq<char>, i: nat, j: nat, n: nat)
    requires
        i + n <= a.len(),
        j + n <= b.len(),
        forall|x: int| 0 <= x < n ==> #[trigger] a[i + x] == b[j + x],
    ensures
        dist_at(a, b, i + n, j + n) <= dist_at(a, b, i, j),
    decreases n,
{
    if n > 0 {
        lemma_equal_ends(a, b, i, j, (n - 1) as nat);
        assert(a[i + (n - 1)] == b[j + (n - 1)]);
        lemma_dist_match(a, b, i + n, j + n);
    }
}

/// One edit makes a distance of one.
pub proof fn one_edit_is_distance_one(a: Seq<char>, b: Seq<char>)
    requires
        one_edit(a, b),
    ensures
        edit_distance(a, b) == 1,
{
    let i = if exists|i: int| one_left_out(a, b, i) {
        choose|i: int| one_left_out(a, b, i)
    } else if exists|i: int| one_put_in(a, b, i) {
        choose|i: int| one_put_in(a, b, i)
    } else {
        choose|i: int| one_replaced(a, b, i)
    };
    distance_zero_means_equal(a, b);
    let n = i as nat;
    if one_left_out(a, b, i) {
        lemma_equal_beginnings(a, b, n);
        lemma_dist_step(a, b, n + 1, n);
        assert forall|x: int| 0 <= x < b.len() - i implies #[trigger] a[(n + 1) + x] == b[n + x] by {}
        lemma_equal_ends(a, b, n + 1, n, (b.len() - i) as nat);
    } else if one_put_in(a, b, i) {
        assert forall|x: int| 0 <= x < i implies a[x] == b[x] by {}
        lemma_equal_beginnings(a, b, n);
        lemma_dist_step(a, b, n, n + 1);
        assert forall|x: int| 0 <= x < a.len() - i implies #[trigger] a[n + x] == b[(n + 1) + x] by {}
        lemma_equal_ends(a, b, n, n + 1, (a.len() - i) as nat);
    } else {
        assert forall|x: int| 0 <= x < a.len() && x != i implies a[x] == b[x] by {
            assert(a.update(i, b[i])[x] == a[x]);
        }
        lemma_equal_beginnings(a, b, n);
        lemma_dist_match(a, b, n + 1, n + 1);
        assert forall|x: int| 0 <= x < a.len() - i - 1 implies #[trigger] a[(n + 1) + x] == b[(n + 1) + x] by {}
        lemma_equal_ends(a, b, n + 1, n + 1, (a.len() - i - 1) as nat);
        assert(a[i] != b[i]);
        assert(a != b);
    }
}

proof fn lemma_edit_of_longer(a: Seq<char>, b: Seq<char>, x: char)
    requires
        one_edit(a, b),
    ensures
        one_edit(a.push(x), b.push(x)),
{
    let i = if exists|i: int| one_left_out(a, b, i) {
        choose|i: int| one_left_out(a, b, i)
    } else if exists|i: int| one_put_in(a, b, i) {
        choose|i: int| one_put_in(a, b, i)
    } else {
        choose|i: int| one_replaced(a, b, i)
    };
    let c = a.push(x);
    let d = b.push(x);
    if one_left_out(a, b, i) {
        assert(d =~= c.remove(i));
        assert(one_left_out(c, d, i));
    } else if one_put_in(a, b, i) {
        assert(c =~= d.remove(i));
        assert(one_put_in(c, d, i));
    } else {
        assert forall|y: int| 0 <= y < a.len() && y != i implies a[y] == b[y] by {
            assert(a.update(i, b[i])[y] == a[y]);
        }
        assert(d =~= c.update(i, d[i]));
        assert(one_replaced(c, d, i));
    }
}

/// Two words that differ are parted by single edits: after the first of them one less remains.
/// With the triangle inequality the distance is the least number of single edits.
pub proof fn distance_goes_by_single_edits(a: Seq<char>, b: Seq<char>)
    requires
        a != b,
    ensures
        exists|c: Seq<char>| #[trigger]
            one_edit(a, c) && edit_distance(c, b) + 1 == edit_distance(a, b),
    decreases a.len() + b.len(),
{
    if b.len() == 0 {
        if a.len() == 0 {
            assert(a =~= b);
        }
        let c = a.drop_last();
        assert(c =~= a.remove(a.len() - 1));
        assert(one_left_out(a, c, a.len() - 1));
        assert(one_edit(a, c));
        assert(b =~= Seq::empty());
    } else if a.len() == 0 {
        let y = b.last();
        let c = seq![y];
        assert(a =~= c.remove(0));
        assert(one_put_in(a, c, 0));
        assert(one_edit(a, c));
        distance_of_longer_words(a, b.drop_last(), y, y);
        assert(a.push(y) =~= c);
        assert(b.drop_last().push(y) =~= b);
        assert(a =~= Seq::empty());
    } else {
        let p = a.drop_last();
        let q = b.drop_last();
        let x = a.last();
        let y = b.last();
        assert(p.push(x) =~= a);
        assert(q.push(y) =~= b);
        distance_of_longer_words(p, q, x, y);
        if x == y {
            assert(p != q);
            distance_goes_by_single_edits(p, q);
            let c = choose|c: Seq<char>| #[trigger]
                one_edit(p, c) && edit_distance(c, q) + 1 == edit_distance(p, q);
            lemma_edit_of_longer(p, c, x);
            distance_of_longer_words(c, q, x, y);
            assert(one_edit(a, c.push(x)));
        } else if edit_distance(a, b) == edit_distance(p, q) + 1 {
            let c = p.push(y);
            assert(c =~= a.update(a.len() - 1, y));
            assert(one_replaced(a, c, a.len() - 1));
            assert(one_edit(a, c));
            distance_of_longer_words(p, q, y, y);
        } else if edit_distance(a, b) == edit_distance(p, b) + 1 {
            assert(p =~= a.remove(a.len() - 1));
            assert(one_left_out(a, p, a.len() - 1));
            assert(one_edit(a, p));
        } else {
            let c = a.push(y);
            assert(a =~= c.remove(a.len() as int));
            assert(one_put_in(a, c, a.len() as int));
            assert(one_edit(a, c));
            distance_of_longer_words(a, q, y, y);
        }
    }
}

/// A distance of one is one edit: one character left out, put in or replaced.
pub proof fn distance_one_is_one_edit(a: Seq<char>, b: Seq<char>)
    ensures
        edit_distance(a, b) == 1 <==> one_edit(a, b),
{
    if one_edit(a, b) {
        one_edit_is_distance_one(a, b);
    }
    if edit_distance(a, b) == 1 {
        distance_zero_means_equal(a, b);
        distance_goes_by_single_edits(a, b);
        let c = choose|c: Seq<char>| #[trigger]
            one_edit(a, c) && edit_distance(c, b) + 1 == edit_distance(a, b);
        distance_zero_means_equal(c, b);
    }
}

/// The errors between two words, read off their alignment: what is taken for what, what is
/// missing, and what is too much.
pub open spec fn errors_between(a: Seq<char>, b: Seq<char>) -> (
    Seq<(char, char)>,
    Seq<char>,
    Seq<char>,
) {
    let ops = alignment(a, b);
    (subs_at(a, b, ops, ops.len()), insertions_at(b, ops, ops.len()), deletions_at(a, ops, ops.len()))
}

proof fn lemma_errors_of_push(
    a: Seq<char>,
    b: Seq<char>,
    c: Seq<char>,
    d: Seq<char>,
    ops: Seq<AlignOp>,
    op: AlignOp,
    k: nat,
)
    requires
        k <= ops.len(),
        forall|x: int| 0 <= x < a.len() ==> a[x] == c[x],
        forall|x: int| 0 <= x < b.len() ==> b[x] == d[x],
        forall|x: nat|
            x < ops.len() ==> (!(#[trigger] ops[x as int] is Ins) ==> wrong_at(ops, x) < a.len()) && (!(
            ops[x as int] is Del) ==> right_at(ops, x) < b.len()),
    ensures
        subs_at(c, d, ops.push(op), k) == subs_at(a, b, ops, k),
        insertions_at(d, ops.push(op), k) == insertions_at(b, ops, k),
        deletions_at(c, ops.push(op), k) == deletions_at(a, ops, k),
    decreases k,
{
    if k > 0 {
        let k1 = (k - 1) as nat;
        lemma_errors_of_push(a, b, c, d, ops, op, k1);
        lemma_counts_of_push(ops, op, k1);
        assert(ops.push(op)[k1 as int] == ops[k1 as int]);
    }
}

proof fn lemma_steps_inside(a: Seq<char>, b: Seq<char>)
    ensures
        forall|x: nat|
            x < alignment(a, b).len() ==> (!(#[trigger] alignment(a, b)[x as int] is Ins)
                ==> wrong_at(alignment(a, b), x) < a.len()) && (!(alignment(a, b)[x as int] is Del)
                ==> right_at(alignment(a, b), x) < b.len()),
        wrong_at(alignment(a, b), alignment(a, b).len()) == a.len(),
        right_at(alignment(a, b), alignment(a, b).len()) == b.len(),
{
    let ops = alignment(a, b);
    lemma_align_at(a, b, a.len(), b.len());
    assert forall|x: nat| x < ops.len() implies (!(#[trigger] ops[x as int] is Ins) ==> wrong_at(
        ops,
        x,
    ) < a.len()) && (!(ops[x as int] is Del) ==> right_at(ops, x) < b.len()) by {
        lemma_step_in_bounds(a, b, ops, x);
    }
}

proof fn lemma_errors_step(
    a: Seq<char>,
    b: Seq<char>,
    c: Seq<char>,
    d: Seq<char>,
    op: AlignOp,
)
    requires
        alignment(c, d) == alignment(a, b).push(op),
        a.len() <= c.len(),
        b.len() <= d.len(),
        forall|x: int| 0 <= x < a.len() ==> a[x] == c[x],
        forall|x: int| 0 <= x < b.len() ==> b[x] == d[x],
    ensures
        ({
            let e = errors_between(a, b);
            errors_between(c, d) == match op {
                AlignOp::Match => e,
                AlignOp::Sub => (e.0.push((c[a.len() as int], d[b.len() as int])), e.1, e.2),
                AlignOp::Ins => (e.0, e.1.push(d[b.len() as int]), e.2),
                AlignOp::Del => (e.0, e.1, e.2.push(c[a.len() as int])),
            }
        }),
{
    let ops = alignment(a, b);
    lemma_steps_inside(a, b);
    lemma_errors_of_push(a, b, c, d, ops, op, ops.len());
    lemma_counts_of_push(ops, op, ops.len());
    assert(ops.push(op)[ops.len() as int] == op);
}

/// Words are aligned from their ends: equal last characters are matched. Unequal ones are taken
/// for each other if that is no longer than the distance; else the last wrong character is too
/// much, if that is no longer; else the last right one is missing.
pub proof fn words_are_aligned_from_their_ends(a: Seq<char>, b: Seq<char>, x: char, y: char)
    ensures
        ({
            let d = edit_distance(a.push(x), b.push(y));
            alignment(a.push(x), b.push(y)) == (if x == y {
                alignment(a, b).push(AlignOp::Match)
            } else if d == edit_distance(a, b) + 1 {
                alignment(a, b).push(AlignOp::Sub)
            } else if d == edit_distance(a, b.push(y)) + 1 {
                alignment(a, b.push(y)).push(AlignOp::Del)
            } else {
                alignment(a.push(x), b).push(AlignOp::Ins)
            })
        }),
        alignment(a.push(x), Seq::empty()) == alignment(a, Seq::empty()).push(AlignOp::Del),
        alignment(Seq::empty(), b.push(y)) == alignment(Seq::empty(), b).push(AlignOp::Ins),
{
    let n = a.len();
    let m = b.len();
    let none = Seq::<char>::empty();
    lemma_same_prefix(a.push(x), b.push(y), a, b, n, m);
    lemma_same_prefix(a.push(x), b.push(y), a, b.push(y), n, m + 1);
    lemma_same_prefix(a.push(x), b.push(y), a.push(x), b, n + 1, m);
    lemma_same_prefix(a.push(x), none, a, none, n, 0);
    lemma_same_prefix(none, b.push(y), none, b, 0, m);
    lemma_dist_match(a.push(x), b.push(y), n + 1, m + 1);
}

/// The errors between two words, read from their ends: equal last characters make none; unequal
/// ones are a confusion, or the wrong one is too much, or the right one is missing, as the
/// distance allows it, in this order.
pub proof fn errors_are_read_from_the_ends(a: Seq<char>, b: Seq<char>, x: char, y: char)
    ensures
        ({
            let d = edit_distance(a.push(x), b.push(y));
            let both = errors_between(a, b);
            let short_wrong = errors_between(a, b.push(y));
            let short_right = errors_between(a.push(x), b);
            errors_between(a.push(x), b.push(y)) == (if x == y {
                both
            } else if d == edit_distance(a, b) + 1 {
                (both.0.push((x, y)), both.1, both.2)
            } else if d == edit_distance(a, b.push(y)) + 1 {
                (short_wrong.0, short_wrong.1, short_wrong.2.push(x))
            } else {
                (short_right.0, short_right.1.push(y), short_right.2)
            })
        }),
{
    words_are_aligned_from_their_ends(a, b, x, y);
    let d = edit_distance(a.push(x), b.push(y));
    if x == y {
        lemma_errors_step(a, b, a.push(x), b.push(y), AlignOp::Match);
    } else if d == edit_distance(a, b) + 1 {
        lemma_errors_step(a, b, a.push(x), b.push(y), AlignOp::Sub);
    } else if d == edit_distance(a, b.push(y)) + 1 {
        lemma_errors_step(a, b.push(y), a.push(x), b.push(y), AlignOp::Del);
    } else {
        lemma_errors_step(a.push(x), b, a.push(x), b.push(y), AlignOp::Ins);
    }
}

proof fn lemma_error_counts(a: Seq<char>, b: Seq<char>, ops: Seq<AlignOp>, k: nat)
    requires
        k <= ops.len(),
    ensures
        subs_at(a, b, ops, k).len() + insertions_at(b, ops, k).len() + deletions_at(a, ops, k).len()
            == cost_at(ops, k),
        wrong_at(ops, k) + insertions_at(b, ops, k).len() == right_at(ops, k) + deletions_at(
            a,
            ops,
            k,
        ).len(),
    decreases k,
{
    if k > 0 {
        lemma_error_counts(a, b, ops, (k - 1) as nat);
    }
}

/// There are as many errors between two words as edits part them, and those that are too much
/// outnumber those that are missing by as much as the wrong word is longer.
pub proof fn errors_number_the_distance(a: Seq<char>, b: Seq<char>)
    ensures
        ({
            let e = errors_between(a, b);
            &&& e.0.len() + e.1.len() + e.2.len() == edit_distance(a, b)
            &&& a.len() + e.1.len() == b.len() + e.2.len()
        }),
{
    lemma_align_at(a, b, a.len(), b.len());
    lemma_error_counts(a, b, alignment(a, b), alignment(a, b).len());
}

/// The pairs of characters that stand at one position in two words of one length and differ.
pub open spec fn pairs_that_differ(a: Seq<char>, b: Seq<char>) -> Seq<(char, char)> {
    Seq::new(a.len(), |i: int| (a[i], b[i])).filter(|p: (char, char)| p.0 != p.1)
}

proof fn lemma_pairs_that_differ(a: Seq<char>, b: Seq<char>, k: nat)
    requires
        k <= a.len(),
        a.len() == b.len(),
    ensures
        unequal_pairs(a, b, k) == Seq::new(a.len(), |i: int| (a[i], b[i])).take(k as int).filter(
            |p: (char, char)| p.0 != p.1,
        ),
    decreases k,
{
    reveal(Seq::filter);
    let all = Seq::new(a.len(), |i: int| (a[i], b[i]));
    if k > 0 {
        lemma_pairs_that_differ(a, b, (k - 1) as nat);
        assert(all.take(k as int).drop_last() =~= all.take(k - 1));
    }
}

/// Two words of one length confuse the characters that stand at one position and differ, in
/// order; nothing is missing or too much. Words of unequal length have the errors of their
/// alignment.
pub proof fn counted_errors_are_those_between_the_words(a: Seq<char>, b: Seq<char>)
    ensures
        a.len() == b.len() ==> (sub_events(a, b), insertion_events(a, b), deletion_events(a, b)) == (
            pairs_that_differ(a, b),
            Seq::<char>::empty(),
            Seq::<char>::empty(),
        ),
        a.len() != b.len() ==> (sub_events(a, b), insertion_events(a, b), deletion_events(a, b))
            == errors_between(a, b),
{
    if a.len() == b.len() {
        lemma_pairs_that_differ(a, b, a.len());
        let all = Seq::new(a.len(), |i: int| (a[i], b[i]));
        assert(all.take(a.len() as int) =~= all);
    }
}

/// Whether every error between two words is one that is learned.
pub open spec fn errors_learned(a: Seq<char>, b: Seq<char>, l: LearnedView) -> bool {
    let e = errors_between(a, b);
    &&& forall|i: int| 0 <= i < e.0.len() ==> l.subs.contains(#[trigger] e.0[i])
    &&& forall|i: int| 0 <= i < e.1.len() ==> l.insertions.contains(#[trigger] e.1[i])
    &&& forall|i: int| 0 <= i < e.2.len() ==> l.deletions.contains(#[trigger] e.2[i])
}

spec fn learned_upto(a: Seq<char>, b: Seq<char>, ops: Seq<AlignOp>, l: LearnedView, k: nat) -> bool {
    &&& forall|i: int|
        0 <= i < subs_at(a, b, ops, k).len() ==> l.subs.contains(#[trigger] subs_at(a, b, ops, k)[i])
    &&& forall|i: int|
        0 <= i < insertions_at(b, ops, k).len() ==> l.insertions.contains(
            #[trigger] insertions_at(b, ops, k)[i],
        )
    &&& forall|i: int|
        0 <= i < deletions_at(a, ops, k).len() ==> l.deletions.contains(
            #[trigger] deletions_at(a, ops, k)[i],
        )
}

proof fn lemma_learned_upto(a: Seq<char>, b: Seq<char>, ops: Seq<AlignOp>, l: LearnedView, k: nat)
    requires
        k <= ops.len(),
    ensures
        learned_upto(a, b, ops, l, k) <==> forall|x: nat|
            x < k ==> #[trigger] step_learned(l, a, b, ops, x),
    decreases k,
{
    if k > 0 {
        let k1 = (k - 1) as nat;
        lemma_learned_upto(a, b, ops, l, k1);
        let s0 = subs_at(a, b, ops, k1);
        let s1 = subs_at(a, b, ops, k);
        let i0 = insertions_at(b, ops, k1);
        let i1 = insertions_at(b, ops, k);
        let d0 = deletions_at(a, ops, k1);
        let d1 = deletions_at(a, ops, k);
        if learned_upto(a, b, ops, l, k) {
            assert forall|i: int| 0 <= i < s0.len() implies l.subs.contains(#[trigger] s0[i]) by {
                assert(s1[i] == s0[i]);
            }
            assert forall|i: int| 0 <= i < i0.len() implies l.insertions.contains(
                #[trigger] i0[i],
            ) by {
                assert(i1[i] == i0[i]);
            }
            assert forall|i: int| 0 <= i < d0.len() implies l.deletions.contains(#[trigger] d0[i]) by {
                assert(d1[i] == d0[i]);
            }
            assert(learned_upto(a, b, ops, l, k1));
            assert(step_learned(l, a, b, ops, k1)) by {
                if ops[k1 as int] is Sub {
                    assert(l.subs.contains(s1[s0.len() as int]));
                } else if ops[k1 as int] is Ins {
                    assert(l.insertions.contains(i1[i0.len() as int]));
                } else if ops[k1 as int] is Del {
                    assert(l.deletions.contains(d1[d0.len() as int]));
                }
            }
            assert forall|x: nat| x < k implies #[trigger] step_learned(l, a, b, ops, x) by {
                if x < k1 {
                    assert(step_learned(l, a, b, ops, x));
                }
            }
        }
        if forall|x: nat| x < k ==> #[trigger] step_learned(l, a, b, ops, x) {
            assert(step_learned(l, a, b, ops, k1));
            assert(learned_upto(a, b, ops, l, k1));
            assert forall|i: int| 0 <= i < s1.len() implies l.subs.contains(#[trigger] s1[i]) by {
                if i < s0.len() {
                    assert(l.subs.contains(s0[i]));
                }
            }
            assert forall|i: int| 0 <= i < i1.len() implies l.insertions.contains(
                #[trigger] i1[i],
            ) by {
                if i < i0.len() {
                    assert(l.insertions.contains(i0[i]));
                }
            }
            assert forall|i: int| 0 <= i < d1.len() implies l.deletions.contains(#[trigger] d1[i]) by {
                if i < d0.len() {
                    assert(l.deletions.contains(d0[i]));
                }
            }
        }
    }
}

/// Learned errors explain a correction exactly if every error between the two words is learned,
/// their lengths differ by two at most, and a word of five characters or more has two errors at
/// most.
pub proof fn learned_errors_explain(wrong: Seq<char>, right: Seq<char>, l: LearnedView)
    ensures
        explained(wrong, right, l) <==> errors_learned(wrong, right, l) && wrong.len() <= right.len()
            + 2 && right.len() <= wrong.len() + 2 && (wrong.len() >= 5 ==> edit_distance(wrong, right)
            <= 2),
{
    let ops = alignment(wrong, right);
    lemma_learned_upto(wrong, right, ops, l, ops.len());
    let e = errors_between(wrong, right);
    if errors_learned(wrong, right, l) {
        assert forall|i: int| 0 <= i < e.0.len() implies l.subs.contains(
            #[trigger] subs_at(wrong, right, ops, ops.len())[i],
        ) by {
            assert(l.subs.contains(e.0[i]));
        }
        assert forall|i: int| 0 <= i < e.1.len() implies l.insertions.contains(
            #[trigger] insertions_at(right, ops, ops.len())[i],
        ) by {
            assert(l.insertions.contains(e.1[i]));
        }
        assert forall|i: int| 0 <= i < e.2.len() implies l.deletions.contains(
            #[trigger] deletions_at(wrong, ops, ops.len())[i],
        ) by {
            assert(l.deletions.contains(e.2[i]));
        }
        assert(learned_upto(wrong, right, ops, l, ops.len()));
    }
    if learned_upto(wrong, right, ops, l, ops.len()) {
        assert forall|i: int| 0 <= i < e.0.len() implies l.subs.contains(#[trigger] e.0[i]) by {
            assert(l.subs.contains(subs_at(wrong, right, ops, ops.len())[i]));
        }
        assert forall|i: int| 0 <= i < e.1.len() implies l.insertions.contains(#[trigger] e.1[i]) by {
            assert(l.insertions.contains(insertions_at(right, ops, ops.len())[i]));
        }
        assert forall|i: int| 0 <= i < e.2.len() implies l.deletions.contains(#[trigger] e.2[i]) by {
            assert(l.deletions.contains(deletions_at(wrong, ops, ops.len())[i]));
        }
        assert(errors_learned(wrong, right, l));
    }
}

/// A word is aligned with itself by matches alone.
proof fn lemma_no_errors(a: Seq<char>)
    ensures
        errors_between(a, a) == (
            Seq::<(char, char)>::empty(),
            Seq::<char>::empty(),
            Seq::<char>::empty(),
        ),
    decreases a.len(),
{
    if a.len() > 0 {
        let p = a.drop_last();
        lemma_no_errors(p);
        errors_are_read_from_the_ends(p, p, a.last(), a.last());
        assert(p.push(a.last()) =~= a);
    }
}

/// Where one character is left out, it is the one error: too much.
pub proof fn a_character_left_out_was_too_much(a: Seq<char>, i: int)
    requires
        0 <= i < a.len(),
    ensures
        errors_between(a, a.remove(i)) == (
            Seq::<(char, char)>::empty(),
            Seq::<char>::empty(),
            seq![a[i]],
        ),
    decreases a.len(),
{
    let b = a.remove(i);
    let p = a.drop_last();
    let x = a.last();
    assert(p.push(x) =~= a);
    assert(one_left_out(a, b, i));
    assert(one_edit(a, b));
    one_edit_is_distance_one(a, b);
    if b.len() == 0 {
        words_are_aligned_from_their_ends(p, p, x, x);
        assert(b =~= Seq::empty());
        assert(p =~= Seq::empty());
        lemma_no_errors(p);
        lemma_errors_step(p, b, a, b, AlignOp::Del);
        assert(errors_between(a, b).2 =~= seq![a[i]]);
    } else if i == a.len() - 1 {
        assert(b =~= p);
        let q = p.drop_last();
        let y = p.last();
        assert(q.push(y) =~= p);
        if x == y {
            errors_are_read_from_the_ends(p, q, x, y);
            assert(p.remove(p.len() - 1) =~= q);
            a_character_left_out_was_too_much(p, p.len() - 1);
        } else {
            errors_are_read_from_the_ends(p, q, x, y);
            distance_zero_means_equal(p, q);
            distance_zero_means_equal(p, p);
            lemma_no_errors(p);
            assert(errors_between(a, b).2 =~= seq![a[i]]);
        }
    } else {
        let q = p.remove(i);
        assert(q.push(x) =~= b);
        errors_are_read_from_the_ends(p, q, x, x);
        a_character_left_out_was_too_much(p, i);
    }
}

/// Where one character is put in, it is the one error: missing.
pub proof fn a_character_put_in_was_missing(b: Seq<char>, i: int)
    requires
        0 <= i < b.len(),
    ensures
        errors_between(b.remove(i), b) == (
            Seq::<(char, char)>::empty(),
            seq![b[i]],
            Seq::<char>::empty(),
        ),
    decreases b.len(),
{
    let a = b.remove(i);
    let q = b.drop_last();
    let y = b.last();
    assert(q.push(y) =~= b);
    assert(one_put_in(a, b, i));
    assert(one_edit(a, b));
    one_edit_is_distance_one(a, b);
    if a.len() == 0 {
        words_are_aligned_from_their_ends(q, q, y, y);
        assert(a =~= Seq::empty());
        assert(q =~= Seq::empty());
        lemma_no_errors(q);
        lemma_errors_step(a, q, a, b, AlignOp::Ins);
        assert(errors_between(a, b).1 =~= seq![b[i]]);
    } else if i == b.len() - 1 {
        assert(a =~= q);
        let p = q.drop_last();
        let x = q.last();
        assert(p.push(x) =~= q);
        if x == y {
            errors_are_read_from_the_ends(p, q, x, y);
            assert(q.remove(q.len() - 1) =~= p);
            a_character_put_in_was_missing(q, q.len() - 1);
        } else {
            errors_are_read_from_the_ends(p, q, x, y);
            distance_zero_means_equal(p, q);
            distance_zero_means_equal(q, q);
            distance_covers_length_gap(p, b);
            lemma_no_errors(q);
            assert(errors_between(a, b).1 =~= seq![b[i]]);
        }
    } else {
        let p = q.remove(i);
        assert(p.push(y) =~= a);
        errors_are_read_from_the_ends(p, q, y, y);
        a_character_put_in_was_missing(q, i);
    }
}

/// Where one character is replaced by another, the one error is that the two were confused.
pub proof fn a_character_replaced_was_confused(a: Seq<char>, i: int, c: char)
    requires
        0 <= i < a.len(),
        a[i] != c,
    ensures
        errors_between(a, a.update(i, c)) == (
            seq![(a[i], c)],
            Seq::<char>::empty(),
            Seq::<char>::empty(),
        ),
    decreases a.len(),
{
    let b = a.update(i, c);
    let p = a.drop_last();
    let x = a.last();
    assert(p.push(x) =~= a);
    assert(b[i] == c);
    assert(b =~= a.update(i, b[i]));
    assert(one_replaced(a, b, i));
    assert(one_edit(a, b));
    one_edit_is_distance_one(a, b);
    if i == a.len() - 1 {
        assert(p.push(c) =~= b);
        errors_are_read_from_the_ends(p, p, x, c);
        distance_zero_means_equal(p, p);
        lemma_no_errors(p);
        assert(errors_between(a, b).0 =~= seq![(a[i], c)]);
    } else {
        let q = p.update(i, c);
        assert(q.push(x) =~= b);
        errors_are_read_from_the_ends(p, q, x, x);
        a_character_replaced_was_confused(p, i, c);
    }
}

/// One edit is explained exactly if it is learned: a character left out that may be too much,
/// one put in that may be missing, or one replaced that may be taken for the other.
pub proof fn one_edit_is_explained_if_learned(a: Seq<char>, i: int, c: char, l: LearnedView)
    requires
        0 <= i < a.len(),
    ensures
        explained(a, a.remove(i), l) <==> l.deletions.contains(a[i]),
        explained(a.remove(i), a, l) <==> l.insertions.contains(a[i]),
        a[i] != c ==> (explained(a, a.update(i, c), l) <==> l.subs.contains((a[i], c))),
{
    let b = a.remove(i);
    assert(one_left_out(a, b, i) && one_put_in(b, a, i));
    assert(one_edit(a, b));
    assert(one_edit(b, a));
    one_edit_is_distance_one(a, b);
    one_edit_is_distance_one(b, a);
    learned_errors_explain(a, b, l);
    learned_errors_explain(b, a, l);
    a_character_left_out_was_too_much(a, i);
    a_character_put_in_was_missing(a, i);
    let e = errors_between(a, b);
    assert(e.2[0] == a[i]);
    let f = errors_between(b, a);
    assert(f.1[0] == a[i]);
    if a[i] != c {
        let d = a.update(i, c);
        assert(d =~= a.update(i, d[i]));
        assert(one_replaced(a, d, i));
        assert(one_edit(a, d));
        one_edit_is_distance_one(a, d);
        learned_errors_explain(a, d, l);
        a_character_replaced_was_confused(a, i, c);
        let g = errors_between(a, d);
        assert(g.0[0] == (a[i], c));
    }
}

} // verus!

//! What an alignment shows: the stretches that differ, and the single-character
//! confusions, insertions and deletions.

use crate::align::{
    alignment, aligns, build_alignment, cost_at, dist_at, edit_distance, lemma_dist_match,
    lemma_step_in_bounds, lemma_stretch, right_at, substitutions_are_real, wrong_at, AlignOp,
};
use vstd::prelude::*;

verus! {

/// A maximal stretch in which a wrong word differs from the right one.
#[derive(Debug)]
pub struct AlignDiff {
    pub wrong_text: String,
    pub right_text: String,
    pub pos_wrong: usize,
    pub pos_right: usize,
}

/// The mathematical content of an `AlignDiff`.
#[verifier::ext_equal]
pub struct DiffView {
    pub wrong_text: Seq<char>,
    pub right_text: Seq<char>,
    pub pos_wrong: nat,
    pub pos_right: nat,
}

impl View for AlignDiff {
    type V = DiffView;

    open spec fn view(&self) -> DiffView {
        DiffView {
            wrong_text: self.wrong_text@,
            right_text: self.right_text@,
            pos_wrong: self.pos_wrong as nat,
            pos_right: self.pos_right as nat,
        }
    }
}

/// The contents of a list of differences.
pub open spec fn diff_views(ds: Seq<AlignDiff>) -> Seq<DiffView> {
    Seq::new(ds.len(), |i: int| ds[i]@)
}

/// Copies a list of differences.
pub fn clone_diffs(ds: &[AlignDiff]) -> (r: Vec<AlignDiff>)
    ensures
        diff_views(r@) == diff_views(ds@),
{
    let mut out: Vec<AlignDiff> = Vec::new();
    let mut i: usize = 0;
    while i < ds.len()
        invariant
            i <= ds.len(),
            diff_views(out@) == diff_views(ds@).take(i as int),
        decreases ds.len() - i,
    {
        let ghost done = diff_views(out@);
        let copy = AlignDiff {
            wrong_text: ds[i].wrong_text.clone(),
            right_text: ds[i].right_text.clone(),
            pos_wrong: ds[i].pos_wrong,
            pos_right: ds[i].pos_right,
        };
        assert(copy@ == ds@[i as int]@);
        out.push(copy);
        assert(diff_views(out@) =~= done.push(ds@[i as int]@));
        assert(diff_views(ds@).take(i + 1) =~= done.push(ds@[i as int]@));
        i += 1;
    }
    assert(diff_views(ds@).take(ds@.len() as int) =~= diff_views(ds@));
    out
}

/// A difference with one more step of the alignment in it.
pub open spec fn extended(
    d: DiffView,
    a: Seq<char>,
    b: Seq<char>,
    op: AlignOp,
    i: nat,
    j: nat,
) -> DiffView {
    DiffView {
        wrong_text: if op is Ins {
            d.wrong_text
        } else {
            d.wrong_text.push(a[i as int])
        },
        right_text: if op is Del {
            d.right_text
        } else {
            d.right_text.push(b[j as int])
        },
        ..d
    }
}

/// The empty difference at positions `i` and `j`.
pub open spec fn empty_diff(i: nat, j: nat) -> DiffView {
    DiffView {
        wrong_text: Seq::empty(),
        right_text: Seq::empty(),
        pos_wrong: i,
        pos_right: j,
    }
}

/// Whether the step before step `k` belongs to a difference.
pub open spec fn in_diff(ops: Seq<AlignOp>, k: nat) -> bool {
    k > 0 && !(ops[k - 1] is Match)
}

/// The differences among the first `k` steps: each run of steps that are no matches
/// is one difference.
pub open spec fn diffs_at(a: Seq<char>, b: Seq<char>, ops: Seq<AlignOp>, k: nat) -> Seq<DiffView>
    decreases k,
{
    if k == 0 {
        Seq::empty()
    } else {
        let k1 = (k - 1) as nat;
        let before = diffs_at(a, b, ops, k1);
        let i = wrong_at(ops, k1);
        let j = right_at(ops, k1);
        if ops[k1 as int] is Match {
            before
        } else if in_diff(ops, k1) {
            before.drop_last().push(extended(before.last(), a, b, ops[k1 as int], i, j))
        } else {
            before.push(extended(empty_diff(i, j), a, b, ops[k1 as int], i, j))
        }
    }
}

/// The differences between a wrong word and the right one, from left to right.
pub open spec fn diffs_between(a: Seq<char>, b: Seq<char>) -> Seq<DiffView> {
    diffs_at(a, b, alignment(a, b), alignment(a, b).len())
}

/// The differences between a wrong word and the right one, from left to right.
pub fn extract_diffs(a: &[char], b: &[char]) -> (r: Vec<AlignDiff>)
    ensures
        diff_views(r@) == diffs_between(a@, b@),
{
    let ops = build_alignment(a, b);
    let mut diffs: Vec<AlignDiff> = Vec::new();
    let mut wbuf = String::new();
    let mut rbuf = String::new();
    let mut pos_a: usize = 0;
    let mut pos_b: usize = 0;
    let mut open = false;
    let mut ai: usize = 0;
    let mut bi: usize = 0;
    let mut k: usize = 0;
    while k < ops.len()
        invariant
            k <= ops.len(),
            aligns(a@, b@, ops@),
            ai == wrong_at(ops@, k as nat),
            bi == right_at(ops@, k as nat),
            open == in_diff(ops@, k as nat),
            !open ==> diffs_at(a@, b@, ops@, k as nat) == diff_views(diffs@),
            open ==> diffs_at(a@, b@, ops@, k as nat) == diff_views(diffs@).push(
                (DiffView {
                    wrong_text: wbuf@,
                    right_text: rbuf@,
                    pos_wrong: pos_a as nat,
                    pos_right: pos_b as nat,
                }),
            ),
        decreases ops.len() - k,
    {
        proof {
            lemma_step_in_bounds(a@, b@, ops@, k as nat);
            assert(a@.len() == a.len() && b@.len() == b.len());
        }
        let ghost done = diff_views(diffs@);
        let op = ops[k];
        if op == AlignOp::Match {
            if open {
                diffs.push(
                    AlignDiff {
                        wrong_text: wbuf,
                        right_text: rbuf,
                        pos_wrong: pos_a,
                        pos_right: pos_b,
                    },
                );
                wbuf = String::new();
                rbuf = String::new();
                open = false;
                assert(diff_views(diffs@) =~= diffs_at(a@, b@, ops@, k as nat));
            }
            ai += 1;
            bi += 1;
        } else {
            if !open {
                wbuf = String::new();
                rbuf = String::new();
                pos_a = ai;
                pos_b = bi;
                open = true;
            } else {
                assert(diffs_at(a@, b@, ops@, k as nat).drop_last() =~= done);
            }
            if op != AlignOp::Ins {
                wbuf.push(a[ai]);
                ai += 1;
            }
            if op != AlignOp::Del {
                rbuf.push(b[bi]);
                bi += 1;
            }
        }
        k += 1;
    }
    if open {
        diffs.push(
            AlignDiff { wrong_text: wbuf, right_text: rbuf, pos_wrong: pos_a, pos_right: pos_b },
        );
        assert(diff_views(diffs@) =~= diffs_between(a@, b@));
    }
    diffs
}

/// The wrong word with each difference replaced by its right text.
pub open spec fn patched(a: Seq<char>, ds: Seq<DiffView>) -> Seq<char>
    decreases ds.len(),
{
    if ds.len() == 0 {
        a
    } else {
        let d = ds.last();
        patched(a.take(d.pos_wrong as int), ds.drop_last()) + d.right_text + a.skip(
            (d.pos_wrong + d.wrong_text.len()) as int,
        )
    }
}

proof fn lemma_patch(a: Seq<char>, b: Seq<char>, ops: Seq<AlignOp>, k: nat)
    requires
        aligns(a, b, ops),
        k <= ops.len(),
    ensures
        wrong_at(ops, k) <= a.len(),
        right_at(ops, k) <= b.len(),
        ({
            let ds = diffs_at(a, b, ops, k);
            let w = wrong_at(ops, k);
            &&& patched(a.take(w as int), ds) == b.take(right_at(ops, k) as int)
            &&& in_diff(ops, k) ==> ds.len() > 0 && ds.last().pos_wrong + ds.last().wrong_text.len()
                == w
            &&& ds.len() > 0 ==> ds.last().pos_wrong + ds.last().wrong_text.len() <= w
        }),
    decreases k,
{
    let w = wrong_at(ops, k);
    let r = right_at(ops, k);
    if k == 0 {
        assert(a.take(0) =~= b.take(0));
    } else {
        let k1 = (k - 1) as nat;
        lemma_patch(a, b, ops, k1);
        lemma_step_in_bounds(a, b, ops, k1);
        let w1 = wrong_at(ops, k1);
        let r1 = right_at(ops, k1);
        let before = diffs_at(a, b, ops, k1);
        let after = diffs_at(a, b, ops, k);
        let op = ops[k1 as int];
        if op is Match {
            assert(crate::align::match_is_true(a, b, ops, k1));
            assert(b.take(r as int) =~= b.take(r1 as int).push(b[r1 as int]));
            if before.len() == 0 {
                assert(a.take(w as int) =~= a.take(w1 as int).push(a[w1 as int]));
            } else {
                let p = before.last().pos_wrong as int;
                let e = p + before.last().wrong_text.len();
                assert(a.take(w as int).take(p) =~= a.take(w1 as int).take(p));
                assert(a.take(w as int).skip(e) =~= a.take(w1 as int).skip(e).push(a[w1 as int]));
                assert(patched(a.take(w as int), before) =~= patched(
                    a.take(w1 as int),
                    before,
                ).push(a[w1 as int]));
            }
        } else {
            let d = after.last();
            let p = d.pos_wrong as int;
            if !(op is Del) {
                assert(b.take(r as int) =~= b.take(r1 as int).push(b[r1 as int]));
            }
            assert(p + d.wrong_text.len() == w);
            assert(a.take(w as int).skip(w as int) =~= Seq::<char>::empty());
            if in_diff(ops, k1) {
                assert(after.drop_last() =~= before.drop_last());
                assert(a.take(w as int).take(p) =~= a.take(w1 as int).take(p));
                assert(a.take(w1 as int).skip(w1 as int) =~= Seq::<char>::empty());
            } else {
                assert(after.drop_last() =~= before);
                assert(a.take(w as int).take(p) =~= a.take(w1 as int));
            }
            assert(patched(a.take(w as int), after) =~= b.take(r as int));
        }
    }
}

/// Replacing each difference in the wrong word gives the right word.
pub proof fn diffs_patch_wrong_into_right(a: Seq<char>, b: Seq<char>)
    ensures
        patched(a, diffs_between(a, b)) == b,
{
    crate::align::lemma_align_at(a, b, a.len(), b.len());
    let ops = alignment(a, b);
    lemma_patch(a, b, ops, ops.len());
    assert(a.take(a.len() as int) == a);
    assert(b.take(b.len() as int) == b);
}

/// The length of the longer side of a difference.
pub open spec fn longer_side(d: DiffView) -> nat {
    if d.wrong_text.len() >= d.right_text.len() {
        d.wrong_text.len()
    } else {
        d.right_text.len()
    }
}

/// The lengths of the longer sides of some differences, added up.
pub open spec fn longer_sides(ds: Seq<DiffView>) -> nat
    decreases ds.len(),
{
    if ds.len() == 0 {
        0
    } else {
        longer_sides(ds.drop_last()) + longer_side(ds.last())
    }
}

/// Whether the two texts of a difference stand at its positions in the two words.
pub open spec fn stands_in(d: DiffView, a: Seq<char>, b: Seq<char>) -> bool {
    &&& d.pos_wrong + d.wrong_text.len() <= a.len()
    &&& d.pos_right + d.right_text.len() <= b.len()
    &&& d.wrong_text == a.subrange(
        d.pos_wrong as int,
        (d.pos_wrong + d.wrong_text.len()) as int,
    )
    &&& d.right_text == b.subrange(
        d.pos_right as int,
        (d.pos_right + d.right_text.len()) as int,
    )
}

/// Whether a part of one word from `i` to `i2` equals the part of another from `j` to `j2`.
pub open spec fn same_stretch(
    a: Seq<char>,
    i: nat,
    i2: nat,
    b: Seq<char>,
    j: nat,
    j2: nat,
) -> bool {
    &&& i <= i2 <= a.len()
    &&& j <= j2 <= b.len()
    &&& a.subrange(i as int, i2 as int) == b.subrange(j as int, j2 as int)
}

/// Whether one difference comes before another with an unchanged, non-empty stretch of the
/// words between them.
pub open spec fn parted(d: DiffView, e: DiffView, a: Seq<char>, b: Seq<char>) -> bool {
    &&& d.pos_wrong + d.wrong_text.len() < e.pos_wrong
    &&& d.pos_right + d.right_text.len() < e.pos_right
    &&& same_stretch(
        a,
        d.pos_wrong + d.wrong_text.len(),
        e.pos_wrong,
        b,
        d.pos_right + d.right_text.len(),
        e.pos_right,
    )
}

/// Where the last of some differences ends in the wrong word, or the word's start.
spec fn wrong_end(ds: Seq<DiffView>) -> nat {
    if ds.len() == 0 {
        0
    } else {
        ds.last().pos_wrong + ds.last().wrong_text.len()
    }
}

/// Where the last of some differences ends in the right word, or the word's start.
spec fn right_end(ds: Seq<DiffView>) -> nat {
    if ds.len() == 0 {
        0
    } else {
        ds.last().pos_right + ds.last().right_text.len()
    }
}

proof fn lemma_places(a: Seq<char>, b: Seq<char>, ops: Seq<AlignOp>, k: nat)
    requires
        aligns(a, b, ops),
        k <= ops.len(),
    ensures
        ({
            let ds = diffs_at(a, b, ops, k);
            let w = wrong_at(ops, k);
            let r = right_at(ops, k);
            &&& same_stretch(a, wrong_end(ds), w, b, right_end(ds), r)
            &&& in_diff(ops, k) ==> ds.len() > 0 && wrong_end(ds) == w && right_end(ds) == r
            &&& !in_diff(ops, k) && k > 0 ==> wrong_end(ds) < w && right_end(ds) < r
            &&& k == 0 ==> w == 0 && r == 0
            &&& forall|x: int| 0 <= x < ds.len() ==> stands_in(#[trigger] ds[x], a, b)
            &&& forall|x: int, y: int|
                0 <= x && y == x + 1 && y < ds.len() ==> parted(
                    #[trigger] ds[x],
                    #[trigger] ds[y],
                    a,
                    b,
                )
        }),
    decreases k,
{
    let ds = diffs_at(a, b, ops, k);
    let w = wrong_at(ops, k);
    let r = right_at(ops, k);
    if k == 0 {
        assert(a.subrange(0, 0) =~= b.subrange(0, 0));
    } else {
        let k1 = (k - 1) as nat;
        lemma_places(a, b, ops, k1);
        lemma_step_in_bounds(a, b, ops, k1);
        let w1 = wrong_at(ops, k1);
        let r1 = right_at(ops, k1);
        let before = diffs_at(a, b, ops, k1);
        let op = ops[k1 as int];
        if op is Match {
            assert(crate::align::match_is_true(a, b, ops, k1));
            let i = wrong_end(ds) as int;
            let j = right_end(ds) as int;
            assert(a.subrange(i, w as int) =~= a.subrange(i, w1 as int).push(a[w1 as int]));
            assert(b.subrange(j, r as int) =~= b.subrange(j, r1 as int).push(b[r1 as int]));
        } else {
            let d = ds.last();
            let n = ds.len() - 1;
            assert(a.subrange(w as int, w as int) =~= b.subrange(r as int, r as int));
            assert(d.wrong_text =~= a.subrange(d.pos_wrong as int, w as int));
            assert(d.right_text =~= b.subrange(d.pos_right as int, r as int));
            assert(stands_in(d, a, b));
            assert forall|x: int| 0 <= x < n implies ds[x] == before[x] by {}
            if in_diff(ops, k1) {
                assert(d.pos_wrong == before.last().pos_wrong);
                assert(d.pos_right == before.last().pos_right);
                if n > 0 {
                    assert(parted(before[n - 1], before[n], a, b));
                }
            } else {
                assert(before.len() == n);
                if n > 0 {
                    assert(parted(before[n - 1], d, a, b));
                }
            }
        }
    }
}

/// The two texts of each difference stand at its positions in the two words.
pub proof fn differences_stand_in_the_words(a: Seq<char>, b: Seq<char>, x: int)
    requires
        0 <= x < diffs_between(a, b).len(),
    ensures
        stands_in(diffs_between(a, b)[x], a, b),
{
    crate::align::lemma_align_at(a, b, a.len(), b.len());
    lemma_places(a, b, alignment(a, b), alignment(a, b).len());
}

/// The differences come from left to right, and between two neighbours stands at least one
/// character that both words share.
pub proof fn differences_are_parted(a: Seq<char>, b: Seq<char>, x: int)
    requires
        0 <= x,
        x + 1 < diffs_between(a, b).len(),
    ensures
        parted(diffs_between(a, b)[x], diffs_between(a, b)[x + 1], a, b),
{
    crate::align::lemma_align_at(a, b, a.len(), b.len());
    lemma_places(a, b, alignment(a, b), alignment(a, b).len());
}

proof fn lemma_longer_sides(a: Seq<char>, b: Seq<char>, ops: Seq<AlignOp>, k: nat)
    requires
        aligns(a, b, ops),
        k <= ops.len(),
    ensures
        ({
            let ds = diffs_at(a, b, ops, k);
            &&& longer_sides(ds) <= cost_at(ops, k)
            &&& dist_at(a, b, wrong_at(ops, k), right_at(ops, k)) <= longer_sides(ds)
            &&& in_diff(ops, k) ==> ds.len() > 0 && dist_at(
                a,
                b,
                ds.last().pos_wrong,
                ds.last().pos_right,
            ) <= longer_sides(ds.drop_last())
        }),
    decreases k,
{
    let ds = diffs_at(a, b, ops, k);
    let w = wrong_at(ops, k);
    let r = right_at(ops, k);
    if k > 0 {
        let k1 = (k - 1) as nat;
        lemma_longer_sides(a, b, ops, k1);
        lemma_places(a, b, ops, k);
        let before = diffs_at(a, b, ops, k1);
        if ops[k1 as int] is Match {
            assert(crate::align::match_is_true(a, b, ops, k1));
            lemma_dist_match(a, b, w, r);
        } else {
            let d = ds.last();
            if in_diff(ops, k1) {
                assert(ds.drop_last() =~= before.drop_last());
                assert(longer_side(d) <= longer_side(before.last()) + 1);
            } else {
                assert(ds.drop_last() =~= before);
            }
            lemma_stretch(
                a,
                b,
                d.pos_wrong,
                d.pos_right,
                d.wrong_text.len(),
                d.right_text.len(),
            );
        }
    }
}

/// The longer sides of the differences add up to the edit distance.
pub proof fn longer_sides_make_the_distance(a: Seq<char>, b: Seq<char>)
    ensures
        longer_sides(diffs_between(a, b)) == edit_distance(a, b),
{
    crate::align::lemma_align_at(a, b, a.len(), b.len());
    lemma_longer_sides(a, b, alignment(a, b), alignment(a, b).len());
}

proof fn lemma_no_empty_difference(a: Seq<char>, b: Seq<char>, ops: Seq<AlignOp>, k: nat)
    ensures
        longer_sides(diffs_at(a, b, ops, k)) == 0 ==> diffs_at(a, b, ops, k).len() == 0,
    decreases k,
{
    if k > 0 {
        lemma_no_empty_difference(a, b, ops, (k - 1) as nat);
    }
}

/// Two words have no differences exactly if they are equal.
pub proof fn only_equal_words_have_no_differences(a: Seq<char>, b: Seq<char>)
    ensures
        diffs_between(a, b).len() == 0 <==> a == b,
{
    crate::align::distance_zero_means_equal(a, b);
    longer_sides_make_the_distance(a, b);
    lemma_no_empty_difference(a, b, alignment(a, b), alignment(a, b).len());
}

/// The substitutions, insertions and deletions of single characters between two words.
#[derive(Debug)]
pub struct CharEvents {
    pub subs: Vec<(char, char)>,
    pub insertions: Vec<char>,
    pub deletions: Vec<char>,
}

/// The unequal pairs among the first `k` positions.
pub open spec fn unequal_pairs(a: Seq<char>, b: Seq<char>, k: nat) -> Seq<(char, char)>
    decreases k,
{
    if k == 0 {
        Seq::empty()
    } else {
        let before = unequal_pairs(a, b, (k - 1) as nat);
        if a[k - 1] != b[k - 1] {
            before.push((a[k - 1], b[k - 1]))
        } else {
            before
        }
    }
}

/// The pairs substituted in the first `k` steps of an alignment.
pub open spec fn subs_at(a: Seq<char>, b: Seq<char>, ops: Seq<AlignOp>, k: nat) -> Seq<(char, char)>
    decreases k,
{
    if k == 0 {
        Seq::empty()
    } else {
        let k1 = (k - 1) as nat;
        let before = subs_at(a, b, ops, k1);
        if ops[k1 as int] is Sub {
            before.push((a[wrong_at(ops, k1) as int], b[right_at(ops, k1) as int]))
        } else {
            before
        }
    }
}

/// The right characters inserted in the first `k` steps of an alignment.
pub open spec fn insertions_at(b: Seq<char>, ops: Seq<AlignOp>, k: nat) -> Seq<char>
    decreases k,
{
    if k == 0 {
        Seq::empty()
    } else {
        let k1 = (k - 1) as nat;
        let before = insertions_at(b, ops, k1);
        if ops[k1 as int] is Ins {
            before.push(b[right_at(ops, k1) as int])
        } else {
            before
        }
    }
}

/// The wrong characters deleted in the first `k` steps of an alignment.
pub open spec fn deletions_at(a: Seq<char>, ops: Seq<AlignOp>, k: nat) -> Seq<char>
    decreases k,
{
    if k == 0 {
        Seq::empty()
    } else {
        let k1 = (k - 1) as nat;
        let before = deletions_at(a, ops, k1);
        if ops[k1 as int] is Del {
            before.push(a[wrong_at(ops, k1) as int])
        } else {
            before
        }
    }
}

/// The substitutions between two words: position by position where the lengths are
/// equal, along the alignment where they are not.
pub open spec fn sub_events(a: Seq<char>, b: Seq<char>) -> Seq<(char, char)> {
    if a.len() == b.len() {
        unequal_pairs(a, b, a.len())
    } else {
        subs_at(a, b, alignment(a, b), alignment(a, b).len())
    }
}

/// The insertions between two words of unequal length; words of equal length have none.
pub open spec fn insertion_events(a: Seq<char>, b: Seq<char>) -> Seq<char> {
    if a.len() == b.len() {
        Seq::empty()
    } else {
        insertions_at(b, alignment(a, b), alignment(a, b).len())
    }
}

/// The deletions between two words of unequal length; words of equal length have none.
pub open spec fn deletion_events(a: Seq<char>, b: Seq<char>) -> Seq<char> {
    if a.len() == b.len() {
        Seq::empty()
    } else {
        deletions_at(a, alignment(a, b), alignment(a, b).len())
    }
}

/// Collects the single-character events between a wrong word and the right one.
pub fn collect_char_confusions(wrong: &[char], right: &[char]) -> (r: CharEvents)
    ensures
        r.subs@ == sub_events(wrong@, right@),
        r.insertions@ == insertion_events(wrong@, right@),
        r.deletions@ == deletion_events(wrong@, right@),
{
    let mut subs: Vec<(char, char)> = Vec::new();
    let mut insertions: Vec<char> = Vec::new();
    let mut deletions: Vec<char> = Vec::new();
    if wrong.len() == right.len() {
        let mut i: usize = 0;
        while i < wrong.len()
            invariant
                i <= wrong.len(),
                wrong.len() == right.len(),
                subs@ == unequal_pairs(wrong@, right@, i as nat),
            decreases wrong.len() - i,
        {
            if wrong[i] != right[i] {
                subs.push((wrong[i], right[i]));
            }
            i += 1;
        }
        return CharEvents { subs, insertions, deletions };
    }
    let ops = build_alignment(wrong, right);
    let mut ai: usize = 0;
    let mut bi: usize = 0;
    let mut k: usize = 0;
    while k < ops.len()
        invariant
            k <= ops.len(),
            aligns(wrong@, right@, ops@),
            ai == wrong_at(ops@, k as nat),
            bi == right_at(ops@, k as nat),
            subs@ == subs_at(wrong@, right@, ops@, k as nat),
            insertions@ == insertions_at(right@, ops@, k as nat),
            deletions@ == deletions_at(wrong@, ops@, k as nat),
        decreases ops.len() - k,
    {
        proof {
            lemma_step_in_bounds(wrong@, right@, ops@, k as nat);
            assert(wrong@.len() == wrong.len() && right@.len() == right.len());
        }
        match ops[k] {
            AlignOp::Match => {
                ai += 1;
                bi += 1;
            },
            AlignOp::Sub => {
                subs.push((wrong[ai], right[bi]));
                ai += 1;
                bi += 1;
            },
            AlignOp::Del => {
                deletions.push(wrong[ai]);
                ai += 1;
            },
            AlignOp::Ins => {
                insertions.push(right[bi]);
                bi += 1;
            },
        }
        k += 1;
    }
    CharEvents { subs, insertions, deletions }
}

proof fn lemma_unequal_pairs(a: Seq<char>, b: Seq<char>, k: nat, i: int)
    requires
        0 <= i < unequal_pairs(a, b, k).len(),
    ensures
        unequal_pairs(a, b, k)[i].0 != unequal_pairs(a, b, k)[i].1,
    decreases k,
{
    if k > 0 {
        let before = unequal_pairs(a, b, (k - 1) as nat);
        if i < before.len() {
            lemma_unequal_pairs(a, b, (k - 1) as nat, i);
        }
    }
}

proof fn lemma_subs_differ(a: Seq<char>, b: Seq<char>, k: nat, i: int)
    requires
        k <= alignment(a, b).len(),
        0 <= i < subs_at(a, b, alignment(a, b), k).len(),
    ensures
        subs_at(a, b, alignment(a, b), k)[i].0 != subs_at(a, b, alignment(a, b), k)[i].1,
    decreases k,
{
    if k > 0 {
        let before = subs_at(a, b, alignment(a, b), (k - 1) as nat);
        if i < before.len() {
            lemma_subs_differ(a, b, (k - 1) as nat, i);
        } else {
            substitutions_are_real(a, b, (k - 1) as nat);
        }
    }
}

/// No character is ever confused with itself.
pub proof fn confused_characters_differ(a: Seq<char>, b: Seq<char>, i: int)
    requires
        0 <= i < sub_events(a, b).len(),
    ensures
        sub_events(a, b)[i].0 != sub_events(a, b)[i].1,
{
    if a.len() == b.len() {
        lemma_unequal_pairs(a, b, a.len(), i);
    } else {
        lemma_subs_differ(a, b, alignment(a, b).len(), i);
    }
}

} // verus!

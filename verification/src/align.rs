//! Edit distance between two words, and the alignments that attain it.

use vstd::prelude::*;

verus! {

/// One step of an alignment of a wrong word with a right one.
#[derive(Clone, Copy, PartialEq, Eq, Structural, Debug)]
pub enum AlignOp {
    /// The two characters are equal.
    Match,
    /// A wrong character stands for another right one.
    Sub,
    /// A right character is missing from the wrong word.
    Ins,
    /// A wrong character has no counterpart.
    Del,
}

/// The smaller of two numbers.
pub open spec fn min2(x: nat, y: nat) -> nat {
    if x <= y {
        x
    } else {
        y
    }
}

/// The edit distance between the first `i` characters of `a` and the first `j` of `b`.
pub open spec fn dist_at(a: Seq<char>, b: Seq<char>, i: nat, j: nat) -> nat
    decreases i, j,
{
    if i == 0 {
        j
    } else if j == 0 {
        i
    } else {
        let i1 = (i - 1) as nat;
        let j1 = (j - 1) as nat;
        let cost: nat = if a[i1 as int] == b[j1 as int] {
            0
        } else {
            1
        };
        min2(
            min2(dist_at(a, b, i1, j) + 1, dist_at(a, b, i, j1) + 1),
            dist_at(a, b, i1, j1) + cost,
        )
    }
}

/// The Levenshtein distance: the least number of substitutions, insertions and
/// deletions that turn one text into the other.
pub open spec fn edit_distance(a: Seq<char>, b: Seq<char>) -> nat {
    dist_at(a, b, a.len(), b.len())
}

/// How many characters of the wrong word the first `k` steps use.
pub open spec fn wrong_at(ops: Seq<AlignOp>, k: nat) -> nat
    decreases k,
{
    if k == 0 {
        0
    } else {
        wrong_at(ops, (k - 1) as nat) + (if ops[k - 1] is Ins {
            0nat
        } else {
            1nat
        })
    }
}

/// How many characters of the right word the first `k` steps use.
pub open spec fn right_at(ops: Seq<AlignOp>, k: nat) -> nat
    decreases k,
{
    if k == 0 {
        0
    } else {
        right_at(ops, (k - 1) as nat) + (if ops[k - 1] is Del {
            0nat
        } else {
            1nat
        })
    }
}

/// How many of the first `k` steps are no matches.
pub open spec fn cost_at(ops: Seq<AlignOp>, k: nat) -> nat
    decreases k,
{
    if k == 0 {
        0
    } else {
        cost_at(ops, (k - 1) as nat) + (if ops[k - 1] is Match {
            0nat
        } else {
            1nat
        })
    }
}

/// The number of edits in an alignment.
pub open spec fn cost(ops: Seq<AlignOp>) -> nat {
    cost_at(ops, ops.len())
}

/// Whether step `k`, if it is a match, joins equal characters.
pub open spec fn match_is_true(a: Seq<char>, b: Seq<char>, ops: Seq<AlignOp>, k: nat) -> bool {
    ops[k as int] is Match ==> a[wrong_at(ops, k) as int] == b[right_at(ops, k) as int]
}

/// Whether `ops` uses the first `i` characters of `a` and the first `j` of `b`,
/// each once and in order, and calls a match only what is equal.
pub open spec fn aligns_at(a: Seq<char>, b: Seq<char>, i: nat, j: nat, ops: Seq<AlignOp>) -> bool {
    &&& wrong_at(ops, ops.len()) == i
    &&& right_at(ops, ops.len()) == j
    &&& forall|k: nat| k < ops.len() ==> #[trigger] match_is_true(a, b, ops, k)
}

/// Whether `ops` is an alignment of `a` with `b`.
pub open spec fn aligns(a: Seq<char>, b: Seq<char>, ops: Seq<AlignOp>) -> bool {
    aligns_at(a, b, a.len(), b.len(), ops)
}

/// The alignment of the first `i` characters of `a` with the first `j` of `b` that is
/// preferred among the cheapest: read from the end, a match comes before a
/// substitution, a substitution before a deletion, a deletion before an insertion.
pub open spec fn align_at(a: Seq<char>, b: Seq<char>, i: nat, j: nat) -> Seq<AlignOp>
    decreases i + j,
{
    let d = dist_at(a, b, i, j);
    if i == 0 && j == 0 {
        Seq::empty()
    } else if i > 0 && j > 0 && a[i - 1] == b[j - 1] && d == dist_at(
        a,
        b,
        (i - 1) as nat,
        (j - 1) as nat,
    ) {
        align_at(a, b, (i - 1) as nat, (j - 1) as nat).push(AlignOp::Match)
    } else if i > 0 && j > 0 && d == dist_at(a, b, (i - 1) as nat, (j - 1) as nat) + 1 {
        align_at(a, b, (i - 1) as nat, (j - 1) as nat).push(AlignOp::Sub)
    } else if i > 0 && d == dist_at(a, b, (i - 1) as nat, j) + 1 {
        align_at(a, b, (i - 1) as nat, j).push(AlignOp::Del)
    } else if j > 0 {
        align_at(a, b, i, (j - 1) as nat).push(AlignOp::Ins)
    } else {
        Seq::empty()
    }
}

/// The preferred cheapest alignment of `a` with `b`.
pub open spec fn alignment(a: Seq<char>, b: Seq<char>) -> Seq<AlignOp> {
    align_at(a, b, a.len(), b.len())
}

/// The distance is at least the difference of the lengths and at most the longer length.
pub proof fn lemma_dist_bounds(a: Seq<char>, b: Seq<char>, i: nat, j: nat)
    ensures
        dist_at(a, b, i, j) <= i || dist_at(a, b, i, j) <= j,
        i <= dist_at(a, b, i, j) + j,
        j <= dist_at(a, b, i, j) + i,
    decreases i, j,
{
    if i > 0 && j > 0 {
        lemma_dist_bounds(a, b, (i - 1) as nat, j);
        lemma_dist_bounds(a, b, i, (j - 1) as nat);
        lemma_dist_bounds(a, b, (i - 1) as nat, (j - 1) as nat);
    }
}

/// One more character on either side changes the distance by at most one.
pub proof fn lemma_dist_step(a: Seq<char>, b: Seq<char>, i: nat, j: nat)
    ensures
        i > 0 ==> dist_at(a, b, (i - 1) as nat, j) <= dist_at(a, b, i, j) + 1,
        i > 0 ==> dist_at(a, b, i, j) <= dist_at(a, b, (i - 1) as nat, j) + 1,
        j > 0 ==> dist_at(a, b, i, (j - 1) as nat) <= dist_at(a, b, i, j) + 1,
        j > 0 ==> dist_at(a, b, i, j) <= dist_at(a, b, i, (j - 1) as nat) + 1,
    decreases i + j,
{
    if i > 0 && j > 0 {
        let i1 = (i - 1) as nat;
        let j1 = (j - 1) as nat;
        lemma_dist_step(a, b, i1, j);
        lemma_dist_step(a, b, i, j1);
        lemma_dist_step(a, b, i1, j1);
    }
}

/// Equal last characters can always be matched.
pub proof fn lemma_dist_match(a: Seq<char>, b: Seq<char>, i: nat, j: nat)
    requires
        i > 0,
        j > 0,
    ensures
        a[i - 1] == b[j - 1] ==> dist_at(a, b, i, j) == dist_at(
            a,
            b,
            (i - 1) as nat,
            (j - 1) as nat,
        ),
        dist_at(a, b, i, j) == dist_at(a, b, (i - 1) as nat, (j - 1) as nat) || dist_at(a, b, i, j)
            == dist_at(a, b, (i - 1) as nat, (j - 1) as nat) + 1,
{
    lemma_dist_step(a, b, (i - 1) as nat, j);
    lemma_dist_step(a, b, i, (j - 1) as nat);
}

pub proof fn lemma_counts_of_push(ops: Seq<AlignOp>, op: AlignOp, k: nat)
    requires
        k <= ops.len(),
    ensures
        wrong_at(ops.push(op), k) == wrong_at(ops, k),
        right_at(ops.push(op), k) == right_at(ops, k),
        cost_at(ops.push(op), k) == cost_at(ops, k),
    decreases k,
{
    if k > 0 {
        lemma_counts_of_push(ops, op, (k - 1) as nat);
    }
}

proof fn lemma_counts_monotone(ops: Seq<AlignOp>, k: nat, n: nat)
    requires
        k <= n,
    ensures
        wrong_at(ops, k) <= wrong_at(ops, n),
        right_at(ops, k) <= right_at(ops, n),
        cost_at(ops, k) <= cost_at(ops, n),
    decreases n,
{
    if k < n {
        lemma_counts_monotone(ops, k, (n - 1) as nat);
    }
}

/// Each step of an alignment finds the characters it uses.
pub proof fn lemma_step_in_bounds(a: Seq<char>, b: Seq<char>, ops: Seq<AlignOp>, k: nat)
    requires
        aligns(a, b, ops),
        k < ops.len(),
    ensures
        wrong_at(ops, k) <= a.len(),
        right_at(ops, k) <= b.len(),
        !(ops[k as int] is Ins) ==> wrong_at(ops, k) < a.len(),
        !(ops[k as int] is Del) ==> right_at(ops, k) < b.len(),
{
    lemma_counts_monotone(ops, k + 1, ops.len());
}

/// The alignment of two prefixes aligns them, at the cost of their distance.
pub proof fn lemma_align_at(a: Seq<char>, b: Seq<char>, i: nat, j: nat)
    ensures
        aligns_at(a, b, i, j, align_at(a, b, i, j)),
        cost(align_at(a, b, i, j)) == dist_at(a, b, i, j),
    decreases i + j,
{
    let ops = align_at(a, b, i, j);
    if i == 0 && j == 0 {
    } else {
        if i > 0 && j > 0 {
            lemma_dist_match(a, b, i, j);
        }
        let (pi, pj) = if ops.last() is Match || ops.last() is Sub {
            ((i - 1) as nat, (j - 1) as nat)
        } else if ops.last() is Del {
            ((i - 1) as nat, j)
        } else {
            (i, (j - 1) as nat)
        };
        lemma_align_at(a, b, pi, pj);
        let prev = align_at(a, b, pi, pj);
        assert(ops == prev.push(ops.last()));
        lemma_counts_of_push(prev, ops.last(), prev.len());
        assert forall|k: nat| k < ops.len() implies #[trigger] match_is_true(a, b, ops, k) by {
            lemma_counts_of_push(prev, ops.last(), k);
            if k < prev.len() {
                assert(match_is_true(a, b, prev, k));
            }
        }
    }
}

proof fn lemma_no_cheaper(a: Seq<char>, b: Seq<char>, i: nat, j: nat, ops: Seq<AlignOp>)
    requires
        aligns_at(a, b, i, j, ops),
    ensures
        cost(ops) >= dist_at(a, b, i, j),
    decreases ops.len(),
{
    if ops.len() > 0 {
        let prev = ops.drop_last();
        let op = ops.last();
        assert(prev.push(op) == ops);
        lemma_counts_of_push(prev, op, prev.len());
        let pi = wrong_at(prev, prev.len());
        let pj = right_at(prev, prev.len());
        assert forall|k: nat| k < prev.len() implies #[trigger] match_is_true(a, b, prev, k) by {
            lemma_counts_of_push(prev, op, k);
            assert(match_is_true(a, b, ops, k));
        }
        lemma_no_cheaper(a, b, pi, pj, prev);
        if op is Match {
            assert(match_is_true(a, b, ops, prev.len()));
            lemma_dist_match(a, b, i, j);
        } else if op is Sub {
            lemma_dist_match(a, b, i, j);
        } else {
            lemma_dist_step(a, b, i, j);
        }
    }
}

/// The alignment that is found is an alignment, its edits are as many as the edit
/// distance says, and no alignment of the two texts has fewer.
pub proof fn alignment_is_optimal(a: Seq<char>, b: Seq<char>, other: Seq<AlignOp>)
    requires
        aligns(a, b, other),
    ensures
        aligns(a, b, alignment(a, b)),
        cost(alignment(a, b)) == edit_distance(a, b),
        cost(other) >= edit_distance(a, b),
{
    lemma_align_at(a, b, a.len(), b.len());
    lemma_no_cheaper(a, b, a.len(), b.len(), other);
}

/// The edit distance is never less than the difference of the lengths, so a candidate
/// whose length differs by more than the allowed distance can be passed over unmeasured.
pub proof fn distance_covers_length_gap(a: Seq<char>, b: Seq<char>)
    ensures
        a.len() <= edit_distance(a, b) + b.len(),
        b.len() <= edit_distance(a, b) + a.len(),
        edit_distance(a, b) <= a.len() || edit_distance(a, b) <= b.len(),
{
    lemma_dist_bounds(a, b, a.len(), b.len());
}

proof fn lemma_dist_symmetric(a: Seq<char>, b: Seq<char>, i: nat, j: nat)
    ensures
        dist_at(a, b, i, j) == dist_at(b, a, j, i),
    decreases i + j,
{
    if i > 0 && j > 0 {
        lemma_dist_symmetric(a, b, (i - 1) as nat, j);
        lemma_dist_symmetric(a, b, i, (j - 1) as nat);
        lemma_dist_symmetric(a, b, (i - 1) as nat, (j - 1) as nat);
    }
}

/// The edit distance is the same in both directions.
pub proof fn distance_is_symmetric(a: Seq<char>, b: Seq<char>)
    ensures
        edit_distance(a, b) == edit_distance(b, a),
{
    lemma_dist_symmetric(a, b, a.len(), b.len());
}

proof fn lemma_dist_zero(a: Seq<char>, b: Seq<char>, i: nat, j: nat)
    requires
        i <= a.len(),
        j <= b.len(),
    ensures
        dist_at(a, b, i, j) == 0 <==> a.take(i as int) == b.take(j as int),
    decreases i + j,
{
    if i == 0 || j == 0 {
        if a.take(i as int) == b.take(j as int) {
            assert(a.take(i as int).len() == b.take(j as int).len());
        } else {
            assert(!(a.take(i as int) =~= b.take(j as int)));
        }
    } else {
        lemma_dist_match(a, b, i, j);
        lemma_dist_zero(a, b, (i - 1) as nat, (j - 1) as nat);
        let x = a.take(i as int);
        let y = b.take(j as int);
        assert(x.drop_last() == a.take(i - 1));
        assert(y.drop_last() == b.take(j - 1));
        if dist_at(a, b, i, j) == 0 {
            lemma_dist_bounds(a, b, i, j);
            assert(a[i - 1] == b[j - 1]);
            assert(x =~= x.drop_last().push(a[i - 1]));
            assert(y =~= y.drop_last().push(b[j - 1]));
        }
        if x == y {
            assert(x[i - 1] == a[i - 1]);
            assert(y[j - 1] == b[j - 1]);
            assert(x.len() == y.len());
        }
    }
}

/// Two texts are at distance zero exactly when they are equal.
pub proof fn distance_zero_means_equal(a: Seq<char>, b: Seq<char>)
    ensures
        edit_distance(a, b) == 0 <==> a == b,
{
    lemma_dist_zero(a, b, a.len(), b.len());
    assert(a.take(a.len() as int) == a);
    assert(b.take(b.len() as int) == b);
}

proof fn lemma_detour(a: Seq<char>, b: Seq<char>, c: Seq<char>, i: nat, j: nat, k: nat)
    ensures
        dist_at(a, c, i, k) <= dist_at(a, b, i, j) + dist_at(b, c, j, k),
    decreases i + j + k,
{
    lemma_dist_bounds(a, b, i, j);
    lemma_dist_bounds(b, c, j, k);
    lemma_dist_bounds(a, c, i, k);
    if i > 0 && j > 0 && k > 0 {
        let i1 = (i - 1) as nat;
        let j1 = (j - 1) as nat;
        let k1 = (k - 1) as nat;
        lemma_detour(a, b, c, i1, j, k);
        lemma_detour(a, b, c, i, j, k1);
        lemma_detour(a, b, c, i, j1, k);
        lemma_detour(a, b, c, i, j1, k1);
        lemma_detour(a, b, c, i1, j1, k);
        lemma_detour(a, b, c, i1, j1, k1);
        lemma_dist_step(a, c, i, k);
        lemma_dist_match(a, c, i, k);
    }
}

/// Going from one word to another by way of a third is never shorter than going straight.
pub proof fn no_detour_is_shorter(a: Seq<char>, b: Seq<char>, c: Seq<char>)
    ensures
        edit_distance(a, c) <= edit_distance(a, b) + edit_distance(b, c),
{
    lemma_detour(a, b, c, a.len(), b.len(), c.len());
}

/// A stretch on either side adds at most its longer side to the distance.
pub proof fn lemma_stretch(a: Seq<char>, b: Seq<char>, i: nat, j: nat, p: nat, q: nat)
    ensures
        dist_at(a, b, i + p, j + q) <= dist_at(a, b, i, j) + p || dist_at(a, b, i + p, j + q)
            <= dist_at(a, b, i, j) + q,
    decreases p + q,
{
    if p > 0 && q > 0 {
        lemma_stretch(a, b, i, j, (p - 1) as nat, (q - 1) as nat);
        lemma_dist_match(a, b, i + p, j + q);
    } else if p > 0 {
        lemma_stretch(a, b, i, j, (p - 1) as nat, q);
        lemma_dist_step(a, b, i + p, j);
    } else if q > 0 {
        lemma_stretch(a, b, i, j, p, (q - 1) as nat);
        lemma_dist_step(a, b, i, j + q);
    }
}

/// One cell of the distance table, from its upper, left and diagonal neighbours.
fn next_cell(up: usize, left: usize, diag: usize, same: bool) -> (r: usize)
    requires
        !same ==> min2(min2(up as nat, left as nat), diag as nat) < usize::MAX,
    ensures
        r == min2(
            min2((up + 1) as nat, (left + 1) as nat),
            (diag + (if same {
                0int
            } else {
                1int
            })) as nat,
        ),
{
    let near: usize = if up < left {
        up
    } else {
        left
    };
    if near < diag {
        near + 1
    } else if same {
        diag
    } else {
        diag + 1
    }
}

/// The Levenshtein distance between two words.
pub fn levenshtein(a: &[char], b: &[char]) -> (r: usize)
    ensures
        r == edit_distance(a@, b@),
{
    let n: usize = a.len();
    let m: usize = b.len();
    if n == 0 {
        return m;
    }
    if m == 0 {
        return n;
    }
    let mut row: Vec<usize> = Vec::new();
    let mut c: usize = 0;
    while c < m
        invariant
            c <= m,
            row.len() == c,
            forall|x: int| 0 <= x < c ==> row[x] == dist_at(a@, b@, 0, (x + 1) as nat),
        decreases m - c,
    {
        c += 1;
        row.push(c);
    }
    let mut i: usize = 0;
    while i < n
        invariant
            i <= n,
            n == a.len(),
            m == b.len(),
            row.len() == m,
            forall|x: int| 0 <= x < m ==> row[x] == dist_at(a@, b@, i as nat, (x + 1) as nat),
        decreases n - i,
    {
        let mut diag: usize = i;
        let mut left: usize = i + 1;
        let mut j: usize = 0;
        while j < m
            invariant
                i < n,
                j <= m,
                n == a.len(),
                m == b.len(),
                row.len() == m,
                diag == dist_at(a@, b@, i as nat, j as nat),
                left == dist_at(a@, b@, (i + 1) as nat, j as nat),
                forall|x: int|
                    0 <= x < j ==> row[x] == dist_at(a@, b@, (i + 1) as nat, (x + 1) as nat),
                forall|x: int|
                    j <= x < m ==> row[x] == dist_at(a@, b@, i as nat, (x + 1) as nat),
            decreases m - j,
        {
            let up: usize = row[j];
            proof {
                lemma_dist_bounds(a@, b@, (i + 1) as nat, (j + 1) as nat);
            }
            let new: usize = next_cell(up, left, diag, a[i] == b[j]);
            row.set(j, new);
            diag = up;
            left = new;
            j += 1;
        }
        i += 1;
    }
    row[m - 1]
}

/// The distance table of two words without its first row and column.
fn distance_table(a: &[char], b: &[char]) -> (t: Vec<Vec<usize>>)
    ensures
        is_table(a@, b@, t@, a@.len() as int),
{
    let n: usize = a.len();
    let m: usize = b.len();
    let mut t: Vec<Vec<usize>> = Vec::new();
    let mut i: usize = 0;
    while i < n
        invariant
            i <= n,
            n == a.len(),
            m == b.len(),
            is_table(a@, b@, t@, i as int),
        decreases n - i,
    {
        let mut row: Vec<usize> = Vec::new();
        let mut diag: usize = i;
        let mut left: usize = i + 1;
        let mut j: usize = 0;
        while j < m
            invariant
                i < n,
                j <= m,
                n == a.len(),
                m == b.len(),
                is_table(a@, b@, t@, i as int),
                row.len() == j,
                diag == dist_at(a@, b@, i as nat, j as nat),
                left == dist_at(a@, b@, (i + 1) as nat, j as nat),
                forall|x: int|
                    0 <= x < j ==> row[x] == dist_at(a@, b@, (i + 1) as nat, (x + 1) as nat),
            decreases m - j,
        {
            let up: usize = if i == 0 {
                j + 1
            } else {
                assert(t@[i - 1]@.len() == m);
                t[i - 1][j]
            };
            proof {
                lemma_dist_bounds(a@, b@, (i + 1) as nat, (j + 1) as nat);
            }
            let new: usize = next_cell(up, left, diag, a[i] == b[j]);
            row.push(new);
            diag = up;
            left = new;
            j += 1;
        }
        t.push(row);
        i += 1;
    }
    t
}

spec fn is_table(a: Seq<char>, b: Seq<char>, t: Seq<Vec<usize>>, rows: int) -> bool {
    &&& t.len() == rows
    &&& forall|x: int| 0 <= x < rows ==> (#[trigger] t[x])@.len() == b.len()
    &&& forall|x: int, y: int|
        0 <= x < rows && 0 <= y < b.len() ==> #[trigger] t[x]@[y] == dist_at(
            a,
            b,
            (x + 1) as nat,
            (y + 1) as nat,
        )
}

fn table_at(t: &Vec<Vec<usize>>, a: &[char], b: &[char], i: usize, j: usize) -> (d: usize)
    requires
        is_table(a@, b@, t@, a@.len() as int),
        i <= a@.len(),
        j <= b@.len(),
    ensures
        d == dist_at(a@, b@, i as nat, j as nat),
{
    if i == 0 {
        j
    } else if j == 0 {
        i
    } else {
        assert(t@[i - 1]@.len() == b@.len());
        t[i - 1][j - 1]
    }
}

fn reversed(ops: &Vec<AlignOp>) -> (r: Vec<AlignOp>)
    ensures
        r@ == ops@.reverse(),
{
    let mut out: Vec<AlignOp> = Vec::new();
    let mut i: usize = ops.len();
    while i > 0
        invariant
            i <= ops.len(),
            out@.len() == ops.len() - i,
            forall|x: int| 0 <= x < out@.len() ==> out@[x] == ops@[ops.len() - 1 - x],
        decreases i,
    {
        i -= 1;
        out.push(ops[i]);
    }
    assert(out@ =~= ops@.reverse());
    out
}

/// The preferred cheapest alignment of a wrong word with a right one.
pub fn build_alignment(a: &[char], b: &[char]) -> (r: Vec<AlignOp>)
    ensures
        r@ == alignment(a@, b@),
        aligns(a@, b@, r@),
        cost(r@) == edit_distance(a@, b@),
{
    let t = distance_table(a, b);
    let mut ops: Vec<AlignOp> = Vec::new();
    let mut i: usize = a.len();
    let mut j: usize = b.len();
    assert(ops@.reverse() =~= Seq::<AlignOp>::empty());
    assert(align_at(a@, b@, i as nat, j as nat) + ops@.reverse() =~= alignment(a@, b@));
    while i > 0 || j > 0
        invariant
            i <= a.len(),
            j <= b.len(),
            is_table(a@, b@, t@, a@.len() as int),
            align_at(a@, b@, i as nat, j as nat) + ops@.reverse() == alignment(a@, b@),
        decreases i + j,
    {
        let ghost before = ops@;
        let ghost here = align_at(a@, b@, i as nat, j as nat);
        let d: usize = table_at(&t, a, b, i, j);
        let mut op = AlignOp::Ins;
        if i > 0 && j > 0 {
            proof {
                lemma_dist_match(a@, b@, i as nat, j as nat);
            }
            let diag: usize = table_at(&t, a, b, i - 1, j - 1);
            if a[i - 1] == b[j - 1] && d == diag {
                op = AlignOp::Match;
            } else if d > diag && d - diag == 1 {
                op = AlignOp::Sub;
            }
        }
        if op == AlignOp::Ins && i > 0 {
            let up: usize = table_at(&t, a, b, i - 1, j);
            if d > up && d - up == 1 {
                op = AlignOp::Del;
            }
        }
        assert(here.len() > 0 && here.last() == op);
        ops.push(op);
        proof {
            assert(ops@.reverse() =~= seq![op] + before.reverse());
            assert(here =~= here.drop_last() + seq![op]);
            assert(here + before.reverse() =~= here.drop_last() + ops@.reverse());
        }
        if op == AlignOp::Match || op == AlignOp::Sub {
            i -= 1;
            j -= 1;
        } else if op == AlignOp::Del {
            i -= 1;
        } else {
            j -= 1;
        }
        assert(here.drop_last() =~= align_at(a@, b@, i as nat, j as nat));
    }
    let out = reversed(&ops);
    proof {
        lemma_align_at(a@, b@, a@.len(), b@.len());
        assert(align_at(a@, b@, 0, 0) + ops@.reverse() =~= ops@.reverse());
    }
    out
}

/// Whether step `k`, if it is a substitution, joins unequal characters.
pub open spec fn sub_is_true(a: Seq<char>, b: Seq<char>, ops: Seq<AlignOp>, k: nat) -> bool {
    ops[k as int] is Sub ==> a[wrong_at(ops, k) as int] != b[right_at(ops, k) as int]
}

proof fn lemma_subs_at(a: Seq<char>, b: Seq<char>, i: nat, j: nat, k: nat)
    requires
        k < align_at(a, b, i, j).len(),
    ensures
        sub_is_true(a, b, align_at(a, b, i, j), k),
    decreases i + j,
{
    let ops = align_at(a, b, i, j);
    if i > 0 || j > 0 {
        if i > 0 && j > 0 {
            lemma_dist_match(a, b, i, j);
        }
        let (pi, pj) = if ops.last() is Match || ops.last() is Sub {
            ((i - 1) as nat, (j - 1) as nat)
        } else if ops.last() is Del {
            ((i - 1) as nat, j)
        } else {
            (i, (j - 1) as nat)
        };
        let prev = align_at(a, b, pi, pj);
        assert(ops == prev.push(ops.last()));
        lemma_align_at(a, b, pi, pj);
        lemma_counts_of_push(prev, ops.last(), k);
        if k < prev.len() {
            lemma_subs_at(a, b, pi, pj, k);
        }
    }
}

/// Every substitution of the alignment that is found replaces a character by another one.
pub proof fn substitutions_are_real(a: Seq<char>, b: Seq<char>, k: nat)
    requires
        k < alignment(a, b).len(),
    ensures
        sub_is_true(a, b, alignment(a, b), k),
{
    lemma_subs_at(a, b, a.len(), b.len(), k);
}

} // verus!

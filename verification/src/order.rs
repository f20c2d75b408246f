//! Ordering by descending keys, with equal keys left in the order in which they came.

use vstd::prelude::*;
use vstd::seq_lib::{to_multiset_build, to_multiset_insert};

verus! {

/// Whether position `x` comes before position `y`: its key is greater, or the keys are
/// equal and it stood first.
pub open spec fn precedes(keys: Seq<i128>, x: int, y: int) -> bool {
    keys[x] > keys[y] || (keys[x] == keys[y] && x < y)
}

/// Whether `p` lists the positions from `lo` to `hi`, each once, in descending order of
/// their keys, with equal keys in their old order.
pub open spec fn orders_range(keys: Seq<i128>, p: Seq<usize>, lo: int, hi: int) -> bool {
    &&& p.len() == hi - lo
    &&& forall|i: int| 0 <= i < p.len() ==> lo <= #[trigger] p[i] < hi
    &&& forall|i: int, j: int|
        0 <= i < j < p.len() ==> precedes(keys, #[trigger] p[i] as int, #[trigger] p[j] as int)
    &&& forall|x: int| lo <= x < hi ==> #[trigger] p.contains(x as usize)
}

/// Whether `p` is the descending order of all the keys.
pub open spec fn descending(keys: Seq<i128>, p: Seq<usize>) -> bool {
    orders_range(keys, p, 0, keys.len() as int)
}

fn merge_orders(
    keys: &[i128],
    left: &Vec<usize>,
    right: &Vec<usize>,
    Ghost(lo): Ghost<int>,
    Ghost(mid): Ghost<int>,
    Ghost(hi): Ghost<int>,
) -> (p: Vec<usize>)
    requires
        0 <= lo <= mid <= hi <= keys@.len(),
        orders_range(keys@, left@, lo, mid),
        orders_range(keys@, right@, mid, hi),
    ensures
        orders_range(keys@, p@, lo, hi),
{
    let mut out: Vec<usize> = Vec::new();
    let mut i: usize = 0;
    let mut j: usize = 0;
    while i < left.len() || j < right.len()
        invariant
            0 <= lo <= mid <= hi <= keys@.len(),
            i <= left.len(),
            j <= right.len(),
            orders_range(keys@, left@, lo, mid),
            orders_range(keys@, right@, mid, hi),
            out.len() == i + j,
            forall|x: int| 0 <= x < out.len() ==> lo <= #[trigger] out[x] < hi,
            forall|x: int, y: int|
                0 <= x < y < out.len() ==> precedes(
                    keys@,
                    #[trigger] out[x] as int,
                    #[trigger] out[y] as int,
                ),
            forall|x: int, y: int|
                0 <= x < out.len() && i <= y < left.len() ==> precedes(
                    keys@,
                    #[trigger] out[x] as int,
                    #[trigger] left[y] as int,
                ),
            forall|x: int, y: int|
                0 <= x < out.len() && j <= y < right.len() ==> precedes(
                    keys@,
                    #[trigger] out[x] as int,
                    #[trigger] right[y] as int,
                ),
            forall|y: int| 0 <= y < i ==> out@.contains(#[trigger] left[y]),
            forall|y: int| 0 <= y < j ==> out@.contains(#[trigger] right[y]),
        decreases left.len() - i + right.len() - j,
    {
        let ghost before = out@;
        let from_left = j >= right.len() || (i < left.len() && keys[left[i]] >= keys[right[j]]);
        let next: usize = if from_left {
            left[i]
        } else {
            right[j]
        };
        out.push(next);
        proof {
            assert(out@[before.len() as int] == next);
            assert forall|v: usize| before.contains(v) implies out@.contains(v) by {
                let k = choose|k: int| 0 <= k < before.len() && before[k] == v;
                assert(out@[k] == v);
            }
        }
        if from_left {
            i += 1;
        } else {
            j += 1;
        }
    }
    assert forall|x: int| lo <= x < hi implies #[trigger] out@.contains(x as usize) by {
        if x < mid {
            assert(left@.contains(x as usize));
            let k = choose|k: int| 0 <= k < left@.len() && left@[k] == x as usize;
            assert(out@.contains(left[k]));
        } else {
            assert(right@.contains(x as usize));
            let k = choose|k: int| 0 <= k < right@.len() && right@[k] == x as usize;
            assert(out@.contains(right[k]));
        }
    }
    out
}

fn order_range(keys: &[i128], lo: usize, hi: usize) -> (p: Vec<usize>)
    requires
        lo <= hi <= keys@.len(),
    ensures
        orders_range(keys@, p@, lo as int, hi as int),
    decreases hi - lo,
{
    if hi - lo == 0 {
        return Vec::new();
    }
    if hi - lo == 1 {
        let mut one: Vec<usize> = Vec::new();
        one.push(lo);
        assert(one@[0] == lo);
        return one;
    }
    let mid: usize = lo + (hi - lo) / 2;
    let left = order_range(keys, lo, mid);
    let right = order_range(keys, mid, hi);
    merge_orders(keys, &left, &right, Ghost(lo as int), Ghost(mid as int), Ghost(hi as int))
}

proof fn lemma_order_agrees_upto(keys: Seq<i128>, p: Seq<usize>, q: Seq<usize>, n: int)
    requires
        keys.len() <= usize::MAX,
        descending(keys, p),
        descending(keys, q),
        0 <= n <= p.len(),
    ensures
        forall|i: int| 0 <= i < n ==> p[i] == q[i],
    decreases n,
{
    if n > 0 {
        lemma_order_agrees_upto(keys, p, q, n - 1);
        let i = n - 1;
        let x = p[i];
        let y = q[i];
        assert(q.contains(x as int as usize));
        assert(p.contains(y as int as usize));
        let a = choose|a: int| 0 <= a < q.len() && q[a] == x;
        let b = choose|b: int| 0 <= b < p.len() && p[b] == y;
        if x != y {
            if a < i {
                assert(p[a] == q[a]);
                assert(precedes(keys, p[a] as int, p[i] as int));
            } else if b < i {
                assert(p[b] == q[b]);
                assert(precedes(keys, q[b] as int, q[i] as int));
            } else {
                assert(precedes(keys, p[i] as int, p[b] as int));
                assert(precedes(keys, q[i] as int, q[a] as int));
            }
        }
    }
}

/// The descending order of a list of keys is unique.
pub proof fn descending_order_is_unique(keys: Seq<i128>, p: Seq<usize>, q: Seq<usize>)
    requires
        keys.len() <= usize::MAX,
        descending(keys, p),
        descending(keys, q),
    ensures
        p == q,
{
    lemma_order_agrees_upto(keys, p, q, p.len() as int);
    assert(p =~= q);
}

/// The descending order of a list of keys.
pub open spec fn order_of(keys: Seq<i128>) -> Seq<usize> {
    choose|p: Seq<usize>| descending(keys, p)
}

/// The positions of the keys in descending order of the keys; equal keys keep their order.
pub fn descending_order(keys: &[i128]) -> (p: Vec<usize>)
    ensures
        p@ == order_of(keys@),
        descending(keys@, p@),
{
    let p = order_range(keys, 0, keys.len());
    proof {
        assert(descending(keys@, p@));
        descending_order_is_unique(keys@, p@, order_of(keys@));
    }
    p
}

/// The counts of a list, as keys to order by.
pub open spec fn count_keys<K>(es: Seq<(K, usize)>) -> Seq<i128> {
    Seq::new(es.len(), |i: int| es[i].1 as i128)
}

/// A counted list with the greatest counts first; equal counts keep their order.
pub open spec fn by_count<K>(es: Seq<(K, usize)>) -> Seq<(K, usize)> {
    Seq::new(es.len(), |i: int| es[order_of(count_keys(es))[i] as int])
}

/// The order in which a counted list has its greatest counts first.
pub fn count_order<K>(es: &[(K, usize)]) -> (p: Vec<usize>)
    ensures
        p@ == order_of(count_keys(es@)),
        descending(count_keys(es@), p@),
{
    let mut keys: Vec<i128> = Vec::new();
    let mut i: usize = 0;
    while i < es.len()
        invariant
            i <= es.len(),
            keys@ == count_keys(es@).take(i as int),
        decreases es.len() - i,
    {
        keys.push(es[i].1 as i128);
        assert(keys@ =~= count_keys(es@).take(i + 1));
        i += 1;
    }
    assert(count_keys(es@).take(es@.len() as int) =~= count_keys(es@));
    descending_order(keys.as_slice())
}

/// Puts the greatest counts of a list first; equal counts keep their order.
pub fn sort_by_count<K: Copy>(es: &[(K, usize)]) -> (r: Vec<(K, usize)>)
    ensures
        r@ == by_count(es@),
        forall|e: (K, usize)| #[trigger] r@.contains(e) <==> es@.contains(e),
{
    let p = count_order(es);
    let mut out: Vec<(K, usize)> = Vec::new();
    let mut i: usize = 0;
    while i < p.len()
        invariant
            i <= p.len(),
            p@ == order_of(count_keys(es@)),
            descending(count_keys(es@), p@),
            out@ == by_count(es@).take(i as int),
        decreases p.len() - i,
    {
        assert(p@[i as int] < es@.len());
        out.push(es[p[i]]);
        assert(out@ =~= by_count(es@).take(i + 1));
        i += 1;
    }
    assert(by_count(es@).take(es@.len() as int) =~= by_count(es@));
    proof {
        assert forall|e: (K, usize)| #[trigger] out@.contains(e) <==> es@.contains(e) by {
            if out@.contains(e) {
                let x = choose|x: int| 0 <= x < out@.len() && out@[x] == e;
                assert(p@[x] < es@.len());
                assert(es@[p@[x] as int] == e);
            }
            if es@.contains(e) {
                let x = choose|x: int| 0 <= x < es@.len() && es@[x] == e;
                assert(es@.len() == es.len());
                assert(p@.contains(x as usize));
                let y = choose|y: int| 0 <= y < p@.len() && p@[y] == x as usize;
                assert(out@[y] == e);
            }
        }
    }
    out
}

/// The first position in `p`, from `i` on, whose key is less than `k`.
spec fn place_of(keys: Seq<i128>, p: Seq<usize>, k: i128, i: int) -> int
    decreases p.len() - i,
{
    if 0 <= i < p.len() && keys[p[i] as int] >= k {
        place_of(keys, p, k, i + 1)
    } else {
        i
    }
}

proof fn lemma_place_of(keys: Seq<i128>, p: Seq<usize>, k: i128, i: int)
    requires
        0 <= i <= p.len(),
    ensures
        i <= place_of(keys, p, k, i) <= p.len(),
        forall|x: int| i <= x < place_of(keys, p, k, i) ==> keys[#[trigger] p[x] as int] >= k,
        place_of(keys, p, k, i) < p.len() ==> keys[p[place_of(keys, p, k, i)] as int] < k,
    decreases p.len() - i,
{
    if i < p.len() && keys[p[i] as int] >= k {
        lemma_place_of(keys, p, k, i + 1);
    }
}

proof fn lemma_order_with_last(keys: Seq<i128>, p: Seq<usize>, c: int)
    requires
        0 < keys.len() <= usize::MAX,
        descending(keys.drop_last(), p),
        c == place_of(keys, p, keys.last(), 0),
    ensures
        descending(keys, p.insert(c, (keys.len() - 1) as usize)),
{
    let rest = keys.drop_last();
    let n = keys.len() - 1;
    let q = p.insert(c, n as usize);
    lemma_place_of(keys, p, keys.last(), 0);
    assert forall|i: int, j: int| 0 <= i < j < q.len() implies precedes(
        keys,
        #[trigger] q[i] as int,
        #[trigger] q[j] as int,
    ) by {
        let a = if i < c { i } else { i - 1 };
        let b = if j < c { j } else { j - 1 };
        if i == c {
            assert(q[j] == p[b]);
            if b > c {
                assert(precedes(rest, p[c] as int, p[b] as int));
            }
        } else if j == c {
            assert(q[i] == p[a]);
            assert(keys[p[a] as int] >= keys.last());
        } else {
            assert(q[i] == p[a] && q[j] == p[b]);
            assert(precedes(rest, p[a] as int, p[b] as int));
        }
    }
    assert forall|i: int| 0 <= i < q.len() implies 0 <= #[trigger] q[i] < keys.len() by {
        let a = if i < c { i } else { i - 1 };
        if i != c {
            assert(q[i] == p[a]);
        }
    }
    assert forall|x: int| 0 <= x < keys.len() implies #[trigger] q.contains(x as usize) by {
        if x == n {
            assert(q[c] == x as usize);
        } else {
            assert(p.contains(x as usize));
            let k = choose|k: int| 0 <= k < p.len() && p[k] == x as usize;
            if k < c {
                assert(q[k] == x as usize);
            } else {
                assert(q[k + 1] == x as usize);
            }
        }
    }
}

/// A list of keys that a machine word can number has a descending order.
pub proof fn descending_order_exists(keys: Seq<i128>)
    requires
        keys.len() <= usize::MAX,
    ensures
        descending(keys, order_of(keys)),
    decreases keys.len(),
{
    if keys.len() == 0 {
        assert(descending(keys, Seq::<usize>::empty()));
    } else {
        let rest = keys.drop_last();
        descending_order_exists(rest);
        let p = order_of(rest);
        let c = place_of(keys, p, keys.last(), 0);
        lemma_order_with_last(keys, p, c);
    }
}

/// Ordering a list by count keeps its entries, each as often as it was there, and puts no
/// count before a greater one.
pub proof fn ordering_keeps_the_entries<K>(es: Seq<(K, usize)>)
    requires
        es.len() <= usize::MAX,
    ensures
        descending(count_keys(es), order_of(count_keys(es))),
        by_count(es).to_multiset() == es.to_multiset(),
        forall|e: (K, usize)| #[trigger] by_count(es).contains(e) <==> es.contains(e),
        forall|i: int, j: int|
            0 <= i < j < es.len() ==> (#[trigger] by_count(es)[i]).1 >= (#[trigger] by_count(
                es,
            )[j]).1,
{
    let keys = count_keys(es);
    let p = order_of(keys);
    let out = by_count(es);
    descending_order_exists(keys);
    assert forall|i: int, j: int| 0 <= i < j < es.len() implies (#[trigger] out[i]).1 >= (
    #[trigger] out[j]).1 by {
        assert(precedes(keys, p[i] as int, p[j] as int));
    }
    assert forall|e: (K, usize)| #[trigger] out.contains(e) <==> es.contains(e) by {
        if out.contains(e) {
            let x = choose|x: int| 0 <= x < out.len() && out[x] == e;
            assert(p[x] < es.len());
            assert(es[p[x] as int] == e);
        }
        if es.contains(e) {
            let x = choose|x: int| 0 <= x < es.len() && es[x] == e;
            assert(p.contains(x as usize));
            let y = choose|y: int| 0 <= y < p.len() && p[y] == x as usize;
            assert(out[y] == e);
        }
    }
    assert forall|i: int, j: int| 0 <= i < j < p.len() implies #[trigger] p[i] != #[trigger] p[j] by {
        assert(precedes(keys, p[i] as int, p[j] as int));
    }
    lemma_rearranged(es, p);
    assert(out =~= rearranged(es, p));
}

/// The entries of a list in the order of the positions given.
spec fn rearranged<A>(es: Seq<A>, p: Seq<usize>) -> Seq<A> {
    Seq::new(p.len(), |i: int| es[p[i] as int])
}

proof fn lemma_rearranged<A>(es: Seq<A>, p: Seq<usize>)
    requires
        p.len() == es.len(),
        es.len() <= usize::MAX,
        forall|i: int| 0 <= i < p.len() ==> #[trigger] p[i] < es.len(),
        forall|i: int, j: int| 0 <= i < j < p.len() ==> #[trigger] p[i] != #[trigger] p[j],
        forall|x: int| 0 <= x < es.len() ==> #[trigger] p.contains(x as usize),
    ensures
        rearranged(es, p).to_multiset() == es.to_multiset(),
    decreases es.len(),
{
    let out = rearranged(es, p);
    if es.len() > 0 {
        let n = es.len() - 1;
        assert(p.contains(n as usize));
        let c = choose|c: int| 0 <= c < p.len() && p[c] == n as usize;
        let q = p.remove(c);
        let rest = es.drop_last();
        assert forall|x: int| 0 <= x < n implies #[trigger] q.contains(x as usize) by {
            assert(p.contains(x as usize));
            let k = choose|k: int| 0 <= k < p.len() && p[k] == x as usize;
            if k < c {
                assert(q[k] == x as usize);
            } else {
                assert(q[k - 1] == x as usize);
            }
        }
        assert forall|i: int| 0 <= i < q.len() implies #[trigger] q[i] < n by {
            let a = if i < c { i } else { i + 1 };
            assert(q[i] == p[a]);
            if a < c {
                assert(p[a] != p[c]);
            } else {
                assert(p[c] != p[a]);
            }
        }
        assert forall|i: int, j: int| 0 <= i < j < q.len() implies #[trigger] q[i]
            != #[trigger] q[j] by {
            let a = if i < c { i } else { i + 1 };
            let b = if j < c { j } else { j + 1 };
            assert(q[i] == p[a] && q[j] == p[b]);
        }
        lemma_rearranged(rest, q);
        assert(out =~= rearranged(rest, q).insert(c, es.last()));
        assert(es =~= rest.push(es.last()));
        to_multiset_insert(rearranged(rest, q), c, es.last());
        to_multiset_build(rest, es.last());
    } else {
        assert(out =~= es);
    }
}

} // verus!

//! What tables of counts hold and how they grow, for any kind of key.

use vstd::prelude::*;

verus! {

/// How often `k` has been counted.
pub open spec fn count_of<K>(m: Map<K, usize>, k: K) -> nat {
    if m.contains_key(k) {
        m[k] as nat
    } else {
        0
    }
}

/// Whether a table holds nothing.
pub open spec fn is_empty_table<K>(m: Map<K, usize>) -> bool {
    m == Map::<K, usize>::empty()
}

/// How often `k` occurs in a list.
pub open spec fn occurrences<K>(ks: Seq<K>, k: K) -> nat
    decreases ks.len(),
{
    if ks.len() == 0 {
        0
    } else {
        occurrences(ks.drop_last(), k) + (if ks.last() == k {
            1nat
        } else {
            0nat
        })
    }
}

/// Whether a table can take one more count for each item of a list without any count
/// growing past what a machine word holds.
pub open spec fn has_room<K>(m: Map<K, usize>, ks: Seq<K>) -> bool {
    forall|k: K| #[trigger] count_of(m, k) + occurrences(ks, k) <= usize::MAX
}

/// A table after one more count for each item of a list.
pub open spec fn tallied<K>(m: Map<K, usize>, ks: Seq<K>) -> Map<K, usize> {
    Map::new(
        |k: K| m.contains_key(k) || ks.contains(k),
        |k: K| (count_of(m, k) + occurrences(ks, k)) as usize,
    )
}

/// Whether a list names every entry of a table exactly once, with its count.
pub open spec fn lists_table<K>(es: Seq<(K, usize)>, m: Map<K, usize>) -> bool {
    &&& forall|i: int|
        0 <= i < es.len() ==> m.contains_key((#[trigger] es[i]).0) && m[es[i].0] == es[i].1
    &&& forall|i: int, j: int| 0 <= i < j < es.len() ==> (#[trigger] es[i]).0 != (#[trigger] es[j]).0
    &&& forall|k: K| #[trigger] m.contains_key(k) ==> exists|i: int| 0 <= i < es.len() && es[i].0 == k
}

pub proof fn lemma_occurs_iff_contained<K>(ks: Seq<K>, k: K)
    ensures
        ks.contains(k) <==> occurrences(ks, k) > 0,
    decreases ks.len(),
{
    if ks.len() > 0 {
        lemma_occurs_iff_contained(ks.drop_last(), k);
        if ks.contains(k) {
            let i = choose|i: int| 0 <= i < ks.len() && ks[i] == k;
            if i < ks.len() - 1 {
                assert(ks.drop_last()[i] == k);
            }
        }
        if ks.drop_last().contains(k) {
            let i = choose|i: int| 0 <= i < ks.drop_last().len() && ks.drop_last()[i] == k;
            assert(ks[i] == k);
        }
        assert(ks.last() == ks[ks.len() - 1]);
    }
}

proof fn lemma_occurrences_add<K>(xs: Seq<K>, ys: Seq<K>, k: K)
    ensures
        occurrences(xs + ys, k) == occurrences(xs, k) + occurrences(ys, k),
    decreases ys.len(),
{
    if ys.len() == 0 {
        assert(xs + ys =~= xs);
    } else {
        assert((xs + ys).drop_last() =~= xs + ys.drop_last());
        lemma_occurrences_add(xs, ys.drop_last(), k);
    }
}

/// Counting nothing changes nothing.
pub proof fn lemma_tallied_empty<K>(m: Map<K, usize>)
    ensures
        tallied(m, Seq::empty()) == m,
        has_room(m, Seq::empty()),
{
    assert(tallied(m, Seq::empty()) =~= m);
}

/// One more item in the list is one more count in the table.
pub proof fn lemma_tallied_push<K>(m: Map<K, usize>, ks: Seq<K>, k: K)
    requires
        has_room(m, ks),
    ensures
        count_of(tallied(m, ks), k) == count_of(m, k) + occurrences(ks, k),
        has_room(m, ks.push(k)) <==> count_of(tallied(m, ks), k) < usize::MAX,
        has_room(m, ks.push(k)) ==> tallied(m, ks.push(k)) == tallied(m, ks).insert(
            k,
            (count_of(tallied(m, ks), k) + 1) as usize,
        ),
{
    let next = ks.push(k);
    assert(next.drop_last() =~= ks);
    assert(count_of(m, k) + occurrences(ks, k) <= usize::MAX);
    lemma_occurs_iff_contained(ks, k);
    assert forall|x: K| occurrences(next, x) == occurrences(ks, x) + (if x == k {
        1nat
    } else {
        0nat
    }) by {}
    if count_of(tallied(m, ks), k) < usize::MAX {
        assert forall|x: K| #[trigger] count_of(m, x) + occurrences(next, x) <= usize::MAX by {
            assert(count_of(m, x) + occurrences(ks, x) <= usize::MAX);
        }
    } else {
        assert(count_of(m, k) + occurrences(next, k) > usize::MAX);
    }
    if has_room(m, next) {
        assert forall|x: K| next.contains(x) <==> ks.contains(x) || x == k by {
            lemma_occurs_iff_contained(next, x);
            lemma_occurs_iff_contained(ks, x);
        }
        assert(tallied(m, next) =~= tallied(m, ks).insert(
            k,
            (count_of(tallied(m, ks), k) + 1) as usize,
        ));
    }
}

/// A table with no room for the start of a list has none for the whole list.
pub proof fn lemma_room_of_prefix<K>(m: Map<K, usize>, ks: Seq<K>, n: int)
    requires
        0 <= n <= ks.len(),
    ensures
        has_room(m, ks) ==> has_room(m, ks.take(n)),
{
    if has_room(m, ks) {
        assert forall|k: K| #[trigger] count_of(m, k) + occurrences(ks.take(n), k) <= usize::MAX by {
            assert(ks =~= ks.take(n) + ks.skip(n));
            lemma_occurrences_add(ks.take(n), ks.skip(n), k);
            assert(count_of(m, k) + occurrences(ks, k) <= usize::MAX);
        }
    }
}

/// Counting one list and then another gives the same table as counting both at once.
pub proof fn tally_in_two_steps<K>(m: Map<K, usize>, xs: Seq<K>, ys: Seq<K>)
    requires
        has_room(m, xs + ys),
    ensures
        has_room(m, xs),
        has_room(tallied(m, xs), ys),
        tallied(tallied(m, xs), ys) == tallied(m, xs + ys),
{
    assert((xs + ys).take(xs.len() as int) =~= xs);
    lemma_room_of_prefix(m, xs + ys, xs.len() as int);
    assert forall|k: K| #[trigger] count_of(tallied(m, xs), k) + occurrences(ys, k) <= usize::MAX
        && count_of(tallied(m, xs), k) == count_of(m, k) + occurrences(xs, k) by {
        lemma_occurrences_add(xs, ys, k);
        lemma_occurs_iff_contained(xs, k);
        assert(count_of(m, k) + occurrences(xs + ys, k) <= usize::MAX);
        assert(count_of(m, k) + occurrences(xs, k) <= usize::MAX);
    }
    assert forall|k: K| (xs + ys).contains(k) <==> xs.contains(k) || ys.contains(k) by {
        lemma_occurrences_add(xs, ys, k);
        lemma_occurs_iff_contained(xs, k);
        lemma_occurs_iff_contained(ys, k);
        lemma_occurs_iff_contained(xs + ys, k);
    }
    assert forall|k: K| tallied(m, xs + ys).contains_key(k) implies #[trigger] tallied(
        tallied(m, xs),
        ys,
    )[k] == tallied(m, xs + ys)[k] by {
        lemma_occurrences_add(xs, ys, k);
        assert(count_of(tallied(m, xs), k) + occurrences(ys, k) <= usize::MAX);
    }
    assert(tallied(tallied(m, xs), ys) =~= tallied(m, xs + ys));
}

/// A table that has counted one list has room for another exactly if it had room for both.
pub proof fn lemma_room_in_two_steps<K>(m: Map<K, usize>, xs: Seq<K>, ys: Seq<K>)
    requires
        has_room(m, xs),
    ensures
        has_room(m, xs + ys) == has_room(tallied(m, xs), ys),
{
    assert forall|k: K|
        count_of(m, k) + occurrences(xs + ys, k) == #[trigger] count_of(tallied(m, xs), k)
            + occurrences(ys, k) by {
        lemma_occurrences_add(xs, ys, k);
        lemma_occurs_iff_contained(xs, k);
        assert(count_of(m, k) + occurrences(xs, k) <= usize::MAX);
    }
    if has_room(tallied(m, xs), ys) {
        assert forall|k: K| #[trigger] count_of(m, k) + occurrences(xs + ys, k) <= usize::MAX by {
            assert(count_of(tallied(m, xs), k) + occurrences(ys, k) <= usize::MAX);
        }
    }
    if has_room(m, xs + ys) {
        assert forall|k: K| #[trigger]
            count_of(tallied(m, xs), k) + occurrences(ys, k) <= usize::MAX by {
            assert(count_of(m, k) + occurrences(xs + ys, k) <= usize::MAX);
        }
    }
}

/// The order in which two lists are counted makes no difference.
pub proof fn tally_order_is_free<K>(m: Map<K, usize>, xs: Seq<K>, ys: Seq<K>)
    requires
        has_room(m, xs + ys),
    ensures
        has_room(m, ys + xs),
        tallied(tallied(m, xs), ys) == tallied(tallied(m, ys), xs),
{
    assert forall|k: K| #[trigger] occurrences(ys + xs, k) == occurrences(xs + ys, k) by {
        lemma_occurrences_add(xs, ys, k);
        lemma_occurrences_add(ys, xs, k);
    }
    assert forall|k: K| #[trigger] count_of(m, k) + occurrences(ys + xs, k) <= usize::MAX by {
        assert(count_of(m, k) + occurrences(xs + ys, k) <= usize::MAX);
    }
    tally_in_two_steps(m, xs, ys);
    tally_in_two_steps(m, ys, xs);
    assert forall|k: K| (xs + ys).contains(k) <==> (ys + xs).contains(k) by {
        lemma_occurs_iff_contained(xs + ys, k);
        lemma_occurs_iff_contained(ys + xs, k);
        assert(occurrences(ys + xs, k) == occurrences(xs + ys, k));
    }
    assert(tallied(m, xs + ys) =~= tallied(m, ys + xs));
}

proof fn lemma_occurrences_within<K>(ks: Seq<K>, k: K)
    ensures
        occurrences(ks, k) <= ks.len(),
    decreases ks.len(),
{
    if ks.len() > 0 {
        lemma_occurrences_within(ks.drop_last(), k);
    }
}

/// An empty table has room for every two lists that together are no longer than a machine
/// word counts, one after the other.
pub proof fn empty_table_has_room<K>(xs: Seq<K>, ys: Seq<K>)
    requires
        xs.len() + ys.len() <= usize::MAX,
    ensures
        has_room(Map::<K, usize>::empty(), xs),
        has_room(tallied(Map::<K, usize>::empty(), xs), ys),
{
    let none = Map::<K, usize>::empty();
    assert forall|k: K| #[trigger] count_of(none, k) + occurrences(xs, k) <= usize::MAX by {
        lemma_occurrences_within(xs, k);
    }
    assert forall|k: K| #[trigger] count_of(none, k) + occurrences(xs + ys, k) <= usize::MAX by {
        lemma_occurrences_within(xs + ys, k);
    }
    lemma_room_in_two_steps(none, xs, ys);
}

} // verus!

//! How counts grow, which errors count as learned, which runs are forgotten, and which examples
//! are kept.

use crate::counts::{count_of, has_room, lemma_occurs_iff_contained, occurrences, tallied};
use crate::examples::{by_rank, examples_of, rank_keys, with_example, ExampleView};
use crate::learn::{has_room_for, taught, with_examples, LessonView};
use crate::learned::learned_from;
use crate::order::{
    descending, descending_order_exists, descending_order_is_unique, order_of, precedes,
};
use crate::stats::{pruned, restored, written, Checkpoint, GlobalStats, StatsView};
use vstd::prelude::*;

verus! {

/// How often something is in a list.
pub open spec fn times_in<K>(ks: Seq<K>, k: K) -> nat {
    ks.filter(|x: K| x == k).len()
}

proof fn lemma_times<K>(ks: Seq<K>, k: K)
    ensures
        occurrences(ks, k) == times_in(ks, k),
    decreases ks.len(),
{
    reveal(Seq::filter);
    if ks.len() > 0 {
        lemma_times(ks.drop_last(), k);
    }
}

/// The count that a table has of something, or nothing.
pub open spec fn its_count<K>(m: Map<K, usize>, k: K) -> nat {
    if m.contains_key(k) {
        m[k] as nat
    } else {
        0
    }
}

/// Counting a list adds to the count of each thing as many as the list holds of it; a table has
/// an entry for what it had one for and for what the list holds.
pub proof fn counts_grow_by_what_is_listed<K>(m: Map<K, usize>, ks: Seq<K>, k: K)
    requires
        has_room(m, ks),
    ensures
        its_count(tallied(m, ks), k) == its_count(m, k) + times_in(ks, k),
        tallied(m, ks).contains_key(k) <==> m.contains_key(k) || times_in(ks, k) > 0,
{
    lemma_times(ks, k);
    lemma_occurs_iff_contained(ks, k);
    assert(count_of(m, k) + occurrences(ks, k) <= usize::MAX);
}

/// There is room for a list exactly if no count would pass what a machine word holds.
pub proof fn room_is_left_below_the_limit<K>(m: Map<K, usize>, ks: Seq<K>)
    ensures
        has_room(m, ks) <==> forall|k: K|
            #![trigger its_count(m, k)]
            its_count(m, k) + times_in(ks, k) <= usize::MAX,
{
    if has_room(m, ks) {
        assert forall|k: K|
            #![trigger its_count(m, k)]
            its_count(m, k) + times_in(ks, k) <= usize::MAX by {
            lemma_times(ks, k);
            assert(count_of(m, k) + occurrences(ks, k) <= usize::MAX);
        }
    }
    if forall|k: K|
        #![trigger its_count(m, k)]
        its_count(m, k) + times_in(ks, k) <= usize::MAX {
        assert forall|k: K| #[trigger] count_of(m, k) + occurrences(ks, k) <= usize::MAX by {
            lemma_times(ks, k);
            assert(its_count(m, k) + times_in(ks, k) <= usize::MAX);
        }
    }
}

/// A lesson is recorded in the tables that it is about: its runs, its rules, its confusions, its
/// missing characters and those too many each in their own, and its totals in the totals.
pub proof fn lessons_are_recorded_in_their_tables(
    s: StatsView,
    l: LessonView,
    run: Seq<Seq<char>>,
    rule: (Seq<char>, Seq<char>),
    pair: (char, char),
    c: char,
)
    requires
        has_room_for(s, l),
        l.oov <= usize::MAX,
        l.matched <= usize::MAX,
        l.skipped <= usize::MAX,
    ensures
        ({
            let t = taught(s, l);
            &&& its_count(t.ngrams, run) == its_count(s.ngrams, run) + times_in(l.ngrams, run)
            &&& its_count(t.error_matrix, rule) == its_count(s.error_matrix, rule) + times_in(
                l.rules,
                rule,
            )
            &&& its_count(t.ocr_confusions, pair) == its_count(s.ocr_confusions, pair) + times_in(
                l.confusions,
                pair,
            )
            &&& its_count(t.ocr_insertions, c) == its_count(s.ocr_insertions, c) + times_in(
                l.insertions,
                c,
            )
            &&& its_count(t.ocr_deletions, c) == its_count(s.ocr_deletions, c) + times_in(
                l.deletions,
                c,
            )
            &&& s.total_oov + l.oov <= usize::MAX ==> t.total_oov == s.total_oov + l.oov
            &&& s.total_matched + l.matched <= usize::MAX ==> t.total_matched == s.total_matched
                + l.matched
            &&& s.skipped_proper_nouns + l.skipped <= usize::MAX ==> t.skipped_proper_nouns
                == s.skipped_proper_nouns + l.skipped
            &&& t.processed == s.processed
            &&& t.fast_path_hits == s.fast_path_hits
            &&& t.slow_path_hits == s.slow_path_hits
        }),
{
    counts_grow_by_what_is_listed(s.ngrams, l.ngrams, run);
    counts_grow_by_what_is_listed(s.error_matrix, l.rules, rule);
    counts_grow_by_what_is_listed(s.ocr_confusions, l.confusions, pair);
    counts_grow_by_what_is_listed(s.ocr_insertions, l.insertions, c);
    counts_grow_by_what_is_listed(s.ocr_deletions, l.deletions, c);
}

/// An error counts as learned exactly if it was counted at least as often as is asked for: a
/// confusion, a missing character, or one too many.
pub proof fn frequent_errors_are_learned(s: &GlobalStats, min: usize, pair: (char, char), c: char)
    ensures
        learned_from(s, min).subs.contains(pair) <==> s.ocr_confusions@.contains_key(pair)
            && s.ocr_confusions@[pair] >= min,
        learned_from(s, min).insertions.contains(c) <==> s.ocr_insertions@.contains_key(c)
            && s.ocr_insertions@[c] >= min,
        learned_from(s, min).deletions.contains(c) <==> s.ocr_deletions@.contains_key(c)
            && s.ocr_deletions@[c] >= min,
{
}

/// Runs are forgotten only if there are more than the limit, and then exactly those that were
/// counted once or never; nothing else changes.
pub proof fn single_runs_are_forgotten(s: StatsView, limit: usize, run: Seq<Seq<char>>)
    ensures
        ({
            let t = pruned(s, limit);
            &&& s.ngrams.len() <= limit ==> t == s
            &&& s.ngrams.len() > limit ==> (t.ngrams.contains_key(run) <==> s.ngrams.contains_key(
                run,
            ) && s.ngrams[run] > 1)
            &&& t.ngrams.contains_key(run) ==> t.ngrams[run] == s.ngrams[run]
            &&& t == (StatsView { ngrams: t.ngrams, ..s })
        }),
{
}

/// Of several entries for one key the last one written stands, and every other key keeps its
/// count.
pub proof fn the_last_entry_stands<K>(m: Map<K, usize>, es: Seq<(K, usize)>, k: K, n: usize)
    ensures
        written(m, Seq::<(K, usize)>::empty()) == m,
        its_count(written(m, es.push((k, n))), k) == n,
        forall|x: K|
            x != k ==> #[trigger] its_count(written(m, es.push((k, n))), x) == its_count(
                written(m, es),
                x,
            ),
{
    assert(es.push((k, n)).drop_last() =~= es);
}

/// What a checkpoint restores: its own numbers, its entries over those that were there, and the
/// examples and the numbers of corrections as they were.
pub proof fn checkpoints_restore_their_numbers(before: StatsView, cp: &Checkpoint)
    ensures
        ({
            let s = restored(before, cp);
            &&& s.processed == cp.processed
            &&& s.total_oov == cp.total_oov
            &&& s.total_matched == cp.total_matched
            &&& s.skipped_proper_nouns == cp.skipped_proper_nouns
            &&& s.ocr_insertions == written(before.ocr_insertions, cp.ocr_insertions@)
            &&& s.ocr_deletions == written(before.ocr_deletions, cp.ocr_deletions@)
            &&& s.examples_sub == before.examples_sub
            &&& s.fast_path_hits == before.fast_path_hits
            &&& s.slow_path_hits == before.slow_path_hits
        }),
{
}

/// Up to fifty examples of a pair are kept in the order in which they came. One more puts the
/// highest ranks first, equal ones in their old order, and drops the last.
pub proof fn fifty_examples_are_kept(es: Seq<ExampleView>, e: ExampleView, i: int, j: int)
    requires
        es.len() <= 50,
        0 <= i < j < 50,
    ensures
        es.len() < 50 ==> with_example(es, e) == es.push(e),
        es.len() == 50 ==> {
            let kept = with_example(es, e);
            &&& kept.len() == 50
            &&& kept[i].rank >= kept[j].rank
            &&& es.push(e).contains(kept[i])
            &&& forall|x: ExampleView| #[trigger]
                es.push(e).contains(x) ==> kept.contains(x) || x.rank <= kept[j].rank
        },
{
    if es.len() == 50 {
        let all = es.push(e);
        let keys = rank_keys(all);
        let p = order_of(keys);
        let sorted = by_rank(all);
        let kept = with_example(es, e);
        descending_order_exists(keys);
        assert(descending(keys, p));
        assert(kept =~= sorted.take(50));
        assert(precedes(keys, p[i] as int, p[j] as int));
        assert(kept[i] == all[p[i] as int]);
        assert(kept[j] == all[p[j] as int]);
        assert forall|x: ExampleView| #[trigger] all.contains(x) implies kept.contains(x) || x.rank
            <= kept[j].rank by {
            let y = choose|y: int| 0 <= y < all.len() && all[y] == x;
            assert(p.contains(y as usize));
            let z = choose|z: int| 0 <= z < p.len() && p[z] == y as usize;
            if z < 50 {
                assert(kept[z] == x);
            } else {
                assert(precedes(keys, p[j] as int, p[z] as int));
            }
        }
    }
}

/// A fifty-first example of the same rank as all the others is dropped.
pub proof fn of_equal_examples_the_first_are_kept(es: Seq<ExampleView>, e: ExampleView)
    requires
        es.len() == 50,
        forall|i: int| 0 <= i < es.len() ==> (#[trigger] es[i]).rank == e.rank,
    ensures
        with_example(es, e) == es,
{
    let all = es.push(e);
    let keys = rank_keys(all);
    let p = Seq::new(51, |i: int| i as usize);
    assert forall|i: int| 0 <= i < 51 implies #[trigger] keys[i] == e.rank as i128 by {
        if i < 50 {
            assert(es[i].rank == e.rank);
        }
    }
    assert forall|x: int| 0 <= x < 51 implies #[trigger] p.contains(x as usize) by {
        assert(p[x] == x as usize);
    }
    assert forall|i: int, j: int| 0 <= i < j < p.len() implies precedes(
        keys,
        #[trigger] p[i] as int,
        #[trigger] p[j] as int,
    ) by {
        assert(keys[i] == keys[j]);
    }
    assert(descending(keys, p));
    descending_order_exists(keys);
    descending_order_is_unique(keys, p, order_of(keys));
    assert(with_example(es, e) =~= es);
}

/// An example is added to the examples of its pair of characters, and those of other pairs stay.
pub proof fn examples_go_to_their_pair(
    book: Map<(char, char), Seq<ExampleView>>,
    es: Seq<(char, char, ExampleView)>,
    from: char,
    to: char,
    e: ExampleView,
    other: (char, char),
)
    requires
        other != (from, to),
    ensures
        ({
            let before = with_examples(book, es);
            let after = with_examples(book, es.push((from, to, e)));
            &&& with_examples(book, Seq::empty()) == book
            &&& examples_of(after, (from, to)) == with_example(examples_of(before, (from, to)), e)
            &&& examples_of(after, other) == examples_of(before, other)
        }),
{
    assert(es.push((from, to, e)).drop_last() =~= es);
}

} // verus!

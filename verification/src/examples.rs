//! Examples of corrections, kept for each pair of confused characters.

use crate::order::{descending, descending_order, order_of};
use crate::tables::PairCounts;
use vstd::prelude::*;

verus! {

/// How many examples are kept for one pair.
pub const MAX_EXAMPLES: usize = 50;

/// One correction as it was seen in the text.
///
/// `rank` stands for the score of the correction: a whole number that grows with the
/// score, so that comparing ranks is comparing scores.
#[derive(Debug)]
pub struct Example {
    pub original: String,
    pub corrected: String,
    pub rule: String,
    pub reason: String,
    pub context: String,
    pub rank: i64,
}

/// The mathematical content of an `Example`.
#[verifier::ext_equal]
pub struct ExampleView {
    pub original: Seq<char>,
    pub corrected: Seq<char>,
    pub rule: Seq<char>,
    pub reason: Seq<char>,
    pub context: Seq<char>,
    pub rank: i64,
}

impl View for Example {
    type V = ExampleView;

    open spec fn view(&self) -> ExampleView {
        ExampleView {
            original: self.original@,
            corrected: self.corrected@,
            rule: self.rule@,
            reason: self.reason@,
            context: self.context@,
            rank: self.rank,
        }
    }
}

/// The contents of a list of examples.
pub open spec fn example_views(es: Seq<Example>) -> Seq<ExampleView> {
    Seq::new(es.len(), |i: int| es[i]@)
}

impl Example {
    /// A copy of the example.
    pub fn copy(&self) -> (r: Example)
        ensures
            r@ == self@,
    {
        Example {
            original: self.original.clone(),
            corrected: self.corrected.clone(),
            rule: self.rule.clone(),
            reason: self.reason.clone(),
            context: self.context.clone(),
            rank: self.rank,
        }
    }
}

/// The name of the rule that turns one character into another.
pub open spec fn rule_name(from: char, to: char) -> Seq<char> {
    seq![from, '→', to]
}

/// The name of the rule that turns one character into another.
pub fn rule_name_of(from: char, to: char) -> (r: String)
    ensures
        r@ == rule_name(from, to),
{
    let mut s = String::new();
    s.push(from);
    s.push('→');
    s.push(to);
    assert(s@ =~= rule_name(from, to));
    s
}

/// The ranks of a list of examples, as keys to order by.
pub open spec fn rank_keys(es: Seq<ExampleView>) -> Seq<i128> {
    Seq::new(es.len(), |i: int| es[i].rank as i128)
}

/// A list of examples with the highest ranks first; equal ranks keep their order.
pub open spec fn by_rank(es: Seq<ExampleView>) -> Seq<ExampleView> {
    Seq::new(es.len(), |i: int| es[order_of(rank_keys(es))[i] as int])
}

/// A list of examples with one more: once there are more than fifty, the fifty of the
/// highest ranks are kept.
pub open spec fn with_example(es: Seq<ExampleView>, e: ExampleView) -> Seq<ExampleView> {
    let all = es.push(e);
    if all.len() > MAX_EXAMPLES {
        by_rank(all).take(MAX_EXAMPLES as int)
    } else {
        all
    }
}

/// Keeps the fifty examples of the highest ranks.
fn best_examples(list: &Vec<Example>) -> (r: Vec<Example>)
    requires
        list@.len() > MAX_EXAMPLES,
    ensures
        example_views(r@) == by_rank(example_views(list@)).take(MAX_EXAMPLES as int),
{
    let ghost es = example_views(list@);
    let mut keys: Vec<i128> = Vec::new();
    let mut i: usize = 0;
    while i < list.len()
        invariant
            i <= list.len(),
            es == example_views(list@),
            keys@ == rank_keys(es).take(i as int),
        decreases list.len() - i,
    {
        keys.push(list[i].rank as i128);
        assert(keys@ =~= rank_keys(es).take(i + 1));
        i += 1;
    }
    assert(rank_keys(es).take(es.len() as int) =~= rank_keys(es));
    let p = descending_order(keys.as_slice());
    let mut out: Vec<Example> = Vec::new();
    let mut k: usize = 0;
    while k < MAX_EXAMPLES
        invariant
            k <= MAX_EXAMPLES,
            list@.len() > MAX_EXAMPLES,
            es == example_views(list@),
            p@ == order_of(rank_keys(es)),
            descending(rank_keys(es), p@),
            example_views(out@) == by_rank(es).take(k as int),
        decreases MAX_EXAMPLES - k,
    {
        assert(p@[k as int] < es.len());
        let ghost done = example_views(out@);
        out.push(list[p[k]].copy());
        proof {
            assert(example_views(out@) =~= done.push(by_rank(es)[k as int]));
            assert(by_rank(es).take(k + 1) =~= done.push(by_rank(es)[k as int]));
        }
        k += 1;
    }
    out
}

/// The examples of every pair of confused characters.
pub struct ExampleBook {
    slots: PairCounts,
    lists: Vec<Vec<Example>>,
}

impl View for ExampleBook {
    type V = Map<(char, char), Seq<ExampleView>>;

    closed spec fn view(&self) -> Map<(char, char), Seq<ExampleView>> {
        Map::new(
            |p: (char, char)| self.slots@.contains_key(p),
            |p: (char, char)| example_views(self.lists@[self.slots@[p] as int]@),
        )
    }
}

/// The examples that a book holds of a pair.
pub open spec fn examples_of(book: Map<(char, char), Seq<ExampleView>>, p: (char, char)) -> Seq<
    ExampleView,
> {
    if book.contains_key(p) {
        book[p]
    } else {
        Seq::empty()
    }
}

impl ExampleBook {
    /// Every pair has a list of its own.
    pub closed spec fn wf(&self) -> bool {
        &&& forall|p: (char, char)| #[trigger]
            self.slots@.contains_key(p) ==> self.slots@[p] < self.lists@.len()
        &&& forall|p: (char, char), q: (char, char)| #[trigger]
            self.slots@.contains_key(p) && #[trigger] self.slots@.contains_key(q) && self.slots@[p]
                == self.slots@[q] ==> p == q
    }

    /// The book without examples.
    pub fn new() -> (b: Self)
        ensures
            b.wf(),
            b@ == Map::<(char, char), Seq<ExampleView>>::empty(),
    {
        let b = ExampleBook { slots: PairCounts::new(), lists: Vec::new() };
        assert(b@ =~= Map::<(char, char), Seq<ExampleView>>::empty());
        b
    }

    /// The examples of a pair.
    pub fn get(&self, from: char, to: char) -> (r: Option<&Vec<Example>>)
        requires
            self.wf(),
        ensures
            match r {
                Some(v) => self@.contains_key((from, to)) && self@[(from, to)] == example_views(v@),
                None => !self@.contains_key((from, to)),
            },
    {
        match self.slots.get((from, to)) {
            Some(s) => Some(&self.lists[s]),
            None => None,
        }
    }

    /// Adds an example for a pair; the lists of the other pairs stay as they are.
    pub fn add(&mut self, from: char, to: char, ex: Example)
        requires
            old(self).wf(),
        ensures
            final(self).wf(),
            final(self)@ == old(self)@.insert(
                (from, to),
                with_example(examples_of(old(self)@, (from, to)), ex@),
            ),
    {
        let ghost before = *self;
        let ghost pair = (from, to);
        let slot: usize = match self.slots.get((from, to)) {
            Some(s) => s,
            None => {
                let s: usize = self.lists.len();
                self.lists.push(Vec::new());
                self.slots.set((from, to), s);
                s
            },
        };
        let ghost es = examples_of(before@, pair);
        assert(example_views(self.lists@[slot as int]@) =~= es);
        self.lists[slot].push(ex);
        assert(example_views(self.lists@[slot as int]@) =~= es.push(ex@));
        if self.lists[slot].len() > MAX_EXAMPLES {
            let best = best_examples(&self.lists[slot]);
            self.lists.set(slot, best);
        }
        proof {
            assert(example_views(self.lists@[slot as int]@) == with_example(es, ex@));
            assert forall|p: (char, char)| p != pair && self.slots@.contains_key(p) implies #[trigger]
                self.lists@[self.slots@[p] as int] == before.lists@[before.slots@[p] as int] by {}
            assert(self@ =~= before@.insert(pair, with_example(es, ex@)));
        }
    }
}

} // verus!

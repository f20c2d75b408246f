//! The dictionary of known words.

use ahash::RandomState;
use crate::chars::lowered;
use crate::sets::TextSet;
use crate::text::{chars_of, letters, letters_of, lower_chars, text_of, texts, trim_chars, trimmed};
use fastbloom::BloomFilter;
use std::collections::HashMap;
use vstd::prelude::*;

verus! {

/// The Bloom filter of `fastbloom`.
#[verifier::external_type_specification]
#[verifier::external_body]
#[verifier::reject_recursive_types(S)]
pub struct ExBloomFilter<S>(BloomFilter<S>);

/// The texts that a filter reports as contained: those that were inserted, and
/// some others by chance.
pub uninterp spec fn bloom_accepted(b: BloomFilter<RandomState>) -> Set<Seq<char>>;

/// `BloomFilter::insert`: from now on the text is reported as contained, and so is
/// every text that was before. Which other texts come to be reported rests on the
/// filter's random seed and is not said.
#[verifier::external_body]
fn bloom_insert(b: &mut BloomFilter<RandomState>, s: &str)
    ensures
        bloom_accepted(*final(b)).contains(s@),
        bloom_accepted(*old(b)).subset_of(bloom_accepted(*final(b))),
{
    b.insert(s);
}

/// `BloomFilter::contains`: whether the filter reports a text as contained.
#[verifier::external_body]
fn bloom_contains(b: &BloomFilter<RandomState>, s: &str) -> (r: bool)
    ensures
        r == bloom_accepted(*b).contains(s@),
{
    b.contains(s)
}

/// The fewest characters of a word that is proposed as a correction.
pub const MIN_CANDIDATE_LEN: usize = 5;

/// The content of a dictionary.
#[verifier::ext_equal]
pub struct DictView {
    /// The known words, in lower case.
    pub words: Set<Seq<char>>,
    /// The words of at least five characters, in the order in which they were
    /// given, under their first two characters.
    pub buckets: Map<(char, char), Seq<Seq<char>>>,
}

/// The word that a line of a word list contributes.
pub open spec fn accepted_word(line: Seq<char>) -> Option<Seq<char>> {
    let w = lowered(trimmed(line));
    if w.len() < 2 {
        None
    } else {
        Some(w)
    }
}

/// Whether a word is listed under the prefix `p`.
pub open spec fn in_bucket(w: Seq<char>, p: (char, char)) -> bool {
    w.len() >= MIN_CANDIDATE_LEN && w[0] == p.0 && w[1] == p.1
}

/// The words listed under the prefix `p`, in order.
pub open spec fn bucket_of(ws: Seq<Seq<char>>, p: (char, char)) -> Seq<Seq<char>>
    decreases ws.len(),
{
    if ws.len() == 0 {
        Seq::empty()
    } else if in_bucket(ws.last(), p) {
        bucket_of(ws.drop_last(), p).push(ws.last())
    } else {
        bucket_of(ws.drop_last(), p)
    }
}

/// The dictionary of a list of words.
pub open spec fn dict_of(ws: Seq<Seq<char>>) -> DictView {
    DictView {
        words: ws.to_set(),
        buckets: Map::new(
            |p: (char, char)| bucket_of(ws, p).len() > 0,
            |p: (char, char)| bucket_of(ws, p),
        ),
    }
}

impl DictView {
    /// Whether a word is known, whatever its case.
    pub open spec fn knows(self, word: Seq<char>) -> bool {
        self.words.contains(lowered(word))
    }

    /// The words to compare a wrong word with: those that begin with its first two letters.
    pub open spec fn candidates(self, word: Seq<char>) -> Option<Seq<Seq<char>>> {
        let ls = letters(word);
        if ls.len() >= 2 && self.buckets.contains_key((ls[0], ls[1])) {
            Some(self.buckets[(ls[0], ls[1])])
        } else {
            None
        }
    }
}

proof fn lemma_bucket(ws: Seq<Seq<char>>, p: (char, char), j: int)
    requires
        0 <= j < bucket_of(ws, p).len(),
    ensures
        ws.contains(bucket_of(ws, p)[j]),
        in_bucket(bucket_of(ws, p)[j], p),
    decreases ws.len(),
{
    if ws.len() > 0 {
        let rest = ws.drop_last();
        if j < bucket_of(rest, p).len() {
            lemma_bucket(rest, p, j);
            let x = choose|x: int| 0 <= x < rest.len() && rest[x] == bucket_of(rest, p)[j];
            assert(ws[x] == rest[x]);
        } else {
            assert(ws[ws.len() - 1] == bucket_of(ws, p)[j]);
        }
    }
}

/// The words that a wrong word is compared with are words of the dictionary, of at least five
/// characters, that begin with its first two letters.
pub proof fn candidates_are_words(ws: Seq<Seq<char>>, word: Seq<char>, j: int)
    requires
        dict_of(ws).candidates(word) is Some,
        0 <= j < dict_of(ws).candidates(word)->0.len(),
    ensures
        ({
            let w = dict_of(ws).candidates(word)->0[j];
            &&& dict_of(ws).words.contains(w)
            &&& w.len() >= MIN_CANDIDATE_LEN
            &&& w[0] == letters(word)[0]
            &&& w[1] == letters(word)[1]
        }),
{
    let ls = letters(word);
    lemma_bucket(ws, (ls[0], ls[1]), j);
}

/// The number that stands for a prefix of two characters.
spec fn prefix_number(p: (char, char)) -> u64 {
    (p.0 as u64 * 0x200000 + p.1 as u64) as u64
}

proof fn lemma_prefix_chars(a: char, b: char, c: char, d: char)
    ensures
        prefix_number((a, b)) == prefix_number((c, d)) ==> a == c && b == d,
{
    assert(a as u64 * 0x200000 + b as u64 <= u64::MAX);
    assert(c as u64 * 0x200000 + d as u64 <= u64::MAX);
}

proof fn lemma_prefix_number(p: (char, char), q: (char, char))
    ensures
        prefix_number(p) == prefix_number(q) ==> p == q,
{
    lemma_prefix_chars(p.0, p.1, q.0, q.1);
}

fn prefix_key(a: char, b: char) -> (k: u64)
    ensures
        k == prefix_number((a, b)),
{
    (a as u64) * 0x200000 + b as u64
}

/// The dictionary: an exact set of words behind a Bloom filter, and the words to
/// propose, by prefix.
pub struct Dictionary {
    bloom: BloomFilter<RandomState>,
    words: TextSet,
    slots: HashMap<u64, usize>,
    buckets: Vec<Vec<String>>,
}

spec fn slot_map(slots: Map<u64, usize>, buckets: Seq<Vec<String>>) -> Map<
    (char, char),
    Seq<Seq<char>>,
> {
    Map::new(
        |p: (char, char)| slots.contains_key(prefix_number(p)),
        |p: (char, char)| texts(buckets[slots[prefix_number(p)] as int]@),
    )
}

impl View for Dictionary {
    type V = DictView;

    closed spec fn view(&self) -> DictView {
        DictView { words: self.words@, buckets: slot_map(self.slots@, self.buckets@) }
    }
}

impl Dictionary {
    #[verifier::type_invariant]
    spec fn wf(self) -> bool {
        &&& self.words@.subset_of(bloom_accepted(self.bloom))
        &&& forall|k: u64| #[trigger]
            self.slots@.contains_key(k) ==> self.slots@[k] < self.buckets@.len()
    }

    /// Reads one line of a word list: the trimmed line in lower case, unless it is
    /// shorter than two characters.
    pub fn accept_line(line: &str) -> (r: Option<String>)
        ensures
            match r {
                Some(w) => accepted_word(line@) == Some(w@),
                None => accepted_word(line@) is None,
            },
    {
        let cs = chars_of(line);
        let low = lower_chars(trim_chars(cs.as_slice()).as_slice());
        if low.len() < 2 {
            None
        } else {
            Some(text_of(low.as_slice()))
        }
    }

    /// Builds the dictionary of a list of words, with a Bloom filter to start from.
    pub fn build(list: &[String], filter: BloomFilter<RandomState>) -> (d: Dictionary)
        ensures
            d@ == dict_of(texts(list@)),
    {
        let mut bloom = filter;
        let mut words = TextSet::new();
        let mut slots: HashMap<u64, usize> = HashMap::new();
        let mut buckets: Vec<Vec<String>> = Vec::new();
        let ghost ws = texts(list@);
        let mut i: usize = 0;
        assert(ws.take(0) =~= Seq::empty());
        while i < list.len()
            invariant
                i <= list.len(),
                ws == texts(list@),
                words@.subset_of(bloom_accepted(bloom)),
                forall|w: Seq<char>| words@.contains(w) <==> ws.take(i as int).contains(w),
                forall|k: u64| #[trigger] slots@.contains_key(k) ==> slots@[k] < buckets@.len(),
                forall|k: u64, l: u64| #[trigger]
                    slots@.contains_key(k) && #[trigger] slots@.contains_key(l) && slots@[k]
                        == slots@[l] ==> k == l,
                forall|p: (char, char)| #[trigger]
                    slots@.contains_key(prefix_number(p)) <==> bucket_of(ws.take(i as int), p).len()
                        > 0,
                forall|p: (char, char)| #[trigger]
                    slots@.contains_key(prefix_number(p)) ==> texts(
                        buckets@[slots@[prefix_number(p)] as int]@,
                    ) == bucket_of(ws.take(i as int), p),
            decreases list.len() - i,
        {
            let ghost seen = ws.take(i as int);
            let ghost w = list@[i as int]@;
            proof {
                assert(ws.take(i + 1).drop_last() =~= seen);
                assert(ws.take(i + 1) =~= seen.push(w));
                let next = ws.take(i + 1);
                assert forall|x: Seq<char>| next.contains(x) <==> seen.contains(x) || x == w by {
                    if seen.contains(x) {
                        let j = choose|j: int| 0 <= j < seen.len() && seen[j] == x;
                        assert(next[j] == x);
                    }
                    assert(next[i as int] == w);
                    if next.contains(x) {
                        let j = choose|j: int| 0 <= j < next.len() && next[j] == x;
                        if j < i {
                            assert(seen[j] == x);
                        }
                    }
                }
            }
            let cs = chars_of(list[i].as_str());
            if cs.len() >= MIN_CANDIDATE_LEN {
                let key: u64 = prefix_key(cs[0], cs[1]);
                let ghost here = (w[0], w[1]);
                let ghost slots0 = slots@;
                let ghost buckets0 = buckets@;
                let found: Option<usize> = match slots.get(&key) {
                    Some(s) => Some(*s),
                    None => None,
                };
                match found {
                    Some(s) => {
                        buckets[s].push(list[i].clone());
                        proof {
                            assert(slots@.contains_key(key));
                            let b = texts(buckets0[s as int]@);
                            assert(texts(buckets@[s as int]@) =~= b.push(w));
                        }
                    },
                    None => {
                        let mut fresh: Vec<String> = Vec::new();
                        fresh.push(list[i].clone());
                        slots.insert(key, buckets.len());
                        buckets.push(fresh);
                        proof {
                            assert(texts(fresh@) =~= seq![w]);
                            assert(!slots0.contains_key(prefix_number(here)));
                            assert(bucket_of(seen, here) =~= Seq::empty());
                            assert(bucket_of(ws.take(i + 1), here) =~= seq![w]);
                        }
                    },
                }
                proof {
                    assert forall|p: (char, char)| #[trigger]
                        slots@.contains_key(prefix_number(p)) <==> bucket_of(
                        ws.take(i + 1),
                        p,
                    ).len() > 0 by {
                        lemma_prefix_number(p, here);
                        assert(slots0.contains_key(prefix_number(p)) <==> bucket_of(seen, p).len()
                            > 0);
                    }
                    assert forall|p: (char, char)| #[trigger]
                        slots@.contains_key(prefix_number(p)) implies texts(
                        buckets@[slots@[prefix_number(p)] as int]@,
                    ) == bucket_of(ws.take(i + 1), p) by {
                        lemma_prefix_number(p, here);
                        if p != here {
                            assert(slots0.contains_key(prefix_number(p)));
                            assert(buckets@[slots@[prefix_number(p)] as int]
                                == buckets0[slots0[prefix_number(p)] as int]);
                        }
                    }
                }
            }
            bloom_insert(&mut bloom, list[i].as_str());
            words.insert(list[i].clone());
            i += 1;
        }
        assert(ws.take(ws.len() as int) =~= ws);
        let d = Dictionary { bloom, words, slots, buckets };
        proof {
            assert(d@.words =~= dict_of(ws).words);
            assert(d@.buckets =~= dict_of(ws).buckets);
        }
        d
    }

    /// Whether a word is known, whatever its case. The Bloom filter only spares
    /// lookups: it never turns a known word away.
    pub fn contains(&self, word: &str) -> (r: bool)
        ensures
            r == self@.knows(word@),
    {
        proof {
            use_type_invariant(self);
        }
        let low = word.to_lowercase();
        bloom_contains(&self.bloom, low.as_str()) && self.words.contains(low.as_str())
    }

    /// The words to compare a wrong word with: those that begin with its first two letters.
    pub fn candidates_for(&self, word_lower: &str) -> (r: Option<&Vec<String>>)
        ensures
            match r {
                Some(v) => self@.candidates(word_lower@) == Some(texts(v@)),
                None => self@.candidates(word_lower@) is None,
            },
    {
        proof {
            use_type_invariant(self);
        }
        let ls = letters_of(chars_of(word_lower).as_slice());
        if ls.len() < 2 {
            return None;
        }
        let key: u64 = prefix_key(ls[0], ls[1]);
        match self.slots.get(&key) {
            Some(s) => Some(&self.buckets[*s]),
            None => None,
        }
    }

    /// The number of different words.
    pub fn word_count(&self) -> (r: usize)
        ensures
            r == self@.words.len(),
    {
        self.words.len()
    }
}

} // verus!

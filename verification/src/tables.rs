//! Tables of counts kept in concurrent hash maps, one type for each kind of key.

use ahash::RandomState;
use crate::counts::{
    has_room, is_empty_table, lemma_room_of_prefix, lemma_tallied_empty, lemma_tallied_push,
    lists_table, tallied,
};
use crate::text::{clone_texts, texts};
use dashmap::DashMap;
use vstd::prelude::*;

verus! {

/// The concurrent hash map of `dashmap`.
#[verifier::external_type_specification]
#[verifier::external_body]
#[verifier::reject_recursive_types(K)]
#[verifier::reject_recursive_types(V)]
#[verifier::reject_recursive_types(S)]
pub struct ExDashMap<K, V, S>(DashMap<K, V, S>);

/// The hasher state of `ahash`.
#[verifier::external_type_specification]
#[verifier::external_body]
pub struct ExRandomState(RandomState);

/// What a map from pairs of characters to counts holds.
pub uninterp spec fn pair_entries(
    m: DashMap<(char, char), usize, RandomState>,
) -> Map<(char, char), usize>;

/// `DashMap::with_hasher` with a fresh `ahash::RandomState`: a map that holds nothing.
#[verifier::external_body]
fn pair_map_new() -> (m: DashMap<(char, char), usize, RandomState>)
    ensures
        is_empty_table(pair_entries(m)),
{
    DashMap::with_hasher(RandomState::new())
}

/// `DashMap::get`: the value under a key, if there is one.
#[verifier::external_body]
fn pair_map_get(
    m: &DashMap<(char, char), usize, RandomState>,
    key: (char, char),
) -> (r: Option<usize>)
    ensures
        r == (if pair_entries(*m).contains_key(key) {
            Some(pair_entries(*m)[key])
        } else {
            None
        }),
{
    m.get(&key).map(|v| *v)
}

/// `DashMap::insert`: puts a value under a key, over what was there, and leaves the rest.
#[verifier::external_body]
fn pair_map_insert(
    m: &mut DashMap<(char, char), usize, RandomState>,
    key: (char, char),
    value: usize,
)
    ensures
        pair_entries(*final(m)) == pair_entries(*old(m)).insert(key, value),
{
    m.insert(key, value);
}

/// `DashMap::iter`: hands out every entry once, in an order that is not specified.
#[verifier::external_body]
fn pair_map_list(m: &DashMap<(char, char), usize, RandomState>) -> (r: Vec<((char, char), usize)>)
    ensures
        lists_table(r@, pair_entries(*m)),
{
    m.iter().map(|e| (e.key().clone(), *e.value())).collect()
}

/// `DashMap::len`: the number of entries.
#[verifier::external_body]
fn pair_map_len(m: &DashMap<(char, char), usize, RandomState>) -> (r: usize)
    ensures
        r == pair_entries(*m).len(),
{
    m.len()
}

/// A table of counts for pairs of characters.
pub struct PairCounts {
    map: DashMap<(char, char), usize, RandomState>,
}

impl View for PairCounts {
    type V = Map<(char, char), usize>;

    closed spec fn view(&self) -> Map<(char, char), usize> {
        pair_entries(self.map)
    }
}

impl PairCounts {
    /// The empty table.
    pub fn new() -> (t: Self)
        ensures
            t@ == Map::<(char, char), usize>::empty(),
    {
        PairCounts { map: pair_map_new() }
    }

    /// The entry under a key.
    pub fn get(&self, key: (char, char)) -> (r: Option<usize>)
        ensures
            r == (if self@.contains_key(key) {
                Some(self@[key])
            } else {
                None
            }),
    {
        pair_map_get(&self.map, key)
    }

    /// Sets the entry under a key.
    pub fn set(&mut self, key: (char, char), value: usize)
        ensures
            final(self)@ == old(self)@.insert(key, value),
    {
        pair_map_insert(&mut self.map, key, value);
    }

    /// Every entry once, in no particular order.
    pub fn entries(&self) -> (r: Vec<((char, char), usize)>)
        ensures
            lists_table(r@, self@),
    {
        pair_map_list(&self.map)
    }

    /// The number of entries.
    pub fn len(&self) -> (r: usize)
        ensures
            r == self@.len(),
    {
        pair_map_len(&self.map)
    }

    /// Counts every item of a list; `false` if a count would grow past `usize::MAX`.
    pub fn count_all(&mut self, keys: &[(char, char)]) -> (r: bool)
        ensures
            r == has_room(old(self)@, keys@),
            r ==> final(self)@ == tallied(old(self)@, keys@),
    {
        let ghost start = self@;
        let ghost ks = keys@;
        let mut i: usize = 0;
        proof {
            assert(ks.take(0) =~= Seq::empty());
            lemma_tallied_empty(start);
        }
        while i < keys.len()
            invariant
                i <= keys.len(),
                ks == keys@,
                start == old(self)@,
                has_room(start, ks.take(i as int)),
                self@ == tallied(start, ks.take(i as int)),
            decreases keys.len() - i,
        {
            let key = keys[i];
            proof {
                assert(ks[i as int] == key);
                assert(ks.take(i + 1) =~= ks.take(i as int).push(key));
                lemma_tallied_push(start, ks.take(i as int), key);
                lemma_room_of_prefix(start, ks, i + 1);
            }
            let n: usize = match self.get(key) {
                Some(n) => n,
                None => 0,
            };
            if n == usize::MAX {
                return false;
            }
            self.set(key, n + 1);
            i += 1;
        }
        assert(ks.take(ks.len() as int) =~= ks);
        true
    }
}

/// What a map from single characters to counts holds.
pub uninterp spec fn letter_entries(m: DashMap<char, usize, RandomState>) -> Map<char, usize>;

/// `DashMap::with_hasher` with a fresh `ahash::RandomState`: a map that holds nothing.
#[verifier::external_body]
fn letter_map_new() -> (m: DashMap<char, usize, RandomState>)
    ensures
        is_empty_table(letter_entries(m)),
{
    DashMap::with_hasher(RandomState::new())
}

/// `DashMap::get`: the value under a key, if there is one.
#[verifier::external_body]
fn letter_map_get(m: &DashMap<char, usize, RandomState>, key: char) -> (r: Option<usize>)
    ensures
        r == (if letter_entries(*m).contains_key(key) {
            Some(letter_entries(*m)[key])
        } else {
            None
        }),
{
    m.get(&key).map(|v| *v)
}

/// `DashMap::insert`: puts a value under a key, over what was there, and leaves the rest.
#[verifier::external_body]
fn letter_map_insert(m: &mut DashMap<char, usize, RandomState>, key: char, value: usize)
    ensures
        letter_entries(*final(m)) == letter_entries(*old(m)).insert(key, value),
{
    m.insert(key, value);
}

/// `DashMap::iter`: hands out every entry once, in an order that is not specified.
#[verifier::external_body]
fn letter_map_list(m: &DashMap<char, usize, RandomState>) -> (r: Vec<(char, usize)>)
    ensures
        lists_table(r@, letter_entries(*m)),
{
    m.iter().map(|e| (e.key().clone(), *e.value())).collect()
}

/// A table of counts for single characters.
pub struct LetterCounts {
    map: DashMap<char, usize, RandomState>,
}

impl View for LetterCounts {
    type V = Map<char, usize>;

    closed spec fn view(&self) -> Map<char, usize> {
        letter_entries(self.map)
    }
}

impl LetterCounts {
    /// The empty table.
    pub fn new() -> (t: Self)
        ensures
            t@ == Map::<char, usize>::empty(),
    {
        LetterCounts { map: letter_map_new() }
    }

    /// The entry under a key.
    pub fn get(&self, key: char) -> (r: Option<usize>)
        ensures
            r == (if self@.contains_key(key) {
                Some(self@[key])
            } else {
                None
            }),
    {
        letter_map_get(&self.map, key)
    }

    /// Sets the entry under a key.
    pub fn set(&mut self, key: char, value: usize)
        ensures
            final(self)@ == old(self)@.insert(key, value),
    {
        letter_map_insert(&mut self.map, key, value);
    }

    /// Every entry once, in no particular order.
    pub fn entries(&self) -> (r: Vec<(char, usize)>)
        ensures
            lists_table(r@, self@),
    {
        letter_map_list(&self.map)
    }

    /// Counts every item of a list; `false` if a count would grow past `usize::MAX`.
    pub fn count_all(&mut self, keys: &[char]) -> (r: bool)
        ensures
            r == has_room(old(self)@, keys@),
            r ==> final(self)@ == tallied(old(self)@, keys@),
    {
        let ghost start = self@;
        let ghost ks = keys@;
        let mut i: usize = 0;
        proof {
            assert(ks.take(0) =~= Seq::empty());
            lemma_tallied_empty(start);
        }
        while i < keys.len()
            invariant
                i <= keys.len(),
                ks == keys@,
                start == old(self)@,
                has_room(start, ks.take(i as int)),
                self@ == tallied(start, ks.take(i as int)),
            decreases keys.len() - i,
        {
            let key = keys[i];
            proof {
                assert(ks[i as int] == key);
                assert(ks.take(i + 1) =~= ks.take(i as int).push(key));
                lemma_tallied_push(start, ks.take(i as int), key);
                lemma_room_of_prefix(start, ks, i + 1);
            }
            let n: usize = match self.get(key) {
                Some(n) => n,
                None => 0,
            };
            if n == usize::MAX {
                return false;
            }
            self.set(key, n + 1);
            i += 1;
        }
        assert(ks.take(ks.len() as int) =~= ks);
        true
    }
}

/// The keys of a list of text pairs.
pub open spec fn rule_keys(ks: Seq<(String, String)>) -> Seq<(Seq<char>, Seq<char>)> {
    Seq::new(ks.len(), |i: int| (ks[i].0@, ks[i].1@))
}

/// The contents of a list of counted text pairs.
pub open spec fn rule_list(es: Seq<((String, String), usize)>) -> Seq<
    ((Seq<char>, Seq<char>), usize),
> {
    Seq::new(es.len(), |i: int| ((es[i].0.0@, es[i].0.1@), es[i].1))
}

/// What a map from pairs of texts to counts holds.
pub uninterp spec fn rule_entries(
    m: DashMap<(String, String), usize, RandomState>,
) -> Map<(Seq<char>, Seq<char>), usize>;

/// `DashMap::with_hasher` with a fresh `ahash::RandomState`: a map that holds nothing.
#[verifier::external_body]
fn rule_map_new() -> (m: DashMap<(String, String), usize, RandomState>)
    ensures
        is_empty_table(rule_entries(m)),
{
    DashMap::with_hasher(RandomState::new())
}

/// `DashMap::get`: the value under a key, if there is one.
#[verifier::external_body]
fn rule_map_get(
    m: &DashMap<(String, String), usize, RandomState>,
    wrong: &String,
    right: &String,
) -> (r: Option<usize>)
    ensures
        r == (if rule_entries(*m).contains_key((wrong@, right@)) {
            Some(rule_entries(*m)[(wrong@, right@)])
        } else {
            None
        }),
{
    m.get(&(wrong.clone(), right.clone())).map(|v| *v)
}

/// `DashMap::insert`: puts a value under a key, over what was there, and leaves the rest.
#[verifier::external_body]
fn rule_map_insert(
    m: &mut DashMap<(String, String), usize, RandomState>,
    key: (String, String),
    value: usize,
)
    ensures
        rule_entries(*final(m)) == rule_entries(*old(m)).insert((key.0@, key.1@), value),
{
    m.insert(key, value);
}

/// `DashMap::iter`: hands out every entry once, in an order that is not specified.
#[verifier::external_body]
fn rule_map_list(
    m: &DashMap<(String, String), usize, RandomState>,
) -> (r: Vec<((String, String), usize)>)
    ensures
        lists_table(rule_list(r@), rule_entries(*m)),
{
    m.iter().map(|e| (e.key().clone(), *e.value())).collect()
}

/// `DashMap::len`: the number of entries.
#[verifier::external_body]
fn rule_map_len(m: &DashMap<(String, String), usize, RandomState>) -> (r: usize)
    ensures
        r == rule_entries(*m).len(),
{
    m.len()
}

/// A table of counts for pairs of texts.
pub struct RuleCounts {
    map: DashMap<(String, String), usize, RandomState>,
}

impl View for RuleCounts {
    type V = Map<(Seq<char>, Seq<char>), usize>;

    closed spec fn view(&self) -> Map<(Seq<char>, Seq<char>), usize> {
        rule_entries(self.map)
    }
}

impl RuleCounts {
    /// The empty table.
    pub fn new() -> (t: Self)
        ensures
            t@ == Map::<(Seq<char>, Seq<char>), usize>::empty(),
    {
        RuleCounts { map: rule_map_new() }
    }

    /// The entry under a key.
    pub fn get(&self, wrong: &String, right: &String) -> (r: Option<usize>)
        ensures
            r == (if self@.contains_key((wrong@, right@)) {
                Some(self@[(wrong@, right@)])
            } else {
                None
            }),
    {
        rule_map_get(&self.map, wrong, right)
    }

    /// Sets the entry under a key.
    pub fn set(&mut self, key: (String, String), value: usize)
        ensures
            final(self)@ == old(self)@.insert((key.0@, key.1@), value),
    {
        rule_map_insert(&mut self.map, key, value);
    }

    /// Every entry once, in no particular order.
    pub fn entries(&self) -> (r: Vec<((String, String), usize)>)
        ensures
            lists_table(rule_list(r@), self@),
    {
        rule_map_list(&self.map)
    }

    /// The number of entries.
    pub fn len(&self) -> (r: usize)
        ensures
            r == self@.len(),
    {
        rule_map_len(&self.map)
    }

    /// Counts every item of a list; `false` if a count would grow past `usize::MAX`.
    pub fn count_all(&mut self, keys: &[(String, String)]) -> (r: bool)
        ensures
            r == has_room(old(self)@, rule_keys(keys@)),
            r ==> final(self)@ == tallied(old(self)@, rule_keys(keys@)),
    {
        let ghost start = self@;
        let ghost ks = rule_keys(keys@);
        let mut i: usize = 0;
        proof {
            assert(ks.take(0) =~= Seq::empty());
            lemma_tallied_empty(start);
        }
        while i < keys.len()
            invariant
                i <= keys.len(),
                ks == rule_keys(keys@),
                start == old(self)@,
                has_room(start, ks.take(i as int)),
                self@ == tallied(start, ks.take(i as int)),
            decreases keys.len() - i,
        {
            let key = (keys[i].0.clone(), keys[i].1.clone());
            proof {
                assert(ks[i as int] == (key.0@, key.1@));
                assert(ks.take(i + 1) =~= ks.take(i as int).push((key.0@, key.1@)));
                lemma_tallied_push(start, ks.take(i as int), (key.0@, key.1@));
                lemma_room_of_prefix(start, ks, i + 1);
            }
            let n: usize = match self.get(&key.0, &key.1) {
                Some(n) => n,
                None => 0,
            };
            if n == usize::MAX {
                return false;
            }
            self.set(key, n + 1);
            i += 1;
        }
        assert(ks.take(ks.len() as int) =~= ks);
        true
    }
}

/// The keys of a list of runs.
pub open spec fn ngram_keys(ks: Seq<Vec<String>>) -> Seq<Seq<Seq<char>>> {
    Seq::new(ks.len(), |i: int| texts(ks[i]@))
}

/// The contents of a list of counted runs.
pub open spec fn ngram_list(es: Seq<(Vec<String>, usize)>) -> Seq<(Seq<Seq<char>>, usize)> {
    Seq::new(es.len(), |i: int| (texts(es[i].0@), es[i].1))
}

/// What a map from runs of word stems to counts holds.
pub uninterp spec fn ngram_entries(
    m: DashMap<Vec<String>, usize, RandomState>,
) -> Map<Seq<Seq<char>>, usize>;

/// `DashMap::with_hasher` with a fresh `ahash::RandomState`: a map that holds nothing.
#[verifier::external_body]
fn ngram_map_new() -> (m: DashMap<Vec<String>, usize, RandomState>)
    ensures
        is_empty_table(ngram_entries(m)),
{
    DashMap::with_hasher(RandomState::new())
}

/// `DashMap::get`: the value under a key, if there is one.
#[verifier::external_body]
fn ngram_map_get(m: &DashMap<Vec<String>, usize, RandomState>, key: &[String]) -> (r: Option<usize>)
    ensures
        r == (if ngram_entries(*m).contains_key(texts(key@)) {
            Some(ngram_entries(*m)[texts(key@)])
        } else {
            None
        }),
{
    m.get(key).map(|v| *v)
}

/// `DashMap::insert`: puts a value under a key, over what was there, and leaves the rest.
#[verifier::external_body]
fn ngram_map_insert(
    m: &mut DashMap<Vec<String>, usize, RandomState>,
    key: Vec<String>,
    value: usize,
)
    ensures
        ngram_entries(*final(m)) == ngram_entries(*old(m)).insert(texts(key@), value),
{
    m.insert(key, value);
}

/// `DashMap::iter`: hands out every entry once, in an order that is not specified.
#[verifier::external_body]
fn ngram_map_list(m: &DashMap<Vec<String>, usize, RandomState>) -> (r: Vec<(Vec<String>, usize)>)
    ensures
        lists_table(ngram_list(r@), ngram_entries(*m)),
{
    m.iter().map(|e| (e.key().clone(), *e.value())).collect()
}

/// `DashMap::len`: the number of entries.
#[verifier::external_body]
fn ngram_map_len(m: &DashMap<Vec<String>, usize, RandomState>) -> (r: usize)
    ensures
        r == ngram_entries(*m).len(),
{
    m.len()
}

/// The entries of a table that were counted more than once.
pub open spec fn repeated_only<K>(m: Map<K, usize>) -> Map<K, usize> {
    m.restrict(Set::new(|k: K| m.contains_key(k) && m[k] > 1))
}

/// Whether a count shows a repetition.
fn is_repeated(n: usize) -> (r: bool)
    ensures
        r == (n > 1),
{
    n > 1
}

/// `DashMap::retain`: keeps exactly the entries whose count passes `is_repeated`.
#[verifier::external_body]
fn ngram_map_retain_repeated(m: &mut DashMap<Vec<String>, usize, RandomState>)
    ensures
        ngram_entries(*final(m)) == repeated_only(ngram_entries(*old(m))),
{
    m.retain(|_, v| is_repeated(*v));
}

/// A table of counts for runs of word stems.
pub struct NgramCounts {
    map: DashMap<Vec<String>, usize, RandomState>,
}

impl View for NgramCounts {
    type V = Map<Seq<Seq<char>>, usize>;

    closed spec fn view(&self) -> Map<Seq<Seq<char>>, usize> {
        ngram_entries(self.map)
    }
}

impl NgramCounts {
    /// The empty table.
    pub fn new() -> (t: Self)
        ensures
            t@ == Map::<Seq<Seq<char>>, usize>::empty(),
    {
        NgramCounts { map: ngram_map_new() }
    }

    /// The entry under a key.
    pub fn get(&self, key: &[String]) -> (r: Option<usize>)
        ensures
            r == (if self@.contains_key(texts(key@)) {
                Some(self@[texts(key@)])
            } else {
                None
            }),
    {
        ngram_map_get(&self.map, key)
    }

    /// Sets the entry under a key.
    pub fn set(&mut self, key: Vec<String>, value: usize)
        ensures
            final(self)@ == old(self)@.insert(texts(key@), value),
    {
        ngram_map_insert(&mut self.map, key, value);
    }

    /// Every entry once, in no particular order.
    pub fn entries(&self) -> (r: Vec<(Vec<String>, usize)>)
        ensures
            lists_table(ngram_list(r@), self@),
    {
        ngram_map_list(&self.map)
    }

    /// The number of entries.
    pub fn len(&self) -> (r: usize)
        ensures
            r == self@.len(),
    {
        ngram_map_len(&self.map)
    }

    /// Counts every item of a list; `false` if a count would grow past `usize::MAX`.
    pub fn count_all(&mut self, keys: &[Vec<String>]) -> (r: bool)
        ensures
            r == has_room(old(self)@, ngram_keys(keys@)),
            r ==> final(self)@ == tallied(old(self)@, ngram_keys(keys@)),
    {
        let ghost start = self@;
        let ghost ks = ngram_keys(keys@);
        let mut i: usize = 0;
        proof {
            assert(ks.take(0) =~= Seq::empty());
            lemma_tallied_empty(start);
        }
        while i < keys.len()
            invariant
                i <= keys.len(),
                ks == ngram_keys(keys@),
                start == old(self)@,
                has_room(start, ks.take(i as int)),
                self@ == tallied(start, ks.take(i as int)),
            decreases keys.len() - i,
        {
            let key = clone_texts(keys[i].as_slice());
            proof {
                assert(ks[i as int] == texts(key@));
                assert(ks.take(i + 1) =~= ks.take(i as int).push(texts(key@)));
                lemma_tallied_push(start, ks.take(i as int), texts(key@));
                lemma_room_of_prefix(start, ks, i + 1);
            }
            let n: usize = match self.get(key.as_slice()) {
                Some(n) => n,
                None => 0,
            };
            if n == usize::MAX {
                return false;
            }
            self.set(key, n + 1);
            i += 1;
        }
        assert(ks.take(ks.len() as int) =~= ks);
        true
    }

    /// Forgets every run that was counted once or never.
    pub fn drop_singles(&mut self)
        ensures
            final(self)@ == repeated_only(old(self)@),
    {
        ngram_map_retain_repeated(&mut self.map);
    }
}

} // verus!

//! Hash sets of words, of characters and of pairs of characters.

use ahash::{AHashSet, RandomState};
use vstd::prelude::*;

verus! {

/// The hash set of `ahash`.
#[verifier::external_type_specification]
#[verifier::external_body]
#[verifier::reject_recursive_types(T)]
#[verifier::reject_recursive_types(S)]
pub struct ExAHashSet<T, S>(AHashSet<T, S>);

/// Whether a set holds nothing.
pub open spec fn is_empty_set<T>(s: Set<T>) -> bool {
    s == Set::<T>::empty()
}

/// What a hash set of texts holds.
pub uninterp spec fn text_members(s: AHashSet<String, RandomState>) -> Set<Seq<char>>;

/// `AHashSet::new`: a set that holds nothing.
#[verifier::external_body]
fn text_set_new() -> (s: AHashSet<String, RandomState>)
    ensures
        is_empty_set(text_members(s)),
{
    AHashSet::new()
}

/// `AHashSet::insert`: adds one member and leaves the others.
#[verifier::external_body]
fn text_set_insert(s: &mut AHashSet<String, RandomState>, item: String)
    ensures
        text_members(*final(s)) == text_members(*old(s)).insert(item@),
{
    s.insert(item);
}

/// `AHashSet::contains`: whether the set has a member.
#[verifier::external_body]
fn text_set_contains(s: &AHashSet<String, RandomState>, item: &str) -> (r: bool)
    ensures
        r == text_members(*s).contains(item@),
{
    s.contains(item)
}

/// `AHashSet::len`: the number of members.
#[verifier::external_body]
fn text_set_len(s: &AHashSet<String, RandomState>) -> (r: usize)
    ensures
        r == text_members(*s).len(),
{
    s.len()
}

/// A set of texts.
pub struct TextSet {
    set: AHashSet<String, RandomState>,
}

impl View for TextSet {
    type V = Set<Seq<char>>;

    closed spec fn view(&self) -> Set<Seq<char>> {
        text_members(self.set)
    }
}

impl TextSet {
    /// The empty set.
    pub fn new() -> (s: Self)
        ensures
            s@ == Set::<Seq<char>>::empty(),
    {
        TextSet { set: text_set_new() }
    }

    /// Adds a member.
    pub fn insert(&mut self, item: String)
        ensures
            final(self)@ == old(self)@.insert(item@),
    {
        text_set_insert(&mut self.set, item);
    }

    /// Whether the set has a member.
    pub fn contains(&self, item: &str) -> (r: bool)
        ensures
            r == self@.contains(item@),
    {
        text_set_contains(&self.set, item)
    }

    /// The number of members.
    pub fn len(&self) -> (r: usize)
        ensures
            r == self@.len(),
    {
        text_set_len(&self.set)
    }
}

/// What a hash set of pairs of characters holds.
pub uninterp spec fn pair_members(s: AHashSet<(char, char), RandomState>) -> Set<(char, char)>;

/// `AHashSet::new`: a set that holds nothing.
#[verifier::external_body]
fn pair_set_new() -> (s: AHashSet<(char, char), RandomState>)
    ensures
        is_empty_set(pair_members(s)),
{
    AHashSet::new()
}

/// `AHashSet::insert`: adds one member and leaves the others.
#[verifier::external_body]
fn pair_set_insert(s: &mut AHashSet<(char, char), RandomState>, item: (char, char))
    ensures
        pair_members(*final(s)) == pair_members(*old(s)).insert(item),
{
    s.insert(item);
}

/// `AHashSet::contains`: whether the set has a member.
#[verifier::external_body]
fn pair_set_contains(s: &AHashSet<(char, char), RandomState>, item: &(char, char)) -> (r: bool)
    ensures
        r == pair_members(*s).contains(*item),
{
    s.contains(item)
}

/// `AHashSet::len`: the number of members.
#[verifier::external_body]
fn pair_set_len(s: &AHashSet<(char, char), RandomState>) -> (r: usize)
    ensures
        r == pair_members(*s).len(),
{
    s.len()
}

/// A set of pairs of characters.
pub struct PairSet {
    set: AHashSet<(char, char), RandomState>,
}

impl View for PairSet {
    type V = Set<(char, char)>;

    closed spec fn view(&self) -> Set<(char, char)> {
        pair_members(self.set)
    }
}

impl PairSet {
    /// The empty set.
    pub fn new() -> (s: Self)
        ensures
            s@ == Set::<(char, char)>::empty(),
    {
        PairSet { set: pair_set_new() }
    }

    /// Adds a member.
    pub fn insert(&mut self, item: (char, char))
        ensures
            final(self)@ == old(self)@.insert(item),
    {
        pair_set_insert(&mut self.set, item);
    }

    /// Whether the set has a member.
    pub fn contains(&self, item: &(char, char)) -> (r: bool)
        ensures
            r == self@.contains(*item),
    {
        pair_set_contains(&self.set, item)
    }

    /// The number of members.
    pub fn len(&self) -> (r: usize)
        ensures
            r == self@.len(),
    {
        pair_set_len(&self.set)
    }
}

/// What a hash set of characters holds.
pub uninterp spec fn letter_members(s: AHashSet<char, RandomState>) -> Set<char>;

/// `AHashSet::new`: a set that holds nothing.
#[verifier::external_body]
fn letter_set_new() -> (s: AHashSet<char, RandomState>)
    ensures
        is_empty_set(letter_members(s)),
{
    AHashSet::new()
}

/// `AHashSet::insert`: adds one member and leaves the others.
#[verifier::external_body]
fn letter_set_insert(s: &mut AHashSet<char, RandomState>, item: char)
    ensures
        letter_members(*final(s)) == letter_members(*old(s)).insert(item),
{
    s.insert(item);
}

/// `AHashSet::contains`: whether the set has a member.
#[verifier::external_body]
fn letter_set_contains(s: &AHashSet<char, RandomState>, item: &char) -> (r: bool)
    ensures
        r == letter_members(*s).contains(*item),
{
    s.contains(item)
}

/// `AHashSet::len`: the number of members.
#[verifier::external_body]
fn letter_set_len(s: &AHashSet<char, RandomState>) -> (r: usize)
    ensures
        r == letter_members(*s).len(),
{
    s.len()
}

/// A set of characters.
pub struct LetterSet {
    set: AHashSet<char, RandomState>,
}

impl View for LetterSet {
    type V = Set<char>;

    closed spec fn view(&self) -> Set<char> {
        letter_members(self.set)
    }
}

impl LetterSet {
    /// The empty set.
    pub fn new() -> (s: Self)
        ensures
            s@ == Set::<char>::empty(),
    {
        LetterSet { set: letter_set_new() }
    }

    /// Adds a member.
    pub fn insert(&mut self, item: char)
        ensures
            final(self)@ == old(self)@.insert(item),
    {
        letter_set_insert(&mut self.set, item);
    }

    /// Whether the set has a member.
    pub fn contains(&self, item: &char) -> (r: bool)
        ensures
            r == self@.contains(*item),
    {
        letter_set_contains(&self.set, item)
    }

    /// The number of members.
    pub fn len(&self) -> (r: usize)
        ensures
            r == self@.len(),
    {
        letter_set_len(&self.set)
    }
}

} // verus!

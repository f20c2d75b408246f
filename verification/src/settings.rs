//! What a run can be told.

use crate::words::NounPolicy;
use vstd::prelude::*;

verus! {

/// The limits that learning and correcting keep to.
#[derive(Debug, Clone, Copy)]
pub struct Settings {
    /// Which words may be corrected, proper nouns or others.
    pub policy: NounPolicy,
    /// The fewest characters of a word that is examined.
    pub min_word_len: usize,
    /// The most edits between a word and its correction.
    pub max_edit_dist: usize,
    /// How often an error must have been counted to support a correction.
    pub min_rule_freq: usize,
    /// How often two characters must have been confused to make variants of a word.
    pub min_confusion_freq: usize,
    /// How often a run of stems must have been counted to support a correction.
    pub min_ngram_freq: usize,
    /// The longest run of stems.
    pub max_ngram: usize,
}

} // verus!

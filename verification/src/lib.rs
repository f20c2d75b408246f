//! Statistical correction of OCR and handwriting-recognition output.
//!
//! A run has two passes. The first learns from the texts: which known words stand next to each
//! other, and which errors turn a known word into an unknown one. The second joins words that
//! were torn apart and corrects unknown words by what was learned. Scores are not computed
//! here: a candidate carries the counts that speak for it, and the caller hands back a rank
//! for each.

pub mod align;
pub mod candidates;
pub mod chars;
pub mod correct;
pub mod counts;
pub mod dictionary;
pub mod diffs;
pub mod display;
pub mod examples;
pub mod laws;
pub mod learn;
pub mod learned;
pub mod merge;
pub mod morphology;
pub mod ngrams;
pub mod order;
pub mod output;
pub mod records;
pub mod report;
pub mod runs;
pub mod sets;
pub mod settings;
pub mod stats;
pub mod tables;
pub mod text;
pub mod variants;
pub mod words;

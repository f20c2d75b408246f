//! What the operations promise, stated on the characters that go in and come out.

pub mod candidates;
pub mod correcting;
pub mod counting;
pub mod dictionary;
pub mod edits;
pub mod joining;
pub mod learning;
pub mod ngrams;
pub mod reading;
pub mod runs;
pub mod showing;
pub mod text;
pub mod variants;
pub mod words;

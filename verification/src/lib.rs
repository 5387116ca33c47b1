//! A verified binary sentiment lexicon builder.
//!
//! The crate accumulates per-class word frequencies from labeled text,
//! filters noise (stop words, very short words, rare words), thresholds each
//! word's positive/negative discrimination ratio, and classifies unseen text
//! with the resulting lexicon.

pub mod bag_of_words;
pub mod dictionary;

//! Next-word prediction from trigram counts.
//!
//! A model is built from a corpus: every line is cut into tokens, every
//! distinct token gets an id, and every three tokens in a row are counted.
//! The trigrams that were seen often enough become the entries of an index,
//! ordered by the two words of their context. A lookup finds the run of a
//! context by binary search and returns the words that most often followed
//! it.
//!
//! The index is stored as fixed-width entries and the vocabulary as one word
//! per line; a model that is loaded from what was stored answers every lookup
//! as the model that was stored.
//!
//! - [`text`]: character classes and case folding of the standard library
//! - [`tokenizer`]: from a line of text to tokens
//! - [`vocab`]: tokens and their ids
//! - [`counts`]: counting and pruning trigrams
//! - [`record`]: one entry of an index
//! - [`index`]: the order of an index, and building one
//! - [`format`]: the bytes of a stored index
//! - [`listing`]: the text of a stored word list
//! - [`query`]: lookups
//! - [`model`]: an index with its vocabulary, stored and loaded
//! - [`trainer`]: from the lines of a corpus to a model

pub mod record;
pub mod text;
pub mod tokenizer;
pub mod vocab;
pub mod counts;
pub mod index;
pub mod format;
pub mod listing;
pub mod query;
pub mod model;
pub mod trainer;

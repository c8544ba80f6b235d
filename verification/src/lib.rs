//! A double-array trie over Unicode scalar values.
//!
//! A dictionary of sorted keys is compiled into two parallel integer arrays,
//! `base` and `check`. The arrays answer exact lookups, enumerate every
//! dictionary entry that is a prefix of a text, and drive a forward
//! maximum-matching tokenizer.
pub mod builder;
pub mod codec;
pub mod keys;
mod layout;
mod plan;
pub mod prefixes;
pub mod searcher;
pub mod text;
pub mod trie;

pub use crate::builder::{DoubleArrayTrieBuilder, ProgressBuilder};
pub use crate::codec::DartsError;
pub use crate::searcher::{DoubleArrayTrieSearcher, SearchStep};
pub use crate::trie::DoubleArrayTrie;

//! Finds every combination of five five-letter words whose letters are all
//! pairwise distinct: together they use 25 of the 26 alphabet letters, each
//! exactly once.
//!
//! The pipeline runs strictly forward: the word filter parses and deduplicates
//! candidate words, the frequency analyzer counts letters, the bit remapper
//! assigns each letter a bit position by ascending frequency, the bucket index
//! groups remapped masks by their lowest set bit, and the backtracking
//! searcher composes five disjoint-bit words.

pub mod bits;
pub mod letter;
pub mod filter;
pub mod remap;
pub mod index;
pub mod search;

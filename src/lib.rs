//! Fuzzy matching of a query against a dictionary of known words, by the
//! overlap of their character n-grams.
pub mod index;
mod par;
pub mod scorer;
pub mod splitter;

pub use index::{new, ClosestMatch};

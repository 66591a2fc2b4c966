//! Fuzzy grouping of table rows by the textual similarity of one column.
//!
//! The similarity of two keys is a score between 0 and 100 derived from the
//! Levenshtein distance of their grapheme clusters. Grouping walks the rows
//! once, in order, and lets every row collect the rows that resemble it and
//! that no earlier row has collected.

pub mod segment;
pub mod edit_distance;
pub mod similarity;
pub mod grouping;
pub mod export;
pub mod notice;

pub use edit_distance::levenshtein_distance;

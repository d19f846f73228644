//! Edit-distance string similarity.
//!
//! The crate computes the Levenshtein distance between two strings and
//! decides fuzzy substring containment: whether a pattern occurs, up to a
//! bounded number of single-character edits, as a contiguous substring of a
//! larger text.  Both operations run over one memoized dynamic-programming
//! table and work on Unicode code points, so a multi-byte character counts
//! as a single unit.

pub mod distance;
pub mod laws;
pub mod table;

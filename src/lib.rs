//! Fixes known misspellings in text: a sorted typo dictionary, an ordered
//! collector of the occurrences found in one file, and a patch engine that
//! splices the corrections into the file's bytes.

pub mod bytes;
pub mod dictionary;
pub mod occurrence;
pub mod patch;
pub mod laws;
pub mod search;

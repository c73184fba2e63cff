//! Detects textual overlap between submissions by comparing word n-gram
//! fragments, exactly or by edit distance, and reports where each match lies.

use vstd::prelude::*;

pub mod index;
pub mod matching;
pub mod metric;
pub mod plagiarism_database;
pub mod text;
pub mod theorems;

pub use metric::Metric;

verus! {

} // verus!

//! Verified core of a parallel text-file processor, together with a few
//! small exercises (number analysis, a guessing game, a student record and
//! a book catalogue line format).
use vstd::prelude::*;

pub mod analyzers;
pub mod books;
pub mod cli;
pub mod decimal;
pub mod exercises;
pub mod processor;
pub mod progress;
pub mod report;
pub mod text;
pub mod types;
pub mod walk;

verus! {

} // verus!

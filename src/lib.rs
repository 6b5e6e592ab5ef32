//! Word sequences: slicing and reordering them, and ranking words by a score.
//!
//! `sequence` holds pure edits of a sequence (its first or last two words, a rotation, an
//! insertion before the last word). `ranking` scores words and ranks them by descending
//! score, stably, with the scoring rule or the comparator passed in by the caller.
//! `showcase` holds the scoring policy of the demonstration program.
use vstd::prelude::*;

pub mod ranking;
pub mod sequence;
pub mod showcase;

verus! {

} // verus!

//! The interface through which a search writes to a puzzle.

use vstd::prelude::*;

use crate::metrics::{counted, edits_of, views_of, Metrics};
use crate::puzzle::Puzzle;
use crate::solution::base::BaseSolution;
use crate::PUZZLE_DIGITS;

pub mod base;

verus! {

/// [`anyhow::Error`]: the error that a write through a [`Solution`] reports.
/// Nothing is known of what it holds: it is handed on as it came.
#[verifier::external_type_specification]
#[verifier::external_body]
pub struct ExAnyhowError(anyhow::Error);

/// Implementors of [`Solution`] must either encapsulate a [`BaseSolution`] or
/// be one itself.
///
/// This trait gives those higher level types the ability to hook into `set`
/// calls in order to perform different functions, such as rendering each
/// write to a display.
pub trait Solution {
    /// The puzzle that the writes go to: the one of the [`BaseSolution`]
    /// that `base` hands out.
    spec fn puzzle(&self) -> Puzzle;

    /// The counters of the [`BaseSolution`] that `base` hands out, where it
    /// counts.
    spec fn metrics(&self) -> Option<Metrics>;

    /// Whether a write through this solution has reported an error.
    spec fn failed(&self) -> bool;

    /// Writes `value` to square `index` of the puzzle, as [`Puzzle::set`]
    /// does, whether or not what else the implementor does succeeds, and
    /// counts it as [`BaseSolution::set`] does. An error that it reports is
    /// remembered.
    fn set(&mut self, index: usize, value: Option<u8>) -> (result: Result<(), anyhow::Error>)
        requires
            index < PUZZLE_DIGITS,
            value matches Some(d) ==> 1 <= d <= 9,
        ensures
            final(self).puzzle().initially_filled == old(self).puzzle().initially_filled,
            final(self).puzzle()@ == old(self).puzzle().after_set(index as int, value),
            (final(self).metrics() is Some) == (old(self).metrics() is Some),
            views_of(final(self).metrics()) == views_of(old(self).metrics()),
            edits_of(final(self).metrics()) == counted(edits_of(old(self).metrics()), index as int),
            final(self).failed() == (old(self).failed() || result is Err),
    ;

    /// The [`BaseSolution`] that holds the puzzle.
    fn base(&mut self) -> (base: &mut BaseSolution)
        ensures
            base.puzzle == old(self).puzzle(),
            base.metrics == old(self).metrics(),
            final(self).puzzle() == final(base).puzzle,
            final(self).metrics() == final(base).metrics,
            final(self).failed() == old(self).failed(),
    ;
}

} // verus!

//! Algorithms that solve a puzzle in place.

use std::sync::mpsc::Receiver;

use vstd::prelude::*;

use crate::rules::{completes, extends, filled, Grid};
use crate::solution::Solution;

pub mod backtracking;

pub use backtracking::Backtracking;

verus! {

/// [`std::sync::mpsc::Receiver`]: the receiving end of the channel whose
/// message asks a running search to stop. Nothing is known of what it holds.
#[verifier::external_type_specification]
#[verifier::external_body]
#[verifier::reject_recursive_types(T)]
pub struct ExReceiver<T>(Receiver<T>);

/// Why a search ended without a result.
#[derive(Debug)]
pub enum SolveError {
    /// No digits for the empty squares make every one of them valid.
    Unsolvable,
    /// A write through the [`Solution`] failed; this is its error.
    Observer(anyhow::Error),
}

pub trait Algorithm {
    /// Solve the puzzle; this is done in-place.
    ///
    /// Implementors must listen on `kill_channel` (if provided) and cleanly
    /// cancel their computation if a message is received: they then return
    /// `Ok` and leave the puzzle with an empty square.
    ///
    /// Only empty squares are written. A puzzle that comes back filled is
    /// completed: each square that was empty is valid. `Unsolvable` is
    /// reported only of a puzzle that no digits complete. A write that
    /// reports an error ends the search with an error of the solution, and
    /// nothing else does; so where no write fails and there is no channel
    /// the result is `Ok` exactly if some grid completes the puzzle.
    fn solve<T: Solution>(
        &self,
        solution: &mut T,
        kill_channel: Option<Receiver<()>>,
    ) -> (result: Result<(), SolveError>)
        requires
            old(solution).puzzle().wf(),
        ensures
            final(solution).puzzle().wf(),
            final(solution).puzzle().initially_filled == old(solution).puzzle().initially_filled,
            extends(final(solution).puzzle()@, old(solution).puzzle()@),
            result is Ok && filled(final(solution).puzzle()@) ==> completes(
                final(solution).puzzle()@,
                old(solution).puzzle()@,
            ),
            result is Ok && kill_channel is None ==> filled(final(solution).puzzle()@),
            result matches Err(SolveError::Unsolvable) ==> forall|s: Grid|
                !#[trigger] completes(s, old(solution).puzzle()@),
            final(solution).failed() == (old(solution).failed() || (result matches Err(
                SolveError::Observer(_),
            ))),
            !final(solution).failed() && (exists|s: Grid| completes(s, old(solution).puzzle()@))
                ==> result is Ok,
    ;
}

} // verus!

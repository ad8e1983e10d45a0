//! Chronological backtracking over the empty squares.

use std::sync::mpsc::Receiver;

use vstd::prelude::*;

use crate::algorithms::{Algorithm, SolveError};
use crate::metrics::{
    bump, bumped, counted, edits_of, lemma_bumped, lemma_total_bumped, total, views_of,
};
use crate::puzzle::Puzzle;
use crate::rules::{completes, digit, extends, filled, in_grid, no_later, passes, Grid};
use crate::search::{
    cap, fits, lemma_back_at_start, lemma_cap_grows, lemma_cells_fit, lemma_finished,
    lemma_marks_bounds, lemma_place, lemma_progress, lemma_retreat,
    lemma_retreat_misses_nothing, lemma_stands, lemma_start, lemma_step_writes, lemma_unfinished,
    lists_empty, none_fit, searching, step_writes, steps_left, write_limit,
};
use crate::solution::base::{check_reads, BaseSolution};
use crate::solution::Solution;

verus! {

pub struct Backtracking;

/// Where a search stands: the empty squares that it fills, and the one that
/// it works on.
pub struct SearchCursor {
    /// Counts the square that the search works on among `initially_empty`.
    pub pointer: usize,
    /// The squares that were empty when the search began, in ascending order.
    pub initially_empty: Vec<usize>,
    /// The grid that the search began at.
    pub start: Ghost<Grid>,
}

/// The read counters after the checks of the digits above `from` up to `to`,
/// each written to square `cell` of `g` in its turn.
pub open spec fn tried_reads(views: Seq<u64>, g: Grid, cell: int, from: int, to: int) -> Seq<u64>
    decreases to - from,
{
    if to <= from {
        views
    } else {
        check_reads(
            tried_reads(views, g, cell, from, to - 1),
            g.update(cell, Some(to as u8)),
            cell,
        )
    }
}

/// The last digit that a step has checked, which left `left` in its square:
/// the digit that it left there, or the one before it if the write of that
/// digit failed; 9 if it cleared the square.
pub open spec fn last_checked(left: Option<u8>, failed: bool) -> int {
    match left {
        Some(d) => if failed {
            d - 1
        } else {
            d as int
        },
        None => 9,
    }
}

/// What one step of a search did.
#[derive(Debug, Clone, Copy, PartialEq, Eq, Structural)]
pub enum Step {
    /// A digit was placed; the search goes on to the next empty square.
    Placed,
    /// No digit was left for the square; the search goes back one square.
    Retreated,
    /// The search was asked to stop, and did nothing.
    Cancelled,
}

impl SearchCursor {
    /// The cursor belongs to a search that stands at `puzzle`.
    pub open spec fn inv(&self, puzzle: Puzzle) -> bool {
        &&& searching(self.start@, puzzle@, self.initially_empty@, self.pointer as int)
        &&& forall|k: int|
            0 <= k < self.initially_empty@.len() ==> !puzzle.is_fixed(
                #[trigger] self.initially_empty@[k] as int,
            )
    }

    /// The square that the search works on.
    pub open spec fn cell(&self) -> int {
        self.initially_empty@[self.pointer as int] as int
    }

    /// A cursor at the first empty square of the puzzle. Each square is
    /// counted as read once.
    pub fn new(base: &mut BaseSolution) -> (cursor: Self)
        requires
            old(base).puzzle.wf(),
        ensures
            final(base).puzzle == old(base).puzzle,
            (final(base).metrics is Some) == (old(base).metrics is Some),
            final(base).edits() == old(base).edits(),
            final(base).views().len() == old(base).views().len(),
            forall|i: int|
                0 <= i < old(base).views().len() ==> #[trigger] final(base).views()[i] == bump(
                    old(base).views()[i],
                ),
            cursor.pointer == 0,
            cursor.start@ == old(base).puzzle@,
            lists_empty(cursor.initially_empty@, old(base).puzzle@),
            cursor.inv(old(base).puzzle),
    {
        let squares = base.iter_puzzle();
        let mut initially_empty: Vec<usize> = Vec::new();
        for idx in 0..squares.len()
            invariant
                squares@.len() == 81,
                forall|i: int|
                    in_grid(i) ==> #[trigger] squares@[i] == (i as usize, base.puzzle@[i]),
                forall|k: int|
                    0 <= k < initially_empty@.len() ==> (#[trigger] initially_empty@[k]) < idx
                        && base.puzzle@[initially_empty@[k] as int] is None,
                forall|k: int, l: int|
                    0 <= k < l < initially_empty@.len() ==> #[trigger] initially_empty@[k]
                        < #[trigger] initially_empty@[l],
                forall|i: int|
                    0 <= i < idx && (#[trigger] base.puzzle@[i]) is None
                        ==> initially_empty@.contains(i as usize),
        {
            let (square, value) = squares[idx];
            if value.is_none() {
                let ghost before = initially_empty@;
                initially_empty.push(square);
                proof {
                    let n = before.len() as int;
                    assert(initially_empty@[n] == idx);
                    assert forall|i: int|
                        0 <= i < idx + 1 && (#[trigger] base.puzzle@[i])
                            is None implies initially_empty@.contains(i as usize) by {
                        if i < idx {
                            let k = choose|k: int| 0 <= k < n && before[k] == i as usize;
                            assert(initially_empty@[k] == i as usize);
                        }
                    }
                }
            }
        }
        proof {
            lemma_start(base.puzzle@, initially_empty@);
        }
        SearchCursor { pointer: 0, initially_empty, start: Ghost(base.puzzle@) }
    }

    /// Whether every square that was empty holds a digit of the search.
    pub fn is_done(&self) -> (done: bool)
        ensures
            done == (self.pointer >= self.initially_empty@.len()),
    {
        self.pointer >= self.initially_empty.len()
    }
}

/// Asks the channel, without waiting, whether a message has arrived:
/// [`Receiver::try_recv`]. Whether one has depends on who holds the sending
/// end, so nothing is claimed of the answer.
#[verifier::external_body]
fn cancel_requested(channel: &Receiver<()>) -> (cancelled: bool) {
    channel.try_recv().is_ok()
}

impl Backtracking {
    /// One step of the search, at the square that the cursor stands on.
    ///
    /// Asked to stop, it does nothing. Otherwise it writes to the square, in
    /// ascending order, the digits above the one that stands there, until
    /// one fits, and moves the cursor on. Where none fits it clears the
    /// square and moves the cursor back, or reports that the puzzle has no
    /// solution if the square is the first empty one. A write that fails
    /// ends the step with its error, the cursor where it was, no other
    /// square changed and nothing written after it; no other step ends with
    /// an error of the solution.
    /// Where reads and writes are counted, the step counts one write of its
    /// square for each digit that it tried and one for clearing it, one read
    /// of the square, and the reads of the check of each digit.
    pub fn step<T: Solution>(
        solution: &mut T,
        cursor: &mut SearchCursor,
        cancelled: bool,
    ) -> (result: Result<Step, SolveError>)
        requires
            old(cursor).inv(old(solution).puzzle()),
            old(cursor).pointer < old(cursor).initially_empty@.len(),
        ensures
            final(cursor).initially_empty@ == old(cursor).initially_empty@,
            final(cursor).start@ == old(cursor).start@,
            final(solution).puzzle().initially_filled == old(solution).puzzle().initially_filled,
            extends(final(solution).puzzle()@, old(cursor).start@),
            old(solution).puzzle().wf() ==> final(solution).puzzle().wf(),
            final(solution).failed() == (old(solution).failed() || (result matches Err(
                SolveError::Observer(_),
            ))),
            (final(solution).metrics() is Some) == (old(solution).metrics() is Some),
            edits_of(final(solution).metrics()) == if cancelled {
                edits_of(old(solution).metrics())
            } else {
                bumped(
                    edits_of(old(solution).metrics()),
                    old(cursor).cell(),
                    step_writes(
                        digit(old(solution).puzzle()@[old(cursor).cell()]),
                        final(solution).puzzle()@[old(cursor).cell()],
                    ),
                )
            },
            views_of(final(solution).metrics()) == if cancelled {
                views_of(old(solution).metrics())
            } else {
                tried_reads(
                    counted(views_of(old(solution).metrics()), old(cursor).cell()),
                    old(solution).puzzle()@,
                    old(cursor).cell(),
                    digit(old(solution).puzzle()@[old(cursor).cell()]),
                    last_checked(
                        final(solution).puzzle()@[old(cursor).cell()],
                        result matches Err(SolveError::Observer(_)),
                    ),
                )
            },
            cancelled ==> result == Ok::<Step, SolveError>(Step::Cancelled) && *final(solution)
                == *old(solution) && final(cursor).pointer == old(cursor).pointer,
            !cancelled ==> ({
                let before = old(solution).puzzle()@;
                let after = final(solution).puzzle()@;
                let cell = old(cursor).cell();
                let floor = digit(before[cell]);
                match result {
                    Ok(Step::Placed) => {
                        &&& final(cursor).pointer == old(cursor).pointer + 1
                        &&& after == before.update(cell, after[cell])
                        &&& floor < digit(after[cell])
                        &&& fits(before, cell, digit(after[cell]))
                        &&& none_fit(before, cell, floor, digit(after[cell]))
                    },
                    Ok(Step::Retreated) => {
                        &&& old(cursor).pointer > 0
                        &&& final(cursor).pointer == old(cursor).pointer - 1
                        &&& after == before.update(cell, None)
                        &&& none_fit(before, cell, floor, 10)
                    },
                    Ok(Step::Cancelled) => false,
                    Err(SolveError::Unsolvable) => {
                        &&& old(cursor).pointer == 0
                        &&& final(cursor).pointer == 0
                        &&& after == before.update(cell, None)
                        &&& after == old(cursor).start@
                        &&& none_fit(before, cell, floor, 10)
                        &&& forall|s: Grid| !#[trigger] completes(s, old(cursor).start@)
                    },
                    Err(SolveError::Observer(_)) => {
                        &&& final(cursor).pointer == old(cursor).pointer
                        &&& after == before.update(cell, after[cell])
                        &&& after[cell] is Some ==> floor < digit(after[cell])
                        &&& none_fit(before, cell, floor, last_checked(after[cell], true) + 1)
                    },
                }
            }),
            result is Ok && !cancelled ==> {
                &&& final(cursor).inv(final(solution).puzzle())
                &&& 0 <= steps_left(
                    final(solution).puzzle()@,
                    final(cursor).initially_empty@,
                    final(cursor).pointer as int,
                ) < steps_left(
                    old(solution).puzzle()@,
                    old(cursor).initially_empty@,
                    old(cursor).pointer as int,
                )
            },
    {
        if cancelled {
            return Ok(Step::Cancelled);
        }
        let ghost start = cursor.start@;
        let ghost cells = cursor.initially_empty@;
        let ghost pointer = cursor.pointer as int;
        let ghost grid = solution.puzzle()@;
        let ghost cell = cells[pointer] as int;
        let ghost edits = edits_of(solution.metrics());
        let ghost views = counted(views_of(solution.metrics()), cell);

        let idx = cursor.initially_empty[cursor.pointer];
        let base = solution.base().get(idx).unwrap_or(0);
        let mut found_valid = false;

        // The lower bound of the candidates is crucial. If the square was empty,
        // base will be 0 here and thus we will start at 1. If the square had a value,
        // we will only consider values higher than it since we've already tried the
        // lower values.
        let mut cand: u8 = base;
        while !found_valid && cand < 9
            invariant
                !cancelled,
                *cursor == *old(cursor),
                cursor.pointer < cursor.initially_empty.len(),
                start == cursor.start@,
                cells == cursor.initially_empty@,
                pointer == cursor.pointer,
                pointer < cells.len(),
                grid == old(solution).puzzle()@,
                cell == cells[pointer],
                searching(start, grid, cells, pointer),
                idx == cell,
                in_grid(cell),
                !old(solution).puzzle().is_fixed(cell),
                solution.failed() == old(solution).failed(),
                (solution.metrics() is Some) == (old(solution).metrics() is Some),
                edits == edits_of(old(solution).metrics()),
                edits_of(solution.metrics()) == bumped(edits, cell, cand - base),
                views == counted(views_of(old(solution).metrics()), cell),
                views_of(solution.metrics()) == tried_reads(
                    views,
                    grid,
                    cell,
                    base as int,
                    cand as int,
                ),
                solution.puzzle().initially_filled == old(solution).puzzle().initially_filled,
                base == digit(grid[cell]),
                base <= cand <= 9,
                solution.puzzle()@ == if cand == base {
                    grid
                } else {
                    grid.update(cell, Some(cand))
                },
                none_fit(grid, cell, base as int, if found_valid {
                    cand as int
                } else {
                    cand + 1
                }),
                found_valid ==> base < cand && fits(grid, cell, cand as int),
            decreases 9 - cand + if found_valid { 0int } else { 1int },
        {
            cand += 1;
            let written = solution.set(idx, Some(cand));
            proof {
                assert(solution.puzzle()@ =~= grid.update(cell, Some(cand)));
                lemma_bumped(edits, cell, cand - 1 - base);
            }
            match written {
                Ok(()) => {},
                Err(error) => {
                    return Err(SolveError::Observer(error));
                },
            }
            found_valid = solution.base().is_valid_digit(idx);
        }

        if found_valid {
            cursor.pointer += 1;
            proof {
                lemma_place(start, grid, cells, pointer, cand as int);
                lemma_progress(start, grid, cells, pointer, solution.puzzle()@, pointer + 1);
            }
            Ok(Step::Placed)
        } else {
            let cleared = solution.set(idx, None);
            proof {
                assert(solution.puzzle()@ =~= grid.update(cell, None));
                lemma_bumped(edits, cell, 9 - base);
            }
            match cleared {
                Ok(()) => {},
                Err(error) => {
                    return Err(SolveError::Observer(error));
                },
            }
            proof {
                lemma_retreat_misses_nothing(start, grid, cells, pointer);
            }
            if cursor.pointer == 0 {
                // If we ever get here, that means we've exhausted all the candidates in the
                // first cell, and thus we cannot find a solution.
                proof {
                    lemma_back_at_start(start, grid, cells);
                }
                return Err(SolveError::Unsolvable);
            }
            cursor.pointer -= 1;
            proof {
                lemma_retreat(start, grid, cells, pointer);
                lemma_progress(start, grid, cells, pointer, solution.puzzle()@, pointer - 1);
            }
            Ok(Step::Retreated)
        }
    }
}

impl Algorithm for Backtracking {
    /// Fills the empty squares in ascending order of their index, each with
    /// the smallest digit that fits, and goes back a square where none does.
    /// A puzzle that it fills is filled with the first of the grids that
    /// complete it, in the order of [`no_later`]. A puzzle that it finds
    /// unsolvable is left as it was. Where the search was asked to stop,
    /// each square that it has filled passes the check. The search ends
    /// after a bounded number of writes.
    fn solve<T: Solution>(
        &self,
        solution: &mut T,
        kill_channel: Option<Receiver<()>>,
    ) -> (result: Result<(), SolveError>)
        ensures
            result is Ok && filled(final(solution).puzzle()@) ==> forall|s: Grid| #[trigger]
                completes(s, old(solution).puzzle()@) ==> no_later(final(solution).puzzle()@, s),
            result matches Err(SolveError::Unsolvable) ==> final(solution).puzzle()@ == old(
                solution,
            ).puzzle()@,
            result is Ok ==> forall|i: int|
                in_grid(i) && (#[trigger] old(solution).puzzle()@[i]) is None ==> passes(
                    final(solution).puzzle()@,
                    i,
                ),
            (final(solution).metrics() is Some) == (old(solution).metrics() is Some),
            total(edits_of(old(solution).metrics())) <= total(edits_of(final(solution).metrics()))
                <= total(edits_of(old(solution).metrics())) + write_limit(),
    {
        let ghost counts = edits_of(solution.metrics());
        let mut cursor = SearchCursor::new(solution.base());
        proof {
            lemma_marks_bounds(cursor.start@, solution.puzzle()@, cursor.initially_empty@, 0);
            lemma_cells_fit(cursor.initially_empty@, cursor.start@);
            lemma_cap_grows(cursor.initially_empty@.len(), 81);
        }

        while !cursor.is_done()
            invariant
                old(solution).puzzle().wf(),
                solution.puzzle().wf(),
                solution.failed() == old(solution).failed(),
                (solution.metrics() is Some) == (old(solution).metrics() is Some),
                counts == edits_of(old(solution).metrics()),
                total(counts) <= total(edits_of(solution.metrics())),
                total(edits_of(solution.metrics())) + 10 * steps_left(
                    solution.puzzle()@,
                    cursor.initially_empty@,
                    cursor.pointer as int,
                ) <= total(counts) + 10 * cap(81),
                solution.puzzle().initially_filled == old(solution).puzzle().initially_filled,
                cursor.start@ == old(solution).puzzle()@,
                cursor.inv(solution.puzzle()),
            decreases
                steps_left(solution.puzzle()@, cursor.initially_empty@, cursor.pointer as int),
        {
            let cancelled = match &kill_channel {
                Some(channel) => cancel_requested(channel),
                None => false,
            };
            let ghost before = solution.puzzle()@;
            let ghost pointer = cursor.pointer as int;
            let ghost cell = cursor.cell();
            let ghost counted = edits_of(solution.metrics());
            let stepped = Backtracking::step(solution, &mut cursor, cancelled);
            proof {
                lemma_marks_bounds(cursor.start@, before, cursor.initially_empty@, pointer);
                if !cancelled {
                    let writes = step_writes(digit(before[cell]), solution.puzzle()@[cell]);
                    lemma_step_writes(digit(before[cell]), solution.puzzle()@[cell]);
                    lemma_total_bumped(counted, cell, writes);
                }
            }
            match stepped {
                Ok(Step::Cancelled) => {
                    proof {
                        lemma_unfinished(cursor.start@, before, cursor.initially_empty@, pointer);
                        lemma_stands(cursor.start@, before, cursor.initially_empty@, pointer);
                    }
                    return Ok(());
                },
                Ok(_) => {},
                Err(error) => {
                    return Err(error);
                },
            }
        }
        proof {
            lemma_finished(cursor.start@, solution.puzzle()@, cursor.initially_empty@);
            lemma_stands(
                cursor.start@,
                solution.puzzle()@,
                cursor.initially_empty@,
                cursor.pointer as int,
            );
            lemma_marks_bounds(
                cursor.start@,
                solution.puzzle()@,
                cursor.initially_empty@,
                cursor.pointer as int,
            );
        }
        Ok(())
    }
}

} // verus!

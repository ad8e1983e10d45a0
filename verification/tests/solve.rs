use std::str::FromStr;
use std::sync::mpsc;

use sudoku::algorithms::backtracking::{SearchCursor, Step};
use sudoku::algorithms::{Algorithm, Backtracking, SolveError};
use sudoku::metrics::Metrics;
use sudoku::puzzle::Puzzle;
use sudoku::solution::base::BaseSolution;
use sudoku::solution::Solution;

const GIVEN: &str =
    "050703060007000800000816000000030000005000100730040086906000204840572093000409000";
const SOLVED: &str =
    "158723469367954821294816375619238547485697132732145986976381254841572693523469718";
const DEAD_END: &str =
    "003456789000000000000000000010000000020000000000000000000000000000000000000000000";

/// A solution that counts the reads and writes of each square.
fn counting(text: &str) -> BaseSolution {
    BaseSolution::with_metrics(Puzzle::from_str(text).unwrap(), Metrics::default())
}

fn edits(solution: &BaseSolution) -> u64 {
    solution.metrics.as_ref().unwrap().total_edits()
}

fn views(solution: &BaseSolution) -> u64 {
    solution.metrics.as_ref().unwrap().total_views()
}

/// A solution whose writes fail once `writes_left` of them were made.
struct Flaky {
    base: BaseSolution,
    writes_left: usize,
    failed: bool,
}

impl Solution for Flaky {
    fn puzzle(&self) -> Puzzle {
        Puzzle {
            data: self.base.puzzle.data,
            initially_filled: self.base.puzzle.initially_filled,
        }
    }

    fn metrics(&self) -> Option<Metrics> {
        self.base.metrics
    }

    fn failed(&self) -> bool {
        self.failed
    }

    fn set(&mut self, index: usize, value: Option<u8>) -> anyhow::Result<()> {
        self.base.set(index, value);
        if self.writes_left == 0 {
            self.failed = true;
            return Err(anyhow::Error::msg("display failed"));
        }
        self.writes_left -= 1;
        Ok(())
    }

    fn base(&mut self) -> &mut BaseSolution {
        &mut self.base
    }
}

#[test]
fn test_solve() {
    let puzzle =
        Puzzle::from_str("050703060007000800000816000000030000005000100730040086906000204840572093000409000")
            .unwrap();
    let mut solution = BaseSolution::new(puzzle);
    Backtracking.solve(&mut solution, None).unwrap();

    let expected =
        Puzzle::from_str("158723469367954821294816375619238547485697132732145986976381254841572693523469718")
            .unwrap();

    assert_eq!(solution.puzzle, expected);
}

#[test]
fn solved_grid_is_filled_and_valid_everywhere() {
    let mut solution = counting(GIVEN);
    assert!(Backtracking.solve(&mut solution, None).is_ok());
    assert!(solution.puzzle.is_filled_out());
    assert_eq!(solution.puzzle.validate(), Ok(()));
    for idx in 0..81 {
        assert!(solution.is_valid_digit(idx));
    }
    assert_eq!(solution.puzzle.serialize(), SOLVED);
}

#[test]
fn givens_are_kept() {
    let given = Puzzle::from_str(GIVEN).unwrap();
    let mut solution = counting(GIVEN);
    Backtracking.solve(&mut solution, None).unwrap();
    for idx in 0..81 {
        if given.get(idx).is_some() {
            assert_eq!(solution.puzzle.get(idx), given.get(idx));
        }
    }
}

#[test]
fn empty_puzzle_gets_the_first_grid() {
    let mut solution = BaseSolution::with_metrics(Puzzle::default(), Metrics::default());
    assert!(Backtracking.solve(&mut solution, None).is_ok());
    assert_eq!(
        solution.puzzle.serialize(),
        "123456789456789123789123456214365897365897214897214365531642978642978531978531642"
    );
}

#[test]
fn full_puzzle_is_left_alone() {
    let mut solution = counting(SOLVED);
    assert!(Backtracking.solve(&mut solution, None).is_ok());
    assert_eq!(solution.puzzle.serialize(), SOLVED);
    assert_eq!(edits(&solution), 0);
}

#[test]
fn solve_counts_its_writes_and_reads() {
    let mut solution = counting(GIVEN);
    Backtracking.solve(&mut solution, None).unwrap();
    assert_eq!(edits(&solution), 55465);
    assert_eq!(views(&solution), 632686);
}

#[test]
fn cancelled_before_first_step_leaves_grid_unchanged() {
    let (tx, rx) = mpsc::sync_channel(1);
    tx.send(()).unwrap();
    let mut solution = counting(GIVEN);
    let result = Backtracking.solve(&mut solution, Some(rx));
    assert!(result.is_ok());
    assert_eq!(solution.puzzle, Puzzle::from_str(GIVEN).unwrap());
    assert!(!solution.puzzle.is_filled_out());
    assert_eq!(edits(&solution), 0);
}

#[test]
fn silent_channel_does_not_stop_the_search() {
    let (tx, rx) = mpsc::sync_channel::<()>(1);
    let mut solution = counting(GIVEN);
    assert!(Backtracking.solve(&mut solution, Some(rx)).is_ok());
    assert_eq!(solution.puzzle.serialize(), SOLVED);
    drop(tx);
}

#[test]
fn closed_channel_does_not_stop_the_search() {
    let (tx, rx) = mpsc::sync_channel::<()>(1);
    drop(tx);
    let mut solution = counting(GIVEN);
    assert!(Backtracking.solve(&mut solution, Some(rx)).is_ok());
    assert_eq!(solution.puzzle.serialize(), SOLVED);
}

#[test]
fn two_fives_in_a_row_are_unsolvable() {
    let text = "550000000000000000000000000000000000000000000000000000000000000000000000000000000";
    let mut solution = counting(text);
    let result = Backtracking.solve(&mut solution, None);
    assert!(matches!(result, Err(SolveError::Unsolvable)));
    assert_eq!(solution.puzzle.serialize(), text);
}

#[test]
fn dead_end_is_unsolvable_after_going_back() {
    let mut solution = counting(DEAD_END);
    let result = Backtracking.solve(&mut solution, None);
    assert!(matches!(result, Err(SolveError::Unsolvable)));
    assert_eq!(solution.puzzle.serialize(), DEAD_END);
    assert_eq!(edits(&solution), 30);
    assert_eq!(views(&solution), 324);
}

#[test]
fn failing_write_ends_the_search_with_its_error() {
    let base = counting(GIVEN);
    let mut solution = Flaky { base, writes_left: 3, failed: false };
    match Backtracking.solve(&mut solution, None) {
        Err(SolveError::Observer(error)) => assert_eq!(error.to_string(), "display failed"),
        other => panic!("unexpected result: {:?}", other),
    }
    // The failing write was the fourth and the last.
    assert!(solution.failed());
    assert_eq!(edits(&solution.base), 4);
    assert!(!solution.base.puzzle.is_filled_out());
}

#[test]
fn writes_that_never_fail_solve_through_any_solution() {
    let base = counting(GIVEN);
    let mut solution = Flaky { base, writes_left: usize::MAX, failed: false };
    assert!(Backtracking.solve(&mut solution, None).is_ok());
    assert!(!solution.failed());
    assert_eq!(solution.base.puzzle.serialize(), SOLVED);
}

#[test]
fn cursor_lists_the_empty_squares() {
    let mut solution = counting(GIVEN);
    let cursor = SearchCursor::new(&mut solution);
    assert_eq!(cursor.pointer, 0);
    assert_eq!(cursor.initially_empty.len(), 51);
    assert_eq!(&cursor.initially_empty[..6], &[0, 2, 4, 6, 8, 9]);
    assert!(!cursor.is_done());
    assert_eq!(views(&solution), 81);
}

#[test]
fn cursor_of_a_full_puzzle_is_done() {
    let mut solution = counting(SOLVED);
    let cursor = SearchCursor::new(&mut solution);
    assert!(cursor.initially_empty.is_empty());
    assert!(cursor.is_done());
}

#[test]
fn cancelled_step_does_nothing() {
    let mut solution = counting(DEAD_END);
    let mut cursor = SearchCursor::new(&mut solution);
    let step = Backtracking::step(&mut solution, &mut cursor, true).unwrap();
    assert_eq!(step, Step::Cancelled);
    assert_eq!(cursor.pointer, 0);
    assert_eq!(solution.puzzle.serialize(), DEAD_END);
    assert_eq!(edits(&solution), 0);
}

#[test]
fn steps_place_and_go_back() {
    let mut solution = counting(DEAD_END);
    let mut cursor = SearchCursor::new(&mut solution);

    let step = Backtracking::step(&mut solution, &mut cursor, false).unwrap();
    assert_eq!(step, Step::Placed);
    assert_eq!(cursor.pointer, 1);
    assert_eq!(&solution.puzzle.serialize()[..9], "103456789");

    let step = Backtracking::step(&mut solution, &mut cursor, false).unwrap();
    assert_eq!(step, Step::Retreated);
    assert_eq!(cursor.pointer, 0);
    assert_eq!(&solution.puzzle.serialize()[..9], "103456789");
    assert_eq!(edits(&solution), 11);

    let step = Backtracking::step(&mut solution, &mut cursor, false).unwrap();
    assert_eq!(step, Step::Placed);
    assert_eq!(cursor.pointer, 1);
    assert_eq!(&solution.puzzle.serialize()[..9], "203456789");

    let step = Backtracking::step(&mut solution, &mut cursor, false).unwrap();
    assert_eq!(step, Step::Retreated);
    assert_eq!(cursor.pointer, 0);

    let last = Backtracking::step(&mut solution, &mut cursor, false);
    assert!(matches!(last, Err(SolveError::Unsolvable)));
    assert_eq!(cursor.pointer, 0);
    assert_eq!(solution.puzzle.serialize(), DEAD_END);
}

#[test]
fn step_resumes_above_the_digit_that_stands() {
    let mut solution = BaseSolution::with_metrics(Puzzle::default(), Metrics::default());
    let mut cursor = SearchCursor::new(&mut solution);
    for _ in 0..9 {
        assert_eq!(Backtracking::step(&mut solution, &mut cursor, false).unwrap(), Step::Placed);
    }
    assert_eq!(&solution.puzzle.serialize()[..10], "1234567890");
    // The first square of the second row takes 4: 1, 2 and 3 are in its box.
    assert_eq!(Backtracking::step(&mut solution, &mut cursor, false).unwrap(), Step::Placed);
    assert_eq!(&solution.puzzle.serialize()[..10], "1234567894");
    assert_eq!(cursor.pointer, 10);
    assert_eq!(edits(&solution), 45 + 4);
}

#[test]
fn failing_step_reports_the_error() {
    let base = BaseSolution::with_metrics(Puzzle::default(), Metrics::default());
    let mut solution = Flaky { base, writes_left: 0, failed: false };
    let mut cursor = SearchCursor::new(&mut solution.base);
    let step = Backtracking::step(&mut solution, &mut cursor, false);
    assert!(matches!(step, Err(SolveError::Observer(_))));
    assert!(solution.failed());
    assert_eq!(cursor.pointer, 0);
    assert_eq!(solution.base.puzzle.get(0), Some(1));
    assert_eq!(edits(&solution.base), 1);
}

#[test]
fn search_takes_a_known_number_of_steps() {
    let mut solution = counting(GIVEN);
    let mut cursor = SearchCursor::new(&mut solution);
    let mut steps = 0;
    while !cursor.is_done() {
        let step = Backtracking::step(&mut solution, &mut cursor, false).unwrap();
        assert!(step == Step::Placed || step == Step::Retreated);
        steps += 1;
    }
    assert_eq!(steps, 11095);
    assert_eq!(cursor.pointer, 51);
    assert_eq!(solution.puzzle.serialize(), SOLVED);
}

#[test]
fn search_without_going_back_writes_at_most_nine_digits_a_square() {
    let text = format!("{}000000000", &SOLVED[..72]);
    let mut solution = counting(&text);
    let mut cursor = SearchCursor::new(&mut solution);
    let mut steps = 0;
    while !cursor.is_done() {
        assert_eq!(Backtracking::step(&mut solution, &mut cursor, false).unwrap(), Step::Placed);
        steps += 1;
    }
    assert_eq!(steps, 9);
    assert_eq!(solution.puzzle.serialize(), SOLVED);
    // The last row is 523469718: each square took as many writes as its digit.
    assert_eq!(edits(&solution), 45);
    assert!(edits(&solution) <= 9 * 9);
}

#[test]
fn plain_solution_counts_nothing() {
    let mut solution = BaseSolution::new(Puzzle::from_str(GIVEN).unwrap());
    assert!(solution.metrics.is_none());
    assert!(Backtracking.solve(&mut solution, None).is_ok());
    assert!(solution.metrics.is_none());
    assert_eq!(solution.puzzle.serialize(), SOLVED);
}

#[test]
fn every_filled_square_passes_at_each_stand_of_the_search() {
    let mut solution = BaseSolution::new(Puzzle::from_str(GIVEN).unwrap());
    let mut cursor = SearchCursor::new(&mut solution);
    for _ in 0..300 {
        Backtracking::step(&mut solution, &mut cursor, false).unwrap();
        for &idx in &cursor.initially_empty {
            assert!(solution.is_valid_digit(idx));
        }
    }
    assert!(!solution.puzzle.is_filled_out());
}

#[test]
fn a_step_counts_a_write_for_each_digit_it_tries() {
    // Row 0 leaves only 1 and 2 for its first two squares, and column 1 holds both.
    let mut solution = counting(DEAD_END);
    let mut cursor = SearchCursor::new(&mut solution);
    // Square 0 takes 1 at the first try.
    assert_eq!(Backtracking::step(&mut solution, &mut cursor, false).unwrap(), Step::Placed);
    assert_eq!(edits(&solution), 1);
    // Square 1 is tried with all nine digits and cleared.
    assert_eq!(Backtracking::step(&mut solution, &mut cursor, false).unwrap(), Step::Retreated);
    assert_eq!(edits(&solution), 1 + 9 + 1);
    // Square 0 goes on above 1 and takes 2.
    assert_eq!(Backtracking::step(&mut solution, &mut cursor, false).unwrap(), Step::Placed);
    assert_eq!(edits(&solution), 11 + 1);
    assert_eq!(Backtracking::step(&mut solution, &mut cursor, false).unwrap(), Step::Retreated);
    assert_eq!(edits(&solution), 12 + 10);
    // Square 0 is tried with 3 to 9 and cleared.
    assert!(matches!(
        Backtracking::step(&mut solution, &mut cursor, false),
        Err(SolveError::Unsolvable)
    ));
    assert_eq!(edits(&solution), 22 + 7 + 1);
}

use sudoku::metrics::Metrics;
use sudoku::puzzle::Puzzle;
use sudoku::solution::base::BaseSolution;
use sudoku::solution::Solution;
use sudoku::util::{DigitChar, DivRem};

fn with(squares: &[(usize, u8)]) -> BaseSolution {
    let mut puzzle = Puzzle::default();
    for &(idx, digit) in squares {
        puzzle.set(idx, Some(digit));
    }
    BaseSolution::with_metrics(puzzle, Metrics::default())
}

fn edits(solution: &BaseSolution) -> u64 {
    solution.metrics.as_ref().unwrap().total_edits()
}

fn views(solution: &BaseSolution) -> u64 {
    solution.metrics.as_ref().unwrap().total_views()
}

#[test]
fn lone_digit_is_valid() {
    let mut solution = with(&[(40, 5)]);
    for idx in 0..81 {
        assert!(solution.is_valid_digit(idx));
    }
}

#[test]
fn repeat_in_a_row_is_invalid() {
    let mut solution = with(&[(18, 4), (26, 4)]);
    assert!(!solution.is_valid_digit(18));
    assert!(!solution.is_valid_digit(26));
    // An empty square of that row passes: it holds no digit that could repeat.
    assert!(solution.is_valid_digit(22));
    // A square of that row with another digit does not: the row is checked as a whole.
    solution.set(22, Some(7));
    assert!(!solution.is_valid_digit(22));
    // Squares that share only a column or a box with one of the two pass.
    assert!(solution.is_valid_digit(0));
    assert!(solution.is_valid_digit(35));
    assert!(solution.is_valid_digit(80));
}

#[test]
fn repeat_in_a_column_is_invalid() {
    let mut solution = with(&[(4, 9), (76, 9)]);
    assert!(!solution.is_valid_digit(4));
    assert!(!solution.is_valid_digit(76));
    assert!(solution.is_valid_digit(40));
    solution.set(40, Some(1));
    assert!(!solution.is_valid_digit(40));
    assert!(solution.is_valid_digit(0));
    assert!(solution.is_valid_digit(77));
}

#[test]
fn repeat_in_a_box_is_invalid() {
    // Squares 30 and 50: rows 3 and 5, columns 3 and 5, both in the middle box.
    let mut solution = with(&[(30, 2), (50, 2)]);
    assert!(!solution.is_valid_digit(30));
    assert!(!solution.is_valid_digit(50));
    assert!(solution.is_valid_digit(40));
    solution.set(40, Some(1));
    assert!(!solution.is_valid_digit(40));
    // Row 3 and column 5 outside the box hold no digit twice.
    assert!(solution.is_valid_digit(27));
    assert!(solution.is_valid_digit(77));
}

#[test]
fn same_digit_in_different_groups_is_valid() {
    // Squares 0 and 40 share no row, column or box.
    let mut solution = with(&[(0, 6), (40, 6), (80, 6)]);
    for idx in 0..81 {
        assert!(solution.is_valid_digit(idx));
    }
}

#[test]
fn different_digits_in_a_group_are_valid() {
    let mut solution = with(&[
        (0, 1),
        (1, 2),
        (2, 3),
        (3, 4),
        (4, 5),
        (5, 6),
        (6, 7),
        (7, 8),
        (8, 9),
    ]);
    for idx in 0..9 {
        assert!(solution.is_valid_digit(idx));
    }
}

#[test]
fn square_outside_the_puzzle_is_invalid() {
    let mut solution = with(&[]);
    assert!(solution.is_valid_digit(80));
    assert!(!solution.is_valid_digit(81));
    assert!(!solution.is_valid_digit(usize::MAX));
}

#[test]
fn asking_again_gives_the_same_answer() {
    let mut solution = with(&[(18, 4), (26, 4), (40, 1)]);
    for idx in 0..82 {
        let first = solution.is_valid_digit(idx);
        let second = solution.is_valid_digit(idx);
        let third = solution.is_valid_digit(idx);
        assert_eq!(first, second);
        assert_eq!(second, third);
    }
    assert_eq!(solution.puzzle.get(18), Some(4));
    assert_eq!(solution.puzzle.get(40), Some(1));
}

#[test]
fn base_solution_counts_reads_and_writes() {
    let mut solution = with(&[]);
    assert_eq!(edits(&solution), 0);
    assert_eq!(views(&solution), 0);
    solution.set(3, Some(4));
    solution.set(3, Some(5));
    assert_eq!(solution.get(3), Some(5));
    assert_eq!(solution.get(4), None);
    assert_eq!(edits(&solution), 2);
    assert_eq!(views(&solution), 2);
}

#[test]
fn trait_set_writes_and_succeeds() {
    let mut solution = with(&[]);
    assert!(Solution::set(&mut solution, 7, Some(2)).is_ok());
    assert_eq!(Solution::base(&mut solution).get(7), Some(2));
    assert!(Solution::set(&mut solution, 7, None).is_ok());
    assert_eq!(solution.puzzle.get(7), None);
    assert_eq!(edits(&solution), 2);
}

#[test]
fn iter_puzzle_lists_every_square_in_order() {
    let mut solution = with(&[(0, 9), (80, 1)]);
    let squares = solution.iter_puzzle();
    assert_eq!(squares.len(), 81);
    assert_eq!(squares[0], (0, Some(9)));
    assert_eq!(squares[1], (1, None));
    assert_eq!(squares[80], (80, Some(1)));
    assert_eq!(views(&solution), 81);
    // It can be asked again.
    assert_eq!(solution.iter_puzzle(), squares);
    assert_eq!(views(&solution), 162);
}

#[test]
fn a_full_check_reads_the_square_and_its_three_groups() {
    let mut solution = with(&[(40, 5)]);
    assert!(solution.is_valid_digit(40));
    assert_eq!(views(&solution), 1 + 27);
    assert_eq!(edits(&solution), 0);
}

#[test]
fn metrics_count_each_event() {
    let mut metrics = Metrics::default();
    assert_eq!(metrics.total_edits(), 0);
    assert_eq!(metrics.total_views(), 0);
    metrics.record_edit(0);
    metrics.record_edit(0);
    metrics.record_edit(80);
    metrics.record_view(17);
    assert_eq!(metrics.total_edits(), 3);
    assert_eq!(metrics.total_views(), 1);
}

#[test]
fn div_rem_gives_quotient_and_remainder() {
    assert_eq!(40usize.div_rem(9), (4, 4));
    assert_eq!(80usize.div_rem(9), (8, 8));
    assert_eq!(0usize.div_rem(9), (0, 0));
    assert_eq!(17u8.div_rem(5), (3, 2));
    assert_eq!((-7i32).div_rem(2), (-3, -1));
}

#[test]
fn digit_char_is_the_ascii_digit() {
    assert_eq!(0u8.digit_char(), Some('0'));
    assert_eq!(7u8.digit_char(), Some('7'));
    assert_eq!(9u8.digit_char(), Some('9'));
    assert_eq!(10u8.digit_char(), None);
    assert_eq!(255u8.digit_char(), None);
}

#[test]
fn new_solution_has_no_counters() {
    let mut solution = BaseSolution::new(Puzzle::default());
    assert!(solution.metrics.is_none());
    solution.set(3, Some(4));
    assert_eq!(solution.get(3), Some(4));
    assert!(solution.is_valid_digit(3));
    assert_eq!(solution.iter_puzzle().len(), 81);
    assert!(solution.metrics.is_none());
}

#[test]
fn a_check_stops_reading_at_the_first_repeat() {
    // Row 0 holds 5 in its columns 0 and 3: after the square itself, the scan of the row reads
    // four squares.
    let mut solution = with(&[(0, 5), (3, 5)]);
    assert!(!solution.is_valid_digit(0));
    assert_eq!(views(&solution), 1 + 4);
    // Column 4 holds 7 in its rows 1 and 2: row 1 is read whole, then three squares of the column.
    let mut solution = with(&[(13, 7), (22, 7)]);
    assert!(!solution.is_valid_digit(13));
    assert_eq!(views(&solution), 1 + 9 + 3);
    // The middle box holds 2 in squares 30 and 50: row 3 and column 3 are read whole, then the
    // box up to square 50.
    let mut solution = with(&[(30, 2), (50, 2)]);
    assert!(!solution.is_valid_digit(30));
    assert_eq!(views(&solution), 1 + 9 + 9 + 9);
    let mut solution = with(&[(30, 2), (41, 2)]);
    assert!(!solution.is_valid_digit(30));
    assert_eq!(views(&solution), 1 + 9 + 9 + 6);
}

#[test]
fn a_check_of_an_empty_square_reads_only_the_square() {
    let mut solution = with(&[(0, 5), (3, 5)]);
    assert!(solution.is_valid_digit(8));
    assert_eq!(views(&solution), 1);
    assert_eq!(solution.metrics.as_ref().unwrap().total_edits(), 0);
}

#[test]
fn empty_square_beside_a_repeat_passes() {
    let mut solution = BaseSolution::new(Puzzle::default());
    solution.set(0, Some(5));
    solution.set(1, Some(5));
    assert!(solution.is_valid_digit(2));
    assert!(!solution.is_valid_digit(0));
    assert!(!solution.is_valid_digit(1));
}

#[test]
fn every_square_of_an_empty_puzzle_passes() {
    let mut solution = BaseSolution::new(Puzzle::default());
    for idx in 0..81 {
        assert!(solution.is_valid_digit(idx));
    }
    assert!(!solution.is_valid_digit(81));
}

#[test]
fn a_check_outside_the_puzzle_reads_nothing() {
    let mut solution = with(&[(0, 5), (3, 5)]);
    assert!(!solution.is_valid_digit(81));
    assert_eq!(views(&solution), 0);
}

use std::collections::HashSet;
use std::str::FromStr;

use sudoku::puzzle::{ParseError, Puzzle};
use sudoku::PUZZLE_DIGITS;

const GIVEN: &str =
    "050703060007000800000816000000030000005000100730040086906000204840572093000409000";
const DOTTED: &str =
    ".5.7.3.6...7...8.....816.......3......5...1..73..4..869.6...2.484.572.93...4.9...";

#[test]
fn puzzle_has_81_squares() {
    assert_eq!(PUZZLE_DIGITS, 81);
    assert_eq!(Puzzle::default().data.len(), 81);
}

#[test]
fn default_is_empty_and_tracks_nothing() {
    let puzzle = Puzzle::default();
    for idx in 0..81 {
        assert_eq!(puzzle.get(idx), None);
    }
    assert_eq!(puzzle.initially_filled, None);
}

#[test]
fn parse_reads_digits_row_by_row() {
    let puzzle = Puzzle::parse(GIVEN).unwrap();
    assert_eq!(puzzle.get(0), None);
    assert_eq!(puzzle.get(1), Some(5));
    assert_eq!(puzzle.get(3), Some(7));
    assert_eq!(puzzle.get(11), Some(7));
    assert_eq!(puzzle.get(80), None);
    assert_eq!(puzzle.get(77), Some(9));
    assert_eq!(puzzle.initially_filled, None);
}

#[test]
fn period_and_zero_both_mean_empty() {
    assert_eq!(Puzzle::parse(DOTTED).unwrap(), Puzzle::parse(GIVEN).unwrap());
    assert_eq!(Puzzle::from_str(DOTTED).unwrap(), Puzzle::from_str(GIVEN).unwrap());
}

#[test]
fn serialize_writes_zero_for_empty() {
    assert_eq!(Puzzle::parse(DOTTED).unwrap().serialize(), GIVEN);
    assert_eq!(Puzzle::parse(GIVEN).unwrap().serialize(), GIVEN);
    assert_eq!(Puzzle::default().serialize(), "0".repeat(81));
}

#[test]
fn parse_after_serialize_gives_the_puzzle_back() {
    let puzzle = Puzzle::parse(DOTTED).unwrap();
    let again = Puzzle::parse(&puzzle.serialize()).unwrap();
    assert_eq!(again, puzzle);
    assert_eq!(again.serialize(), puzzle.serialize());
}

#[test]
fn wrong_length_is_a_length_error() {
    assert_eq!(Puzzle::parse(""), Err(ParseError::Length));
    assert_eq!(Puzzle::parse(&GIVEN[..80]), Err(ParseError::Length));
    assert_eq!(Puzzle::parse(&format!("{}0", GIVEN)), Err(ParseError::Length));
    assert_eq!(Puzzle::from_str("123"), Err(ParseError::Length));
}

#[test]
fn length_is_counted_in_bytes() {
    // 80 digits and one character of two bytes: 81 characters, 82 bytes.
    let text = format!("{}é", &GIVEN[..80]);
    assert_eq!(text.chars().count(), 81);
    assert_eq!(Puzzle::parse(&text), Err(ParseError::Length));
    // 79 digits and one character of two bytes: 81 bytes, 80 characters.
    let text = format!("{}é", &GIVEN[..79]);
    assert_eq!(text.len(), 81);
    assert_eq!(Puzzle::parse(&text), Err(ParseError::Format { character: 'é', index: 79 }));
}

#[test]
fn bad_character_is_named_with_its_index() {
    let text = format!("{}x{}", &GIVEN[..40], &GIVEN[41..]);
    assert_eq!(Puzzle::parse(&text), Err(ParseError::Format { character: 'x', index: 40 }));
    let text = format!(" {}", &GIVEN[1..]);
    assert_eq!(Puzzle::parse(&text), Err(ParseError::Format { character: ' ', index: 0 }));
}

#[test]
fn first_bad_character_is_reported() {
    let text = format!("{}-{}?", &GIVEN[..10], &GIVEN[11..80]);
    assert_eq!(Puzzle::parse(&text), Err(ParseError::Format { character: '-', index: 10 }));
}

#[test]
fn set_then_get() {
    let mut puzzle = Puzzle::default();
    puzzle.set(40, Some(7));
    assert_eq!(puzzle.get(40), Some(7));
    assert_eq!(puzzle.get(41), None);
    puzzle.set(40, None);
    assert_eq!(puzzle.get(40), None);
}

#[test]
fn tracked_squares_refuse_edits() {
    let mut puzzle = Puzzle::parse(GIVEN).unwrap();
    puzzle.track_initial();
    let filled = puzzle.initially_filled.unwrap();
    assert!(filled[1]);
    assert!(!filled[0]);
    puzzle.set(1, Some(9));
    assert_eq!(puzzle.get(1), Some(5));
    puzzle.set(1, None);
    assert_eq!(puzzle.get(1), Some(5));
    puzzle.set(0, Some(9));
    assert_eq!(puzzle.get(0), Some(9));
    puzzle.set(0, None);
    assert_eq!(puzzle.get(0), None);
}

#[test]
fn track_initial_keeps_the_squares() {
    let mut puzzle = Puzzle::parse(GIVEN).unwrap();
    puzzle.track_initial();
    assert_eq!(puzzle.serialize(), GIVEN);
    let filled = puzzle.initially_filled.unwrap();
    for idx in 0..81 {
        assert_eq!(filled[idx], puzzle.get(idx).is_some());
    }
}

#[test]
fn pretty_draws_bars_and_dividers() {
    let expected = [
        "-------------",
        "|.5.|7.3|.6.|",
        "|..7|...|8..|",
        "|...|816|...|",
        "-------------",
        "|...|.3.|...|",
        "|..5|...|1..|",
        "|73.|.4.|.86|",
        "-------------",
        "|9.6|...|2.4|",
        "|84.|572|.93|",
        "|...|4.9|...|",
        "-------------",
        "",
    ]
    .join("\n");
    assert_eq!(Puzzle::parse(GIVEN).unwrap().pretty(), expected);
}

#[test]
fn prev_empty_finds_the_last_empty_square_before() {
    let puzzle = Puzzle::parse(GIVEN).unwrap();
    assert_eq!(puzzle.prev_empty(0), None);
    assert_eq!(puzzle.prev_empty(1), Some(0));
    assert_eq!(puzzle.prev_empty(2), Some(0));
    assert_eq!(puzzle.prev_empty(3), Some(2));
    assert_eq!(puzzle.prev_empty(81), Some(80));
    let full = Puzzle::parse(&"1".repeat(81)).unwrap();
    assert_eq!(full.prev_empty(81), None);
}

#[test]
fn next_empty_finds_the_first_empty_square_after() {
    let puzzle = Puzzle::parse(GIVEN).unwrap();
    assert_eq!(puzzle.next_empty(0), Some(2));
    assert_eq!(puzzle.next_empty(1), Some(2));
    assert_eq!(puzzle.next_empty(2), Some(4));
    assert_eq!(puzzle.next_empty(76), Some(78));
    assert_eq!(puzzle.next_empty(79), Some(80));
    assert_eq!(puzzle.next_empty(80), None);
    assert_eq!(puzzle.next_empty(81), None);
    assert_eq!(puzzle.next_empty(usize::MAX), None);
}

#[test]
fn is_filled_out_wants_every_square() {
    assert!(!Puzzle::default().is_filled_out());
    assert!(!Puzzle::parse(GIVEN).unwrap().is_filled_out());
    assert!(Puzzle::parse(&"1".repeat(81)).unwrap().is_filled_out());
    let mut almost = Puzzle::parse(&"1".repeat(81)).unwrap();
    almost.set(80, None);
    assert!(!almost.is_filled_out());
}

#[test]
fn validate_accepts_a_consistent_puzzle() {
    assert_eq!(Puzzle::parse(GIVEN).unwrap().validate(), Ok(()));
    assert_eq!(Puzzle::default().validate(), Ok(()));
}

#[test]
fn validate_lists_the_squares_of_a_repeated_digit() {
    let mut puzzle = Puzzle::default();
    // A row.
    puzzle.set(0, Some(5));
    puzzle.set(8, Some(5));
    // A column.
    puzzle.set(13, Some(7));
    puzzle.set(76, Some(7));
    // A box, neither the same row nor the same column.
    puzzle.set(60, Some(3));
    puzzle.set(70, Some(3));
    // A digit that occurs once in each of its groups.
    puzzle.set(40, Some(5));
    let expected: HashSet<usize> = [0, 8, 13, 76, 60, 70].into_iter().collect();
    assert_eq!(puzzle.validate(), Err(expected));
}

#[test]
fn validate_marks_three_of_a_kind() {
    let mut puzzle = Puzzle::default();
    puzzle.set(27, Some(1));
    puzzle.set(30, Some(1));
    puzzle.set(35, Some(1));
    puzzle.set(31, Some(2));
    let expected: HashSet<usize> = [27, 30, 35].into_iter().collect();
    assert_eq!(puzzle.validate(), Err(expected));
}

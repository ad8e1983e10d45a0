//! The grid of 81 squares: its squares, its text forms and its check.

use std::collections::HashSet;
use std::str::FromStr;

use vstd::prelude::*;
use vstd::string::{StrSliceExecFns, StringSliceAdditionalSpecFns};

use crate::rules::{clash, conflicts, digits_ok, filled, in_conflict, in_grid, peers, Grid};
use crate::text::{
    block, block_char, is_square_char, lemma_chars_within_bytes,
    lemma_well_formed_bytes, parsed, serialized, square_of, well_formed,
};
use crate::util::{DigitChar, DivRem};
use crate::PUZZLE_DIGITS;

verus! {

/// [`String::push`] appends the character to the end of the string.
pub assume_specification[ String::push ](text: &mut String, ch: char)
    ensures
        final(text)@ == old(text)@.push(ch),
;

/// Why a text is not a puzzle.
#[derive(Debug, Clone, Copy, PartialEq, Eq, Structural)]
pub enum ParseError {
    /// The text is not 81 bytes long.
    Length,
    /// The character at place `index` is neither a digit nor a period.
    Format { character: char, index: usize },
}

/// What reading `input` gives: the puzzle of a well-formed text, of which
/// no square refuses edits; a length error for a text that is not 81 bytes
/// long; for any other text its first character that is neither a digit nor
/// a period, and the place of it.
pub open spec fn reads_as(input: &str, result: Result<Puzzle, ParseError>) -> bool {
    match result {
        Ok(puzzle) => {
            &&& well_formed(input@)
            &&& puzzle@ == parsed(input@)
            &&& puzzle.initially_filled is None
            &&& puzzle.wf()
        },
        Err(ParseError::Length) => input.spec_bytes().len() != PUZZLE_DIGITS,
        Err(ParseError::Format { character, index }) => {
            &&& input.spec_bytes().len() == PUZZLE_DIGITS
            &&& index < input@.len()
            &&& character == input@[index as int]
            &&& !is_square_char(character)
            &&& forall|i: int| 0 <= i < index ==> is_square_char(#[trigger] input@[i])
        },
    }
}

#[derive(Debug, Eq, PartialEq)]
pub struct Puzzle {
    pub data: [Option<u8>; PUZZLE_DIGITS],
    /// Optional tracking of the cells which were initially filled, restricting
    /// edits to them.
    pub initially_filled: Option<[bool; PUZZLE_DIGITS]>,
}

impl View for Puzzle {
    type V = Grid;

    /// The squares in row-major order.
    open spec fn view(&self) -> Grid {
        self.data@
    }
}

impl Puzzle {
    /// Whether edits to square `idx` are refused.
    pub open spec fn is_fixed(&self, idx: int) -> bool {
        match self.initially_filled {
            Some(filled) => filled@[idx],
            None => false,
        }
    }

    /// Every digit is one of 1 to 9, and a square that refuses edits holds
    /// a digit.
    pub open spec fn wf(&self) -> bool {
        &&& digits_ok(self@)
        &&& forall|i: int| in_grid(i) && self.is_fixed(i) ==> (#[trigger] self@[i]) is Some
    }

    /// The squares after `value` was written to square `idx`: the write is
    /// dropped where the square refuses edits.
    pub open spec fn after_set(&self, idx: int, value: Option<u8>) -> Grid {
        if self.is_fixed(idx) {
            self@
        } else {
            self@.update(idx, value)
        }
    }

    pub fn get(&self, idx: usize) -> (value: Option<u8>)
        requires
            idx < PUZZLE_DIGITS,
        ensures
            value == self@[idx as int],
    {
        self.data[idx]
    }

    pub fn set(&mut self, idx: usize, value: Option<u8>)
        requires
            idx < PUZZLE_DIGITS,
            value matches Some(d) ==> 1 <= d <= 9,
        ensures
            final(self).initially_filled == old(self).initially_filled,
            final(self)@ == old(self).after_set(idx as int, value),
            old(self).wf() ==> final(self).wf(),
    {
        let fixed = match &self.initially_filled {
            Some(filled) => filled[idx],
            None => false,
        };
        if !fixed {
            self.data[idx] = value;
        }
    }
}

impl Puzzle {
    /// Marks the squares that hold a digit: from now on they refuse edits.
    pub fn track_initial(&mut self)
        ensures
            final(self).data == old(self).data,
            final(self).initially_filled is Some,
            forall|i: int| in_grid(i) ==> final(self).is_fixed(i) == (old(self)@[i] is Some),
            digits_ok(old(self)@) ==> final(self).wf(),
    {
        let mut filled = [false; PUZZLE_DIGITS];
        for idx in 0..PUZZLE_DIGITS
            invariant
                forall|i: int| 0 <= i < idx ==> #[trigger] filled@[i] == (self@[i] is Some),
        {
            filled[idx] = self.data[idx].is_some();
        }
        self.initially_filled = Some(filled);
    }

    /// Render the puzzle to a single line of 81 digits.
    pub fn serialize(&self) -> (text: String)
        requires
            digits_ok(self@),
        ensures
            text@ == serialized(self@),
    {
        let mut buffer = String::new();
        for idx in 0..PUZZLE_DIGITS
            invariant
                digits_ok(self@),
                buffer@ == serialized(self@).take(idx as int),
        {
            let char = match self.data[idx] {
                // We only ever store digits in data, so the unwrap is safe.
                Some(digit) => digit.digit_char().unwrap(),
                None => '0',
            };
            buffer.push(char);
        }
        buffer
    }

    /// Render the puzzle as a block of nine rows between bars, with a
    /// divider after every third column and a period for an empty square.
    pub fn pretty(&self) -> (text: String)
        requires
            digits_ok(self@),
        ensures
            text@ == block(self@),
    {
        let mut buffer = String::new();
        for line in 0..13usize
            invariant
                digits_ok(self@),
                buffer@ == block(self@).take(line * 14),
        {
            for col in 0..14usize
                invariant
                    line < 13,
                    digits_ok(self@),
                    buffer@ == block(self@).take(line * 14 + col),
            {
                let char = if col == 13 {
                    '\n'
                } else if line % 4 == 0 {
                    '-'
                } else if col % 4 == 0 {
                    '|'
                } else {
                    let idx = (line - 1 - line / 4) * 9 + (col - 1 - col / 4);
                    match self.data[idx] {
                        Some(digit) => digit.digit_char().unwrap(),
                        None => '.',
                    }
                };
                assert(block(self@)[line * 14 + col] == char);
                buffer.push(char);
            }
        }
        buffer
    }

    /// The last empty square before square `index`, if there is one.
    pub fn prev_empty(&self, index: usize) -> (found: Option<usize>)
        requires
            index <= PUZZLE_DIGITS,
        ensures
            match found {
                Some(i) => {
                    &&& i < index
                    &&& self@[i as int] is None
                    &&& forall|j: int| i < j < index ==> (#[trigger] self@[j]) is Some
                },
                None => forall|j: int| 0 <= j < index ==> (#[trigger] self@[j]) is Some,
            },
    {
        let mut i = index;
        while i > 0
            invariant
                i <= index <= PUZZLE_DIGITS,
                forall|j: int| i <= j < index ==> (#[trigger] self@[j]) is Some,
            decreases i,
        {
            i -= 1;
            if self.data[i].is_none() {
                return Some(i);
            }
        }
        None
    }

    /// The first empty square after square `index`, if there is one.
    pub fn next_empty(&self, index: usize) -> (found: Option<usize>)
        ensures
            match found {
                Some(i) => {
                    &&& index < i < PUZZLE_DIGITS
                    &&& self@[i as int] is None
                    &&& forall|j: int| index < j < i ==> (#[trigger] self@[j]) is Some
                },
                None => forall|j: int| index < j < PUZZLE_DIGITS ==> (#[trigger] self@[j]) is Some,
            },
    {
        if index >= PUZZLE_DIGITS {
            return None;
        }
        let mut i = index + 1;
        while i < PUZZLE_DIGITS
            invariant
                index < i <= PUZZLE_DIGITS,
                forall|j: int| index < j < i ==> (#[trigger] self@[j]) is Some,
            decreases PUZZLE_DIGITS - i,
        {
            if self.data[i].is_none() {
                return Some(i);
            }
            i += 1;
        }
        None
    }

    /// Returns true if all of the squares in the puzzle are filled.
    pub fn is_filled_out(&self) -> (all: bool)
        ensures
            all == filled(self@),
    {
        for idx in 0..PUZZLE_DIGITS
            invariant
                forall|i: int| 0 <= i < idx ==> (#[trigger] self@[i]) is Some,
        {
            if self.data[idx].is_none() {
                return false;
            }
        }
        true
    }

    /// Returns a list of invalid square indices if the puzzle state is invalid:
    /// the squares whose digit occurs again in their row, column or box.
    pub fn validate(&self) -> (result: Result<(), HashSet<usize>>)
        ensures
            match result {
                Ok(()) => conflicts(self@) == Set::<usize>::empty(),
                Err(invalid_squares) => {
                    &&& invalid_squares@ == conflicts(self@)
                    &&& conflicts(self@) != Set::<usize>::empty()
                },
            },
    {
        broadcast use vstd::std_specs::hash::group_hash_axioms;

        let mut invalid_squares: HashSet<usize> = HashSet::new();
        for idx in 0..PUZZLE_DIGITS
            invariant
                forall|i: usize|
                    invalid_squares@.contains(i) <==> i < idx && in_conflict(self@, i as int),
        {
            if let Some(digit) = self.data[idx] {
                let mut repeated = false;
                let mut other: usize = 0;
                while other < PUZZLE_DIGITS && !repeated
                    invariant
                        idx < PUZZLE_DIGITS,
                        other <= PUZZLE_DIGITS,
                        self@[idx as int] == Some(digit),
                        repeated ==> in_conflict(self@, idx as int),
                        !repeated ==> forall|j: int|
                            0 <= j < other ==> !(peers(idx as int, j) && #[trigger] clash(
                                self@,
                                idx as int,
                                j,
                            )),
                    decreases PUZZLE_DIGITS - other + if repeated { 0int } else { 1int },
                {
                    if share_group(idx, other) && self.data[other] == Some(digit) {
                        assert(clash(self@, idx as int, other as int));
                        repeated = true;
                    } else {
                        other += 1;
                    }
                }
                if repeated {
                    invalid_squares.insert(idx);
                }
            } else {
                assert forall|j: int| !#[trigger] clash(self@, idx as int, j) by {}
            }
        }
        if !invalid_squares.is_empty() {
            return Err(invalid_squares);
        }
        Ok(())
    }

    /// Reads a puzzle from a line of 81 characters, each a digit or a
    /// period. Both `0` and `.` stand for an empty square. No square of the
    /// puzzle refuses edits.
    pub fn parse(input: &str) -> (result: Result<Puzzle, ParseError>)
        ensures
            reads_as(input, result),
            well_formed(input@) ==> result is Ok,
    {
        proof {
            if well_formed(input@) {
                lemma_well_formed_bytes(input@);
            }
            lemma_chars_within_bytes(input@);
        }
        if input.as_bytes().len() != PUZZLE_DIGITS {
            return Err(ParseError::Length);
        }
        let mut puzzle = Puzzle::default();
        let count = input.unicode_len();
        let mut idx: usize = 0;
        while idx < count
            invariant
                idx <= count <= PUZZLE_DIGITS,
                count == input@.len(),
                input.spec_bytes().len() == PUZZLE_DIGITS,
                puzzle.initially_filled is None,
                forall|i: int| 0 <= i < idx ==> is_square_char(#[trigger] input@[i]),
                forall|i: int| 0 <= i < idx ==> #[trigger] puzzle@[i] == square_of(input@[i]),
                forall|i: int| idx <= i < PUZZLE_DIGITS ==> (#[trigger] puzzle@[i]) is None,
            decreases count - idx,
        {
            let char = input.get_char(idx);
            let ghost before = puzzle@;
            if '1' <= char && char <= '9' {
                puzzle.data[idx] = Some(char as u8 - 48);
                assert(puzzle@ == before.update(idx as int, square_of(char)));
            } else if char == '0' || char == '.' {
                // We accept both '0' and '.' to mean "empty square"
            } else {
                return Err(ParseError::Format { character: char, index: idx });
            }
            idx += 1;
        }
        proof {
            lemma_well_formed_bytes(input@);
            assert(puzzle@ =~= parsed(input@));
        }
        Ok(puzzle)
    }
}

/// Whether two squares are different and belong to a common row, column or
/// box.
fn share_group(i: usize, j: usize) -> (shared: bool)
    requires
        i < PUZZLE_DIGITS,
        j < PUZZLE_DIGITS,
    ensures
        shared == peers(i as int, j as int),
{
    let (row, col) = i.div_rem(9);
    let (other_row, other_col) = j.div_rem(9);
    i != j && (row == other_row || col == other_col || (row / 3 == other_row / 3 && col / 3
        == other_col / 3))
}

impl FromStr for Puzzle {
    type Err = ParseError;

    /// Reads a puzzle as [`Puzzle::parse`] does.
    fn from_str(input: &str) -> (result: Result<Self, ParseError>)
        ensures
            reads_as(input, result),
            well_formed(input@) ==> result is Ok,
    {
        Puzzle::parse(input)
    }
}

impl Default for Puzzle {
    fn default() -> (puzzle: Self)
        ensures
            puzzle.initially_filled is None,
            forall|i: int| in_grid(i) ==> puzzle@[i] is None,
            puzzle.wf(),
    {
        Puzzle { data: [None; PUZZLE_DIGITS], initially_filled: None }
    }
}

} // verus!

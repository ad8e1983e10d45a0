//! What a display of a puzzle keeps and decides: the cursor, the squares
//! marked as invalid, and the look of a square.

use std::collections::HashSet;

use vstd::prelude::*;

use crate::puzzle::Puzzle;
use crate::util::{DigitChar, DivRem};
use crate::PUZZLE_DIGITS;

verus! {

pub enum Movement {
    To { row: usize, column: usize },
    Up,
    Down,
    Left,
    Right,
}

#[derive(Copy, Clone)]
pub enum Cell {
    /// Render this glyph.
    Glyph(char),
    /// Render whitespace.
    Space,
    /// Render the value of the square at this index.
    Square(usize),
}

/// How a square is coloured.
#[derive(Debug, Clone, Copy, PartialEq, Eq, Structural)]
pub enum Shade {
    /// The puzzle tracks no given squares: the colour is left as it is.
    Plain,
    /// A square that was given.
    Given,
    /// A square that the player may edit.
    Entered,
    /// A square of the player's whose digit occurs again in its row, column
    /// or box.
    Invalid,
}

/// The cursor and the squares marked as invalid.
pub struct Screen {
    pub cursor_square_index: Option<usize>,
    pub invalid_squares: HashSet<usize>,
}

/// The square that the cursor reaches from square `index`. At an edge it
/// comes back in at the opposite edge.
pub open spec fn moved(index: int, direction: Movement) -> int {
    let row = index / 9;
    let col = index % 9;
    match direction {
        Movement::Up => (row + 8) % 9 * 9 + col,
        Movement::Down => (row + 1) % 9 * 9 + col,
        Movement::Left => row * 9 + (col + 8) % 9,
        Movement::Right => row * 9 + (col + 1) % 9,
        Movement::To { row: r, column: c } => r * 9 + c,
    }
}

/// The character and the colour of square `index`: a blank for an empty
/// square; red for an invalid square that is not given.
pub open spec fn look(puzzle: Puzzle, invalid: Set<usize>, index: usize) -> (char, Shade) {
    let glyph = match puzzle@[index as int] {
        Some(d) if d < 10 => (d + 48) as char,
        _ => ' ',
    };
    let shade = if invalid.contains(index) && !puzzle.is_fixed(index as int) {
        Shade::Invalid
    } else if puzzle.initially_filled is None {
        Shade::Plain
    } else if puzzle.is_fixed(index as int) {
        Shade::Given
    } else {
        Shade::Entered
    };
    (glyph, shade)
}

impl Screen {
    /// The cursor, where there is one, is on a square.
    pub open spec fn wf(&self) -> bool {
        self.cursor_square_index matches Some(index) ==> index < PUZZLE_DIGITS
    }

    /// A screen without a cursor and with no square marked.
    pub fn new() -> (screen: Self)
        ensures
            screen.cursor_square_index is None,
            screen.invalid_squares@ == Set::<usize>::empty(),
            screen.wf(),
    {
        Screen { cursor_square_index: None, invalid_squares: HashSet::new() }
    }

    /// Puts the cursor on the first square.
    pub fn with_cursor(self) -> (screen: Self)
        ensures
            screen.cursor_square_index == Some(0usize),
            screen.invalid_squares == self.invalid_squares,
            screen.wf(),
    {
        Screen { cursor_square_index: Some(0), invalid_squares: self.invalid_squares }
    }

    /// The column and the line of the cursor on a display that gives each
    /// square four columns and two lines, behind a frame.
    pub fn cursor_position(&self) -> (position: Option<(u16, u16)>)
        requires
            self.wf(),
        ensures
            position == match self.cursor_square_index {
                Some(index) => Some(((index % 9 * 4 + 2) as u16, (index / 9 * 2 + 1) as u16)),
                None => None,
            },
    {
        match self.cursor_square_index {
            Some(index) => {
                let (row, col) = index.div_rem(9);
                Some(((col * 4 + 2) as u16, (row * 2 + 1) as u16))
            },
            None => None,
        }
    }

    /// Moves the cursor, if there is one.
    pub fn move_cursor(&mut self, direction: Movement) -> (done: Option<()>)
        requires
            old(self).wf(),
            direction matches Movement::To { row, column } ==> row < 9 && column < 9,
        ensures
            final(self).wf(),
            final(self).invalid_squares == old(self).invalid_squares,
            match old(self).cursor_square_index {
                Some(index) => {
                    &&& done is Some
                    &&& final(self).cursor_square_index == Some(
                        moved(index as int, direction) as usize,
                    )
                },
                None => done is None && final(self).cursor_square_index is None,
            },
    {
        let index = match self.cursor_square_index {
            Some(index) => index,
            None => {
                return None;
            },
        };
        let (mut row, mut col) = index.div_rem(9);
        match direction {
            Movement::Up => row = if row == 0 {
                8
            } else {
                row - 1
            },
            Movement::Down => row = (row + 1) % 9,
            Movement::Left => col = if col == 0 {
                8
            } else {
                col - 1
            },
            Movement::Right => col = (col + 1) % 9,
            Movement::To { row: r, column: c } => {
                row = r;
                col = c;
            },
        }
        self.cursor_square_index = Some(row * 9 + col);
        Some(())
    }

    /// The character and the colour to show square `index` with.
    pub fn render_square(&self, puzzle: &Puzzle, index: usize) -> (drawn: (char, Shade))
        requires
            index < PUZZLE_DIGITS,
        ensures
            drawn == look(*puzzle, self.invalid_squares@, index),
    {
        broadcast use vstd::std_specs::hash::group_hash_axioms;

        let glyph = match puzzle.get(index) {
            Some(digit) => match digit.digit_char() {
                Some(glyph) => glyph,
                None => ' ',
            },
            None => ' ',
        };
        let given = match &puzzle.initially_filled {
            Some(initially_filled) => initially_filled[index],
            None => false,
        };
        let shade = if self.invalid_squares.contains(&index) && !given {
            Shade::Invalid
        } else if puzzle.initially_filled.is_none() {
            Shade::Plain
        } else if given {
            Shade::Given
        } else {
            Shade::Entered
        };
        (glyph, shade)
    }
}

} // verus!

//! The keys of a game: what each key does to the puzzle, the cursor and the
//! marked squares.

use vstd::prelude::*;

use crate::puzzle::Puzzle;
use crate::rules::{conflicts, filled, Grid};
use crate::tui::{moved, Movement, Screen};
use crate::util::DivRem;

verus! {

/// A key press, as far as the game tells keys apart.
#[derive(Debug, Clone, Copy, PartialEq, Eq, Structural)]
pub enum Key {
    Char(char),
    Backspace,
    Esc,
    /// Any other key.
    Other,
}

/// What the next key means: a command, or the row or the column of a jump
/// that `g` began.
#[derive(Debug, Clone, Copy, Default)]
pub enum GameKeys {
    #[default]
    Normal,
    GoRow,
    GoColumn { row: usize },
}

/// The digit that a character writes, if it is one.
pub open spec fn digit_of(c: char) -> Option<u8> {
    if '0' <= c <= '9' {
        Some((c as u8 - 48) as u8)
    } else {
        None
    }
}

/// The digit that a key writes, if it is a digit key.
pub open spec fn typed(key: Key) -> Option<u8> {
    match key {
        Key::Char(c) => digit_of(c),
        _ => None,
    }
}

/// What a digit key leaves in a square: `0` clears it.
pub open spec fn written(d: u8) -> Option<u8> {
    if d == 0 {
        None
    } else {
        Some(d)
    }
}

/// `to` is the last empty square before `from`, or `from` itself if there
/// is none.
pub open spec fn back_to_empty(g: Grid, from: int, to: int) -> bool {
    if to == from {
        forall|j: int| 0 <= j < from ==> (#[trigger] g[j]) is Some
    } else {
        &&& 0 <= to < from
        &&& g[to] is None
        &&& forall|j: int| to < j < from ==> (#[trigger] g[j]) is Some
    }
}

/// `to` is the first empty square after `from`, or `from` itself if there
/// is none.
pub open spec fn on_to_empty(g: Grid, from: int, to: int) -> bool {
    if to == from {
        forall|j: int| from < j < 81 ==> (#[trigger] g[j]) is Some
    } else {
        &&& from < to < 81
        &&& g[to] is None
        &&& forall|j: int| from < j < to ==> (#[trigger] g[j]) is Some
    }
}

impl GameKeys {
    /// The row of a jump is a digit.
    pub open spec fn wf(self) -> bool {
        self matches GameKeys::GoColumn { row } ==> row <= 9
    }

    /// Whether the key acts on the square under the cursor.
    pub open spec fn needs_cursor(self, key: Key) -> bool {
        self is Normal && (key is Backspace || key == Key::Char(',') || key == Key::Char('.')
            || typed(key) is Some)
    }

    /// What the key after this one means.
    pub open spec fn next_mode(self, key: Key) -> GameKeys {
        match self {
            GameKeys::Normal => if key == Key::Char('g') {
                GameKeys::GoRow
            } else {
                GameKeys::Normal
            },
            GameKeys::GoRow => if key is Esc {
                GameKeys::Normal
            } else if typed(key) is Some {
                GameKeys::GoColumn { row: typed(key)->0 as usize }
            } else {
                GameKeys::GoRow
            },
            GameKeys::GoColumn { row } => if key is Esc || typed(key) is Some {
                GameKeys::Normal
            } else {
                GameKeys::GoColumn { row }
            },
        }
    }

    /// The squares after the key: backspace clears the square under the
    /// cursor and a digit key writes to it, unless the square refuses edits.
    pub open spec fn grid_after(self, key: Key, puzzle: Puzzle, cursor: Option<usize>) -> Grid {
        if self is Normal && key is Backspace {
            puzzle.after_set(cursor->0 as int, None)
        } else if self is Normal && typed(key) is Some {
            puzzle.after_set(cursor->0 as int, written(typed(key)->0))
        } else {
            puzzle@
        }
    }

    /// Whether `to` is where the key takes a cursor that stands on `from`.
    pub open spec fn cursor_after(self, key: Key, g: Grid, from: int, to: int) -> bool {
        match self {
            GameKeys::Normal => if key == Key::Char('h') {
                to == moved(from, Movement::Left)
            } else if key == Key::Char('j') {
                to == moved(from, Movement::Down)
            } else if key == Key::Char('k') {
                to == moved(from, Movement::Up)
            } else if key == Key::Char('l') {
                to == moved(from, Movement::Right)
            } else if key == Key::Char(',') {
                back_to_empty(g, from, to)
            } else if key == Key::Char('.') {
                on_to_empty(g, from, to)
            } else {
                to == from
            },
            GameKeys::GoRow => to == from,
            GameKeys::GoColumn { row } => if row > 0 && typed(key) is Some && typed(key)->0 > 0 {
                to == (row - 1) * 9 + (typed(key)->0 - 1)
            } else {
                to == from
            },
        }
    }

    /// Whether the key has the squares checked: the space bar always, a
    /// digit key if it leaves no square empty.
    pub open spec fn checks(self, key: Key, after: Grid) -> bool {
        self is Normal && (key == Key::Char(' ') || (typed(key) is Some && filled(after)))
    }

    /// Whether the key acts on the square under the cursor, so that
    /// [`GameKeys::handle_key`] wants a cursor for it.
    pub fn wants_cursor(&self, key: Key) -> (wanted: bool)
        ensures
            wanted == self.needs_cursor(key),
    {
        match self {
            Self::Normal => match key {
                Key::Backspace => true,
                Key::Char(char) => char == ',' || char == '.' || to_digit(char).is_some(),
                _ => false,
            },
            _ => false,
        }
    }

    /// Handles one key of a game.
    ///
    /// In the normal mode `h`, `j`, `k` and `l` move the cursor, `,` and `.`
    /// take it to the empty square before and after it, backspace and the
    /// digit keys write to the square under it, the space bar marks the
    /// squares whose digit occurs again in their row, column or box, and
    /// `g` begins a jump: the next digit is a row, the one after it a
    /// column, both counted from 1, and escape ends the jump.
    ///
    /// Returns what the next key means and whether the game is over: it is
    /// when a digit key has left no square empty and no digit occurs twice
    /// in a row, column or box. The marked squares are then left as they
    /// were.
    pub fn handle_key(self, tui: &mut Screen, puzzle: &mut Puzzle, key: Key) -> (next: (Self, bool))
        requires
            old(tui).wf(),
            self.wf(),
            self.needs_cursor(key) ==> old(tui).cursor_square_index is Some,
        ensures
            final(tui).wf(),
            next.0.wf(),
            next.0 == self.next_mode(key),
            final(puzzle).initially_filled == old(puzzle).initially_filled,
            final(puzzle)@ == self.grid_after(key, *old(puzzle), old(tui).cursor_square_index),
            old(puzzle).wf() ==> final(puzzle).wf(),
            match old(tui).cursor_square_index {
                Some(from) => final(tui).cursor_square_index matches Some(to) && self.cursor_after(
                    key,
                    old(puzzle)@,
                    from as int,
                    to as int,
                ),
                None => final(tui).cursor_square_index is None,
            },
            final(tui).invalid_squares@ == if self.checks(key, final(puzzle)@) && !next.1 {
                conflicts(final(puzzle)@)
            } else {
                old(tui).invalid_squares@
            },
            next.1 == (self is Normal && typed(key) is Some && filled(final(puzzle)@) && conflicts(
                final(puzzle)@,
            ) == Set::<usize>::empty()),
    {
        match self {
            Self::Normal => match key {
                Key::Char('h') => {
                    tui.move_cursor(Movement::Left);
                },
                Key::Char('j') => {
                    tui.move_cursor(Movement::Down);
                },
                Key::Char('k') => {
                    tui.move_cursor(Movement::Up);
                },
                Key::Char('l') => {
                    tui.move_cursor(Movement::Right);
                },
                Key::Backspace => {
                    puzzle.set(tui.cursor_square_index.unwrap(), None);
                },
                Key::Char(',') => {
                    let index = tui.cursor_square_index.unwrap();
                    if let Some(prev_index) = puzzle.prev_empty(index) {
                        let (row, column) = prev_index.div_rem(9);
                        tui.move_cursor(Movement::To { row, column });
                    }
                },
                Key::Char('.') => {
                    let index = tui.cursor_square_index.unwrap();
                    if let Some(next_index) = puzzle.next_empty(index) {
                        let (row, column) = next_index.div_rem(9);
                        tui.move_cursor(Movement::To { row, column });
                    }
                },
                Key::Char(' ') => {
                    match puzzle.validate() {
                        Err(invalid_squares) => {
                            tui.invalid_squares = invalid_squares;
                        },
                        Ok(()) => {
                            tui.invalid_squares.clear();
                        },
                    }
                },
                Key::Char('g') => {
                    return (Self::GoRow, false);
                },
                Key::Char(char) => {
                    if let Some(digit) = to_digit(char) {
                        let value = if digit == 0 {
                            None
                        } else {
                            Some(digit)
                        };
                        puzzle.set(tui.cursor_square_index.unwrap(), value);

                        if puzzle.is_filled_out() {
                            match puzzle.validate() {
                                Ok(()) => {
                                    return (Self::Normal, true);
                                },
                                Err(invalid_squares) => {
                                    tui.invalid_squares = invalid_squares;
                                },
                            }
                        }
                    }
                },
                _ => {},
            },
            Self::GoRow => match key {
                Key::Esc => {
                    return (Self::Normal, false);
                },
                Key::Char(char) => {
                    if let Some(digit) = to_digit(char) {
                        return (Self::GoColumn { row: digit as usize }, false);
                    }
                },
                _ => {},
            },
            Self::GoColumn { row } => match key {
                Key::Esc => {
                    return (Self::Normal, false);
                },
                Key::Char(char) => {
                    if let Some(digit) = to_digit(char) {
                        // We 1-index the g-<row>-<column> command, so g-0-<column> and
                        // g-<row>-0 are non-sensical.
                        if row > 0 && digit > 0 {
                            tui.move_cursor(
                                Movement::To { row: row - 1, column: digit as usize - 1 },
                            );
                        }
                        return (Self::Normal, false);
                    }
                },
                _ => {},
            },
        }
        (self, false)
    }
}

/// The digit that a character writes, if it is one of `0` to `9`.
pub fn to_digit(c: char) -> (d: Option<u8>)
    ensures
        d == digit_of(c),
{
    if '0' <= c && c <= '9' {
        Some(c as u8 - 48)
    } else {
        None
    }
}

} // verus!

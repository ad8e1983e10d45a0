//! The text forms of a grid: one line of 81 characters, and a block with
//! dividers.

use vstd::prelude::*;

use crate::rules::{digits_ok, in_grid, Grid};

verus! {

/// A character that stands for a square: a digit, or a period.
pub open spec fn is_square_char(c: char) -> bool {
    '0' <= c <= '9' || c == '.'
}

/// A line of 81 characters that each stand for a square.
pub open spec fn well_formed(text: Seq<char>) -> bool {
    text.len() == 81 && forall|i: int| 0 <= i < 81 ==> is_square_char(#[trigger] text[i])
}

/// The square that a character stands for: `0` and `.` both stand for an
/// empty square.
pub open spec fn square_of(c: char) -> Option<u8> {
    if '1' <= c <= '9' {
        Some((c as u8 - 48) as u8)
    } else {
        None
    }
}

/// The character that a one-line text has for a square: `0` for an empty
/// one.
pub open spec fn char_of(square: Option<u8>) -> char {
    match square {
        Some(d) => (d + 48) as char,
        None => '0',
    }
}

/// The grid that a text stands for.
pub open spec fn parsed(text: Seq<char>) -> Grid {
    Seq::new(81, |i: int| square_of(text[i]))
}

/// The one-line text of a grid.
pub open spec fn serialized(g: Grid) -> Seq<char> {
    Seq::new(81, |i: int| char_of(g[i]))
}

/// A text with each period replaced by `0`.
pub open spec fn normalize(text: Seq<char>) -> Seq<char> {
    Seq::new(text.len(), |i: int| if text[i] == '.' { '0' } else { text[i] })
}

/// The number of characters of the block form: 13 lines of 13 characters
/// and a line feed.
pub open spec fn block_len() -> nat {
    182
}

/// The character of the block form at a line and a column of it. Every
/// fourth line is a bar; in the other lines every fourth column is a
/// divider, and an empty square is a period.
pub open spec fn block_char(g: Grid, line: int, col: int) -> char {
    if col == 13 {
        '\n'
    } else if line % 4 == 0 {
        '-'
    } else if col % 4 == 0 {
        '|'
    } else {
        match g[(line - 1 - line / 4) * 9 + (col - 1 - col / 4)] {
            Some(d) => (d + 48) as char,
            None => '.',
        }
    }
}

/// The block form of a grid.
pub open spec fn block(g: Grid) -> Seq<char> {
    Seq::new(block_len(), |k: int| block_char(g, k / 14, k % 14))
}

/// A text has at most as many characters as its UTF-8 form has bytes.
pub(crate) proof fn lemma_chars_within_bytes(text: Seq<char>)
    ensures
        text.len() <= vstd::utf8::encode_utf8(text).len(),
    decreases text.len(),
{
    if text.len() > 0 {
        lemma_chars_within_bytes(text.drop_first());
    }
}

/// A well-formed text has one byte for each character.
pub(crate) proof fn lemma_well_formed_bytes(text: Seq<char>)
    requires
        forall|i: int| 0 <= i < text.len() ==> is_square_char(#[trigger] text[i]),
    ensures
        vstd::utf8::encode_utf8(text).len() == text.len(),
{
    vstd::utf8::is_ascii_chars_encode_utf8(text);
}

/// The text of a grid read back gives the grid: writing a well-formed text's
/// grid gives the text with `0` for each period.
pub proof fn lemma_serialize_parse(text: Seq<char>)
    requires
        well_formed(text),
    ensures
        serialized(parsed(text)) == normalize(text),
        digits_ok(parsed(text)),
        well_formed(serialized(parsed(text))),
        parsed(serialized(parsed(text))) == parsed(text),
{
    let g = parsed(text);
    assert forall|i: int| in_grid(i) implies match #[trigger] g[i] {
        Some(d) => 1 <= d <= 9,
        None => true,
    } by {}
}

/// A grid of digits 1 to 9 is read back from its text unchanged.
pub proof fn lemma_parse_serialize(g: Grid)
    requires
        g.len() == 81,
        digits_ok(g),
    ensures
        well_formed(serialized(g)),
        parsed(serialized(g)) == g,
{
    let text = serialized(g);
    assert forall|i: int| 0 <= i < 81 implies is_square_char(#[trigger] text[i]) by {
        assert(match g[i] {
            Some(d) => 1 <= d <= 9,
            None => true,
        });
    }
    assert forall|i: int| 0 <= i < 81 implies #[trigger] parsed(text)[i] == g[i] by {
        assert(match g[i] {
            Some(d) => 1 <= d <= 9,
            None => true,
        });
    }
}

} // verus!

//! The rules of the game, stated over a grid as a sequence of 81 optional
//! digits in row-major order.

use vstd::prelude::*;

verus! {

/// A grid as the rules see it: square `row * 9 + column` holds a digit or
/// nothing.
pub type Grid = Seq<Option<u8>>;

/// Whether `idx` names a square.
pub open spec fn in_grid(idx: int) -> bool {
    0 <= idx < 81
}

/// The row of a square.
pub open spec fn row_of(idx: int) -> int {
    idx / 9
}

/// The column of a square.
pub open spec fn col_of(idx: int) -> int {
    idx % 9
}

/// The 3×3 box of a square.
pub open spec fn box_of(idx: int) -> int {
    (row_of(idx) / 3) * 3 + col_of(idx) / 3
}

/// Two different squares belong to a common row, column or box.
pub open spec fn peers(i: int, j: int) -> bool {
    &&& in_grid(i)
    &&& in_grid(j)
    &&& i != j
    &&& (row_of(i) == row_of(j) || col_of(i) == col_of(j) || box_of(i) == box_of(j))
}

/// Two different squares hold the same digit.
pub open spec fn clash(g: Grid, i: int, j: int) -> bool {
    i != j && g[i] is Some && g[i] == g[j]
}

/// Square `idx` lies in the rows from `row0` up to `row1` and in the columns
/// from `col0` up to `col1`, the upper ends left out.
pub open spec fn in_region(idx: int, row0: int, row1: int, col0: int, col1: int) -> bool {
    row0 <= row_of(idx) < row1 && col0 <= col_of(idx) < col1
}

/// No digit occurs twice among the squares of a region of rows and columns.
pub open spec fn region_ok(g: Grid, row0: int, row1: int, col0: int, col1: int) -> bool {
    forall|i: int, j: int|
        in_grid(i) && in_grid(j) && in_region(i, row0, row1, col0, col1) && in_region(
            j,
            row0,
            row1,
            col0,
            col1,
        ) ==> !#[trigger] clash(g, i, j)
}

/// No digit occurs twice in row `row`.
pub open spec fn row_ok(g: Grid, row: int) -> bool {
    region_ok(g, row, row + 1, 0, 9)
}

/// No digit occurs twice in column `col`.
pub open spec fn col_ok(g: Grid, col: int) -> bool {
    region_ok(g, 0, 9, col, col + 1)
}

/// No digit occurs twice in box `bx`: the boxes are counted row by row, three
/// to a row.
pub open spec fn box_ok(g: Grid, bx: int) -> bool {
    region_ok(g, bx / 3 * 3, bx / 3 * 3 + 3, bx % 3 * 3, bx % 3 * 3 + 3)
}

/// The row, the column and the box of square `idx` each hold no digit twice.
/// A square outside the grid is never valid.
pub open spec fn valid_at(g: Grid, idx: int) -> bool {
    &&& in_grid(idx)
    &&& row_ok(g, row_of(idx))
    &&& col_ok(g, col_of(idx))
    &&& box_ok(g, box_of(idx))
}

/// Square `idx` passes the check of a square: it is a square of the grid,
/// and it is empty or its row, its column and its box each hold no digit
/// twice.
pub open spec fn passes(g: Grid, idx: int) -> bool {
    in_grid(idx) && (g[idx] is None || valid_at(g, idx))
}

/// The digit of square `idx` occurs again in its row, column or box.
pub open spec fn in_conflict(g: Grid, idx: int) -> bool {
    exists|j: int| peers(idx, j) && #[trigger] clash(g, idx, j)
}

/// The squares whose digit occurs again in their row, column or box.
pub open spec fn conflicts(g: Grid) -> Set<usize> {
    Set::new(|idx: usize| in_grid(idx as int) && in_conflict(g, idx as int))
}

/// Every square holds a digit.
pub open spec fn filled(g: Grid) -> bool {
    forall|i: int| in_grid(i) ==> (#[trigger] g[i]) is Some
}

/// Every digit is one of 1 to 9.
pub open spec fn digits_ok(g: Grid) -> bool {
    forall|i: int| in_grid(i) ==> match #[trigger] g[i] {
        Some(d) => 1 <= d <= 9,
        None => true,
    }
}

/// The digit of a square as a number, 0 for an empty square.
pub open spec fn digit(value: Option<u8>) -> int {
    match value {
        Some(d) => d as int,
        None => 0,
    }
}

/// `s` keeps every digit of `g`.
pub open spec fn extends(s: Grid, g: Grid) -> bool {
    &&& s.len() == 81
    &&& g.len() == 81
    &&& forall|i: int| in_grid(i) && (#[trigger] g[i]) is Some ==> s[i] == g[i]
}

/// `s` is `g` with every empty square filled, such that each square that was
/// empty in `g` is valid in `s`.
pub open spec fn completes(s: Grid, g: Grid) -> bool {
    &&& extends(s, g)
    &&& filled(s)
    &&& digits_ok(s)
    &&& forall|i: int| in_grid(i) && (#[trigger] g[i]) is None ==> valid_at(s, i)
}

/// Every square holds a digit from 1 to 9 and is valid.
pub open spec fn solved(g: Grid) -> bool {
    &&& g.len() == 81
    &&& filled(g)
    &&& digits_ok(g)
    &&& forall|i: int| in_grid(i) ==> #[trigger] valid_at(g, i)
}

/// `a` and `b` hold the same in every square before `idx`.
pub open spec fn agree_before(a: Grid, b: Grid, idx: int) -> bool {
    forall|i: int| 0 <= i < idx ==> #[trigger] a[i] == b[i]
}

/// `a` comes no later than `b` when grids are ordered square by square,
/// the first square counting most: at the first square where they part, `a`
/// has the smaller digit.
pub open spec fn no_later(a: Grid, b: Grid) -> bool {
    forall|idx: int|
        in_grid(idx) && agree_before(a, b, idx) ==> digit(#[trigger] a[idx]) <= digit(b[idx])
}

/// The squares of a box are those of three rows and three columns, and the
/// squares of a row or a column those of one row or column.
pub proof fn lemma_groups(idx: int, other: int)
    requires
        in_grid(idx),
        in_grid(other),
    ensures
        row_of(other) == row_of(idx) <==> in_region(other, row_of(idx), row_of(idx) + 1, 0, 9),
        col_of(other) == col_of(idx) <==> in_region(other, 0, 9, col_of(idx), col_of(idx) + 1),
        box_of(other) == box_of(idx) <==> in_region(
            other,
            box_of(idx) / 3 * 3,
            box_of(idx) / 3 * 3 + 3,
            box_of(idx) % 3 * 3,
            box_of(idx) % 3 * 3 + 3,
        ),
{
}

/// A digit that occurs twice in a region still does so in every grid that
/// keeps the digits.
proof fn lemma_region_stays(s: Grid, g: Grid, row0: int, row1: int, col0: int, col1: int)
    requires
        extends(s, g),
        !region_ok(g, row0, row1, col0, col1),
    ensures
        !region_ok(s, row0, row1, col0, col1),
{
    let (i, j) = choose|i: int, j: int|
        in_grid(i) && in_grid(j) && in_region(i, row0, row1, col0, col1) && in_region(
            j,
            row0,
            row1,
            col0,
            col1,
        ) && #[trigger] clash(g, i, j);
    assert(clash(s, i, j));
}

/// A square that is not valid in a grid is not valid in any grid that keeps
/// the digits.
pub proof fn lemma_invalid_stays(s: Grid, g: Grid, idx: int)
    requires
        extends(s, g),
        in_grid(idx),
        !valid_at(g, idx),
    ensures
        !valid_at(s, idx),
{
    let row = row_of(idx);
    let col = col_of(idx);
    let bx = box_of(idx);
    if !row_ok(g, row) {
        lemma_region_stays(s, g, row, row + 1, 0, 9);
    } else if !col_ok(g, col) {
        lemma_region_stays(s, g, 0, 9, col, col + 1);
    } else {
        lemma_region_stays(s, g, bx / 3 * 3, bx / 3 * 3 + 3, bx % 3 * 3, bx % 3 * 3 + 3);
    }
}

/// A square whose digit occurs again in its row, column or box does not
/// pass the check.
pub proof fn lemma_conflict_invalid(g: Grid, idx: int)
    requires
        in_conflict(g, idx),
    ensures
        !valid_at(g, idx),
        !passes(g, idx),
{
}

/// An empty square passes the check. A square with a digit, whose row,
/// column and box hold no digit twice once the square is cleared, passes
/// exactly if its digit does not occur again in its row, column or box.
pub proof fn lemma_valid_iff_no_conflict(g: Grid, idx: int)
    requires
        g.len() == 81,
        in_grid(idx),
        g[idx] is Some ==> valid_at(g.update(idx, None), idx),
    ensures
        passes(g, idx) <==> !in_conflict(g, idx),
{
    let cleared = g.update(idx, None);
    if in_conflict(g, idx) {
        lemma_conflict_invalid(g, idx);
    }
    if g[idx] is Some && !valid_at(g, idx) {
        let row = row_of(idx);
        let col = col_of(idx);
        let bx = box_of(idx);
        let (row0, row1, col0, col1) = if !row_ok(g, row) {
            (row, row + 1, 0int, 9int)
        } else if !col_ok(g, col) {
            (0int, 9int, col, col + 1)
        } else {
            (bx / 3 * 3, bx / 3 * 3 + 3, bx % 3 * 3, bx % 3 * 3 + 3)
        };
        let (i, j) = choose|i: int, j: int|
            in_grid(i) && in_grid(j) && in_region(i, row0, row1, col0, col1) && in_region(
                j,
                row0,
                row1,
                col0,
                col1,
            ) && #[trigger] clash(g, i, j);
        assert(!clash(cleared, i, j));
        if i != idx {
            assert(peers(idx, i) && clash(g, idx, i));
        }
    }
}

/// A solved grid that keeps the digits of a puzzle completes the puzzle; and
/// where a puzzle has such a grid, every grid that completes the puzzle is
/// solved: the rows, columns and boxes that were full from the start hold
/// no digit twice either.
pub proof fn lemma_completion_solved(fin: Grid, start: Grid, s: Grid)
    requires
        solved(s),
        extends(s, start),
    ensures
        completes(s, start),
        completes(fin, start) ==> solved(fin),
{
    if completes(fin, start) {
        assert forall|i: int| in_grid(i) implies #[trigger] valid_at(fin, i) by {
            let row = row_of(i);
            let col = col_of(i);
            let bx = box_of(i);
            assert(valid_at(s, i));
            lemma_region_completed(fin, start, s, row, row + 1, 0, 9);
            lemma_region_completed(fin, start, s, 0, 9, col, col + 1);
            lemma_region_completed(
                fin,
                start,
                s,
                bx / 3 * 3,
                bx / 3 * 3 + 3,
                bx % 3 * 3,
                bx % 3 * 3 + 3,
            );
        }
    }
}

/// A region of a row, a column or a box that holds no digit twice in one
/// grid that keeps a puzzle's digits holds none twice in any grid that
/// completes the puzzle.
proof fn lemma_region_completed(
    fin: Grid,
    start: Grid,
    s: Grid,
    row0: int,
    row1: int,
    col0: int,
    col1: int,
)
    requires
        completes(fin, start),
        extends(s, start),
        region_ok(s, row0, row1, col0, col1),
        row0 + 1 == row1 && col0 == 0 && col1 == 9 || row0 == 0 && row1 == 9 && col0 + 1 == col1
            || row0 % 3 == 0 && row1 == row0 + 3 && col0 % 3 == 0 && col1 == col0 + 3,
    ensures
        region_ok(fin, row0, row1, col0, col1),
{
    if !(exists|e: int|
        in_grid(e) && in_region(e, row0, row1, col0, col1) && (#[trigger] start[e]) is None) {
        assert forall|i: int, j: int|
            in_grid(i) && in_grid(j) && in_region(i, row0, row1, col0, col1) && in_region(
                j,
                row0,
                row1,
                col0,
                col1,
            ) implies !#[trigger] clash(fin, i, j) by {
            assert(start[i] is Some);
            assert(start[j] is Some);
            assert(!clash(s, i, j));
        }
    }
}

} // verus!

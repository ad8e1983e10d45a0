//! The plain solution: a puzzle, its counters, and the check of a square.

use std::collections::HashSet;
use std::ops::Range;

use vstd::prelude::*;

use crate::metrics::{bump, counted, edits_of, views_of, Metrics};
use crate::puzzle::Puzzle;
use crate::rules::{
    clash, col_of, col_ok, in_grid, in_region, passes, region_ok, row_of, row_ok, Grid,
};
use crate::solution::Solution;
use crate::util::DivRem;
use crate::PUZZLE_DIGITS;

verus! {

/// The base solution that is used by other [`Solution`] implementors.
///
/// [`BaseSolution`] is itself a [`Solution`] as well. Its implementation of
/// which is trivial. It is used when no special behavior is needed when finding
/// a solution to a puzzle.
pub struct BaseSolution {
    pub puzzle: Puzzle,
    /// The counters of the reads and writes of each square, where they are
    /// counted.
    pub metrics: Option<Metrics>,
}

impl BaseSolution {
    /// How often each square was written; no counters where writes are not
    /// counted.
    pub open spec fn edits(&self) -> Seq<u64> {
        edits_of(self.metrics)
    }

    /// How often each square was read; no counters where reads are not
    /// counted.
    pub open spec fn views(&self) -> Seq<u64> {
        views_of(self.metrics)
    }

    /// There is one counter of each kind for each square, or none.
    pub proof fn lemma_counters(&self)
        ensures
            self.edits().len() == if self.metrics is Some { 81nat } else { 0nat },
            self.views().len() == if self.metrics is Some { 81nat } else { 0nat },
    {
        if self.metrics is Some {
            self.metrics->0.lemma_lengths();
        }
    }

    /// A solution that counts neither reads nor writes.
    pub fn new(puzzle: Puzzle) -> (solution: Self)
        ensures
            solution.puzzle == puzzle,
            solution.metrics is None,
    {
        Self { puzzle, metrics: None }
    }

    /// A solution that counts the reads and the writes of each square in
    /// `metrics`.
    pub fn with_metrics(puzzle: Puzzle, metrics: Metrics) -> (solution: Self)
        ensures
            solution.puzzle == puzzle,
            solution.metrics == Some(metrics),
    {
        Self { puzzle, metrics: Some(metrics) }
    }

    /// Reads square `idx`, and counts the read.
    pub fn get(&mut self, idx: usize) -> (value: Option<u8>)
        requires
            idx < PUZZLE_DIGITS,
        ensures
            value == old(self).puzzle@[idx as int],
            final(self).puzzle == old(self).puzzle,
            (final(self).metrics is Some) == (old(self).metrics is Some),
            final(self).edits() == old(self).edits(),
            final(self).views() == counted(old(self).views(), idx as int),
    {
        if let Some(metrics) = &mut self.metrics {
            proof {
                metrics.lemma_lengths();
            }
            metrics.record_view(idx);
        }
        self.puzzle.get(idx)
    }

    /// Writes square `idx` as [`Puzzle::set`] does, and counts the write.
    pub fn set(&mut self, idx: usize, value: Option<u8>)
        requires
            idx < PUZZLE_DIGITS,
            value matches Some(d) ==> 1 <= d <= 9,
        ensures
            final(self).puzzle.initially_filled == old(self).puzzle.initially_filled,
            final(self).puzzle@ == old(self).puzzle.after_set(idx as int, value),
            old(self).puzzle.wf() ==> final(self).puzzle.wf(),
            (final(self).metrics is Some) == (old(self).metrics is Some),
            final(self).views() == old(self).views(),
            final(self).edits() == counted(old(self).edits(), idx as int),
    {
        if let Some(metrics) = &mut self.metrics {
            metrics.record_edit(idx);
        }
        self.puzzle.set(idx, value);
    }

    /// Every square with its index, in row-major order. Each square is
    /// counted as read once.
    pub fn iter_puzzle(&mut self) -> (squares: Vec<(usize, Option<u8>)>)
        ensures
            squares@.len() == PUZZLE_DIGITS,
            forall|i: int|
                in_grid(i) ==> #[trigger] squares@[i] == (i as usize, old(self).puzzle@[i]),
            final(self).puzzle == old(self).puzzle,
            (final(self).metrics is Some) == (old(self).metrics is Some),
            final(self).edits() == old(self).edits(),
            final(self).views().len() == old(self).views().len(),
            forall|i: int|
                0 <= i < old(self).views().len() ==> #[trigger] final(self).views()[i] == bump(
                    old(self).views()[i],
                ),
    {
        let mut squares: Vec<(usize, Option<u8>)> = Vec::new();
        proof {
            if self.metrics is Some {
                self.metrics->0.lemma_lengths();
            }
        }
        for idx in 0..PUZZLE_DIGITS
            invariant
                self.puzzle == old(self).puzzle,
                (self.metrics is Some) == (old(self).metrics is Some),
                self.edits() == old(self).edits(),
                self.views().len() == old(self).views().len(),
                self.metrics is Some ==> self.views().len() == PUZZLE_DIGITS,
                squares@.len() == idx,
                forall|i: int|
                    0 <= i < idx ==> #[trigger] squares@[i] == (i as usize, self.puzzle@[i]),
                forall|i: int|
                    0 <= i < idx && i < self.views().len() ==> #[trigger] self.views()[i] == bump(
                        old(self).views()[i],
                    ),
                forall|i: int|
                    idx <= i < self.views().len() ==> #[trigger] self.views()[i] == old(
                        self,
                    ).views()[i],
        {
            let value = self.get(idx);
            squares.push((idx, value));
        }
        squares
    }

    /// Whether square `idx` passes the check: an empty square does, and a
    /// square with a digit does if its row, its column and its box each
    /// hold no digit twice. A square outside the puzzle does not. The puzzle
    /// is left as it was, so the answer holds of it after the call too, and
    /// asking again gives the same answer. Each square that is looked at is
    /// counted as read.
    pub fn is_valid_digit(&mut self, idx: usize) -> (valid: bool)
        ensures
            valid == passes(old(self).puzzle@, idx as int),
            valid == passes(final(self).puzzle@, idx as int),
            final(self).puzzle == old(self).puzzle,
            (final(self).metrics is Some) == (old(self).metrics is Some),
            final(self).edits() == old(self).edits(),
            final(self).views() == check_reads(old(self).views(), old(self).puzzle@, idx as int),
    {
        if idx >= PUZZLE_DIGITS {
            return false;
        }
        if self.get(idx).is_none() {
            return true;
        }
        let (row, col) = idx.div_rem(9);
        let (rowr, colr) = box_ranges(row, col);

        // Per the rules of Sudoku, every square must have a unique value among its row,
        // column, and box.
        self.is_valid_row(row) && self.is_valid_col(col) && self.is_valid_box(rowr, colr)
    }

    fn is_valid_row(&mut self, row: usize) -> (valid: bool)
        requires
            row < 9,
        ensures
            valid == row_ok(old(self).puzzle@, row as int),
            final(self).puzzle == old(self).puzzle,
            (final(self).metrics is Some) == (old(self).metrics is Some),
            final(self).edits() == old(self).edits(),
            final(self).views() == scan_reads(
                old(self).views(),
                old(self).puzzle@,
                row as int,
                row + 1,
                0,
                9,
            ),
    {
        self.is_valid_box(row..row + 1, 0..9)
    }

    fn is_valid_col(&mut self, col: usize) -> (valid: bool)
        requires
            col < 9,
        ensures
            valid == col_ok(old(self).puzzle@, col as int),
            final(self).puzzle == old(self).puzzle,
            (final(self).metrics is Some) == (old(self).metrics is Some),
            final(self).edits() == old(self).edits(),
            final(self).views() == scan_reads(
                old(self).views(),
                old(self).puzzle@,
                0,
                9,
                col as int,
                col + 1,
            ),
    {
        self.is_valid_box(0..9, col..col + 1)
    }

    /// Whether no digit occurs twice among the squares of the rows `rowr`
    /// and the columns `colr`.
    fn is_valid_box(&mut self, rowr: Range<usize>, colr: Range<usize>) -> (valid: bool)
        requires
            rowr.start <= rowr.end <= 9,
            colr.start <= colr.end <= 9,
        ensures
            valid == region_ok(
                old(self).puzzle@,
                rowr.start as int,
                rowr.end as int,
                colr.start as int,
                colr.end as int,
            ),
            final(self).puzzle == old(self).puzzle,
            (final(self).metrics is Some) == (old(self).metrics is Some),
            final(self).edits() == old(self).edits(),
            final(self).views() == scan_reads(
                old(self).views(),
                old(self).puzzle@,
                rowr.start as int,
                rowr.end as int,
                colr.start as int,
                colr.end as int,
            ),
    {
        broadcast use vstd::std_specs::hash::group_hash_axioms;

        proof {
            self.lemma_counters();
        }
        let ghost row0 = rowr.start as int;
        let ghost row1 = rowr.end as int;
        let ghost col0 = colr.start as int;
        let ghost col1 = colr.end as int;
        let ghost mut cells: Seq<int> = Seq::empty();
        let mut seen: HashSet<u8> = HashSet::new();
        let mut row = rowr.start;
        while row < rowr.end
            invariant
                rowr.start <= row <= rowr.end <= 9,
                colr.start <= colr.end <= 9,
                row0 == rowr.start,
                row1 == rowr.end,
                col0 == colr.start,
                col1 == colr.end,
                self.puzzle == old(self).puzzle,
                (self.metrics is Some) == (old(self).metrics is Some),
                self.edits() == old(self).edits(),
                old(self).views().len() == 0 || old(self).views().len() == 81,
                self.views() == reads_so_far(
                    old(self).views(),
                    row0,
                    row1,
                    col0,
                    col1,
                    row as int,
                    col0,
                ),
                scanned(cells, row0, row1, col0, col1, row as int, col0),
                seen@ == digits_among(self.puzzle@, cells),
                distinct_among(self.puzzle@, cells),
            decreases rowr.end - row,
        {
            let mut col = colr.start;
            while col < colr.end
                invariant
                    rowr.start <= row < rowr.end <= 9,
                    colr.start <= col <= colr.end <= 9,
                    row0 == rowr.start,
                    row1 == rowr.end,
                    col0 == colr.start,
                    col1 == colr.end,
                    self.puzzle == old(self).puzzle,
                    (self.metrics is Some) == (old(self).metrics is Some),
                    self.edits() == old(self).edits(),
                    old(self).views().len() == 0 || old(self).views().len() == 81,
                    self.views() == reads_so_far(
                        old(self).views(),
                        row0,
                        row1,
                        col0,
                        col1,
                        row as int,
                        col as int,
                    ),
                    scanned(cells, row0, row1, col0, col1, row as int, col as int),
                    seen@ == digits_among(self.puzzle@, cells),
                    distinct_among(self.puzzle@, cells),
                decreases colr.end - col,
            {
                let idx = row * 9 + col;
                let ghost scanned_before = cells;
                proof {
                    lemma_scan_step(self.puzzle@, cells, row0, row1, col0, col1, idx as int);
                    lemma_reads_step(old(self).views(), row0, row1, col0, col1, idx as int);
                    cells = cells.push(idx as int);
                }
                if let Some(digit) = self.get(idx) {
                    if !seen.insert(digit) {
                        proof {
                            lemma_scan_clash(self.puzzle@, cells, row0, row1, col0, col1);
                            lemma_reads_at_clash(
                                old(self).views(),
                                self.puzzle@,
                                scanned_before,
                                row0,
                                row1,
                                col0,
                                col1,
                                idx as int,
                            );
                        }
                        return false;
                    }
                }
                col += 1;
            }
            row += 1;
        }
        proof {
            lemma_scan_done(self.puzzle@, cells, row0, row1, col0, col1);
            lemma_reads_at_end(old(self).views(), self.puzzle@, row0, row1, col0, col1);
        }
        true
    }
}

impl Solution for BaseSolution {
    open spec fn puzzle(&self) -> Puzzle {
        self.puzzle
    }

    open spec fn metrics(&self) -> Option<Metrics> {
        self.metrics
    }

    /// No write of a plain solution reports an error.
    open spec fn failed(&self) -> bool {
        false
    }

    /// Writes the square and counts the write; this never fails.
    fn set(&mut self, index: usize, value: Option<u8>) -> (result: Result<(), anyhow::Error>) {
        self.set(index, value);
        Ok(())
    }

    /// The solution itself.
    fn base(&mut self) -> (base: &mut BaseSolution)
        ensures
            *base == *old(self),
            *final(self) == *final(base),
    {
        self
    }
}

/// For the box which the given `row` and `col` lie within, return a tuple of
/// the (row range, column range) which describes that box.
fn box_ranges(row: usize, col: usize) -> (ranges: (Range<usize>, Range<usize>))
    requires
        row < 9,
        col < 9,
    ensures
        ranges.0.start == row / 3 * 3,
        ranges.0.end == row / 3 * 3 + 3,
        ranges.1.start == col / 3 * 3,
        ranges.1.end == col / 3 * 3 + 3,
{
    let rows = if row < 3 {
        0..3
    } else if row < 6 {
        3..6
    } else {
        6..9
    };
    let cols = if col < 3 {
        0..3
    } else if col < 6 {
        3..6
    } else {
        6..9
    };
    (rows, cols)
}

/// A scan of a region, which reads its squares in row-major order until a
/// digit occurs a second time, reaches square `idx`: the squares of the
/// region before `idx` hold no digit twice.
pub open spec fn reached(g: Grid, row0: int, row1: int, col0: int, col1: int, idx: int) -> bool {
    forall|i: int, j: int|
        in_grid(i) && in_grid(j) && in_region(i, row0, row1, col0, col1) && in_region(
            j,
            row0,
            row1,
            col0,
            col1,
        ) && before(i, row_of(idx), col_of(idx)) && before(j, row_of(idx), col_of(idx))
            ==> !#[trigger] clash(g, i, j)
}

/// The read counters after a scan of a region: one more read of each square
/// that the scan reaches.
pub open spec fn scan_reads(
    views: Seq<u64>,
    g: Grid,
    row0: int,
    row1: int,
    col0: int,
    col1: int,
) -> Seq<u64> {
    Seq::new(
        views.len(),
        |idx: int|
            if in_grid(idx) && in_region(idx, row0, row1, col0, col1) && reached(
                g,
                row0,
                row1,
                col0,
                col1,
                idx,
            ) {
                bump(views[idx])
            } else {
                views[idx]
            },
    )
}

/// The read counters after the check of square `idx`: the square is read;
/// if it holds a digit its row is scanned, then its column if the row holds
/// no digit twice, then its box if the column holds none twice either. The
/// check of a square outside the grid reads nothing.
pub open spec fn check_reads(views: Seq<u64>, g: Grid, idx: int) -> Seq<u64> {
    let row = row_of(idx);
    let col = col_of(idx);
    let after_square = counted(views, idx);
    let after_row = scan_reads(after_square, g, row, row + 1, 0, 9);
    let after_col = scan_reads(after_row, g, 0, 9, col, col + 1);
    if !in_grid(idx) {
        views
    } else if g[idx] is None {
        after_square
    } else if !row_ok(g, row) {
        after_row
    } else if !col_ok(g, col) {
        after_col
    } else {
        scan_reads(after_col, g, row / 3 * 3, row / 3 * 3 + 3, col / 3 * 3, col / 3 * 3 + 3)
    }
}

/// The read counters in the midst of a scan of a region that stands at row
/// `row` and column `col`: one more read of each square before that place.
pub open spec fn reads_so_far(
    views: Seq<u64>,
    row0: int,
    row1: int,
    col0: int,
    col1: int,
    row: int,
    col: int,
) -> Seq<u64> {
    Seq::new(
        views.len(),
        |idx: int|
            if in_grid(idx) && in_region(idx, row0, row1, col0, col1) && before(idx, row, col) {
                bump(views[idx])
            } else {
                views[idx]
            },
    )
}

/// No two of the squares `cells` hold the same digit.
pub open spec fn distinct_among(g: Grid, cells: Seq<int>) -> bool {
    forall|a: int, b: int|
        0 <= a < cells.len() && 0 <= b < cells.len() ==> !#[trigger] clash(g, cells[a], cells[b])
}

/// The digits that the squares `cells` hold.
pub open spec fn digits_among(g: Grid, cells: Seq<int>) -> Set<u8> {
    Set::new(|d: u8| exists|a: int| 0 <= a < cells.len() && #[trigger] g[cells[a]] == Some(d))
}

/// Square `idx` comes before the square of row `row` and column `col` in
/// row-major order.
pub open spec fn before(idx: int, row: int, col: int) -> bool {
    row_of(idx) < row || (row_of(idx) == row && col_of(idx) < col)
}

/// `cells` are the squares of a region that come before the square of row
/// `row` and column `col`.
pub open spec fn scanned(
    cells: Seq<int>,
    row0: int,
    row1: int,
    col0: int,
    col1: int,
    row: int,
    col: int,
) -> bool {
    &&& forall|a: int|
        0 <= a < cells.len() ==> {
            &&& in_grid(#[trigger] cells[a])
            &&& in_region(cells[a], row0, row1, col0, col1)
            &&& before(cells[a], row, col)
        }
    &&& forall|i: int|
        in_grid(i) && in_region(i, row0, row1, col0, col1) && before(i, row, col)
            ==> #[trigger] cells.contains(i)
}

/// The next square of a region joins the squares scanned so far: its digit
/// is new to them exactly if they stay free of clashes, and the scan stands
/// at the square after it, in the same row or at the start of the next.
proof fn lemma_scan_step(
    g: Grid,
    cells: Seq<int>,
    row0: int,
    row1: int,
    col0: int,
    col1: int,
    idx: int,
)
    requires
        in_grid(idx),
        in_region(idx, row0, row1, col0, col1),
        0 <= col0 <= col1 <= 9,
        scanned(cells, row0, row1, col0, col1, row_of(idx), col_of(idx)),
        distinct_among(g, cells),
    ensures
        scanned(cells.push(idx), row0, row1, col0, col1, row_of(idx), col_of(idx) + 1),
        col_of(idx) + 1 == col1 ==> scanned(
            cells.push(idx),
            row0,
            row1,
            col0,
            col1,
            row_of(idx) + 1,
            col0,
        ),
        match g[idx] {
            Some(d) => {
                &&& digits_among(g, cells.push(idx)) == digits_among(g, cells).insert(d)
                &&& distinct_among(g, cells.push(idx)) == !digits_among(g, cells).contains(d)
            },
            None => {
                &&& digits_among(g, cells.push(idx)) == digits_among(g, cells)
                &&& distinct_among(g, cells.push(idx))
            },
        },
{
    let more = cells.push(idx);
    let n = cells.len() as int;
    assert(more[n] == idx);
    assert forall|a: int| 0 <= a < n implies more[a] == cells[a] by {}
    assert forall|i: int|
        in_grid(i) && in_region(i, row0, row1, col0, col1) && before(
            i,
            row_of(idx),
            col_of(idx) + 1,
        ) implies #[trigger] more.contains(i) by {
        if i != idx {
            assert(cells.contains(i));
        }
    }
    match g[idx] {
        Some(d) => {
            if digits_among(g, cells).contains(d) {
                let a = choose|a: int| 0 <= a < n && #[trigger] g[cells[a]] == Some(d);
                assert(clash(g, more[a], more[n]));
            }
        },
        None => {
        },
    }
}

/// A clash among squares of a region is a clash in the region.
proof fn lemma_scan_clash(g: Grid, cells: Seq<int>, row0: int, row1: int, col0: int, col1: int)
    requires
        forall|a: int|
            0 <= a < cells.len() ==> in_grid(#[trigger] cells[a]) && in_region(
                cells[a],
                row0,
                row1,
                col0,
                col1,
            ),
        !distinct_among(g, cells),
    ensures
        !region_ok(g, row0, row1, col0, col1),
{
}

/// Squares without a clash that make up a whole region leave the region
/// without one.
proof fn lemma_scan_done(g: Grid, cells: Seq<int>, row0: int, row1: int, col0: int, col1: int)
    requires
        forall|i: int|
            in_grid(i) && in_region(i, row0, row1, col0, col1) ==> #[trigger] cells.contains(i),
        distinct_among(g, cells),
    ensures
        region_ok(g, row0, row1, col0, col1),
{
    assert forall|i: int, j: int|
        in_grid(i) && in_grid(j) && in_region(i, row0, row1, col0, col1) && in_region(
            j,
            row0,
            row1,
            col0,
            col1,
        ) implies !#[trigger] clash(g, i, j) by {
        assert(cells.contains(i));
        assert(cells.contains(j));
    }
}

/// Reading the square at which a scan stands takes the scan one square on,
/// in the same row or to the start of the next.
proof fn lemma_reads_step(views: Seq<u64>, row0: int, row1: int, col0: int, col1: int, idx: int)
    requires
        in_grid(idx),
        in_region(idx, row0, row1, col0, col1),
        0 <= col0 <= col1 <= 9,
        views.len() == 0 || views.len() == 81,
    ensures
        counted(reads_so_far(views, row0, row1, col0, col1, row_of(idx), col_of(idx)), idx)
            == reads_so_far(views, row0, row1, col0, col1, row_of(idx), col_of(idx) + 1),
        col_of(idx) + 1 == col1 ==> reads_so_far(
            views,
            row0,
            row1,
            col0,
            col1,
            row_of(idx),
            col_of(idx) + 1,
        ) == reads_so_far(views, row0, row1, col0, col1, row_of(idx) + 1, col0),
{
}

/// A scan that finds the digit of square `idx` among the squares before it
/// has read those squares and `idx`, and no other.
proof fn lemma_reads_at_clash(
    views: Seq<u64>,
    g: Grid,
    cells: Seq<int>,
    row0: int,
    row1: int,
    col0: int,
    col1: int,
    idx: int,
)
    requires
        in_grid(idx),
        in_region(idx, row0, row1, col0, col1),
        scanned(cells, row0, row1, col0, col1, row_of(idx), col_of(idx)),
        distinct_among(g, cells),
        !distinct_among(g, cells.push(idx)),
    ensures
        reads_so_far(views, row0, row1, col0, col1, row_of(idx), col_of(idx) + 1) == scan_reads(
            views,
            g,
            row0,
            row1,
            col0,
            col1,
        ),
{
    assert forall|c: int|
        in_grid(c) && in_region(c, row0, row1, col0, col1) implies before(
            c,
            row_of(idx),
            col_of(idx) + 1,
        ) == reached(g, row0, row1, col0, col1, c) by {
        if before(c, row_of(idx), col_of(idx) + 1) {
            assert forall|i: int, j: int|
                in_grid(i) && in_grid(j) && in_region(i, row0, row1, col0, col1) && in_region(
                    j,
                    row0,
                    row1,
                    col0,
                    col1,
                ) && before(i, row_of(c), col_of(c)) && before(
                    j,
                    row_of(c),
                    col_of(c),
                ) implies !#[trigger] clash(g, i, j) by {
                assert(cells.contains(i));
                assert(cells.contains(j));
            }
        }
    }
    assert(reads_so_far(views, row0, row1, col0, col1, row_of(idx), col_of(idx) + 1) =~= scan_reads(
        views,
        g,
        row0,
        row1,
        col0,
        col1,
    ));
}

/// A scan of a region that holds no digit twice has read each of its
/// squares.
proof fn lemma_reads_at_end(views: Seq<u64>, g: Grid, row0: int, row1: int, col0: int, col1: int)
    requires
        region_ok(g, row0, row1, col0, col1),
    ensures
        reads_so_far(views, row0, row1, col0, col1, row1, col0) == scan_reads(
            views,
            g,
            row0,
            row1,
            col0,
            col1,
        ),
{
    assert forall|c: int|
        in_grid(c) && in_region(c, row0, row1, col0, col1) implies reached(
        g,
        row0,
        row1,
        col0,
        col1,
        c,
    ) by {
        assert forall|i: int, j: int|
            in_grid(i) && in_grid(j) && in_region(i, row0, row1, col0, col1) && in_region(
                j,
                row0,
                row1,
                col0,
                col1,
            ) implies !#[trigger] clash(g, i, j) by {}
    }
    assert(reads_so_far(views, row0, row1, col0, col1, row1, col0) =~= scan_reads(
        views,
        g,
        row0,
        row1,
        col0,
        col1,
    ));
}

} // verus!

//! What a backtracking search keeps true from step to step, and why it ends.

use vstd::prelude::*;

use crate::rules::{
    agree_before, box_of, clash, col_of, completes, digit, digits_ok, extends, filled, in_grid,
    in_region, lemma_invalid_stays, no_later, passes, region_ok, row_of, valid_at, Grid,
};

verus! {

/// `cells` lists the empty squares of `g` in ascending order.
pub open spec fn lists_empty(cells: Seq<usize>, g: Grid) -> bool {
    &&& forall|k: int|
        0 <= k < cells.len() ==> in_grid(#[trigger] cells[k] as int) && g[cells[k] as int] is None
    &&& forall|k: int, l: int|
        0 <= k < l < cells.len() ==> #[trigger] cells[k] < #[trigger] cells[l]
    &&& forall|i: int| in_grid(i) && (#[trigger] g[i]) is None ==> cells.contains(i as usize)
}

/// Digit `c` can stand in square `cell` of `g`: written there, it leaves the
/// square valid.
pub open spec fn fits(g: Grid, cell: int, c: int) -> bool {
    1 <= c <= 9 && valid_at(g.update(cell, Some(c as u8)), cell)
}

/// No digit above `floor` and below `end` can stand in square `cell` of `g`.
pub open spec fn none_fit(g: Grid, cell: int, floor: int, end: int) -> bool {
    forall|c: int| floor < c < end ==> !#[trigger] fits(g, cell, c)
}

/// The square that the search works on, or -1 when it has none left.
pub open spec fn target(cells: Seq<usize>, pointer: int) -> int {
    if 0 <= pointer < cells.len() {
        cells[pointer] as int
    } else {
        -1
    }
}

/// The grid without the digit that the search is still trying.
pub open spec fn committed(now: Grid, cells: Seq<usize>, pointer: int) -> Grid {
    if 0 <= pointer < cells.len() {
        now.update(cells[pointer] as int, None)
    } else {
        now
    }
}

/// The search has not passed `s`: at the first square where `s` parts from
/// `now`, `s` has the larger digit, and at the square that the search works
/// on it has a larger digit than the one that stands there.
pub open spec fn not_passed(now: Grid, s: Grid, target: int) -> bool {
    forall|idx: int|
        in_grid(idx) && #[trigger] agree_before(now, s, idx) ==> {
            &&& digit(now[idx]) <= digit(s[idx])
            &&& idx == target ==> digit(now[idx]) < digit(s[idx])
        }
}

/// The search has passed no grid that completes `start`.
pub open spec fn nothing_missed(start: Grid, now: Grid, target: int) -> bool {
    forall|s: Grid| #[trigger] completes(s, start) ==> not_passed(now, s, target)
}

/// The squares before the pointer hold digits that are valid together, the
/// squares after it are empty, and the square at the pointer is empty or
/// holds a digit that was valid when the search last left it.
pub open spec fn placed(now: Grid, cells: Seq<usize>, pointer: int) -> bool {
    &&& forall|k: int| pointer < k < cells.len() ==> now[#[trigger] cells[k] as int] is None
    &&& forall|k: int| 0 <= k < pointer ==> now[#[trigger] cells[k] as int] is Some
    &&& forall|k: int|
        0 <= k < pointer ==> valid_at(committed(now, cells, pointer), #[trigger] cells[k] as int)
    &&& pointer < cells.len() ==> now[cells[pointer] as int] is None || pointer + 1 < cells.len()
    &&& pointer < cells.len() ==> passes(now, cells[pointer] as int)
}

/// The state of a search that began at `start`, stands at `now`, and works
/// on the empty square of `start` that `pointer` counts.
pub open spec fn searching(start: Grid, now: Grid, cells: Seq<usize>, pointer: int) -> bool {
    &&& digits_ok(now)
    &&& extends(now, start)
    &&& lists_empty(cells, start)
    &&& 0 <= pointer <= cells.len()
    &&& placed(now, cells, pointer)
    &&& nothing_missed(start, now, target(cells, pointer))
}

/// Writing to a square outside a region leaves the region as it was.
pub(crate) proof fn lemma_region_untouched(
    g: Grid,
    cell: int,
    value: Option<u8>,
    row0: int,
    row1: int,
    col0: int,
    col1: int,
)
    requires
        g.len() == 81,
        in_grid(cell),
        !in_region(cell, row0, row1, col0, col1),
    ensures
        region_ok(g.update(cell, value), row0, row1, col0, col1) == region_ok(
            g,
            row0,
            row1,
            col0,
            col1,
        ),
{
    let h = g.update(cell, value);
    if region_ok(g, row0, row1, col0, col1) {
        assert forall|i: int, j: int|
            in_grid(i) && in_grid(j) && in_region(i, row0, row1, col0, col1) && in_region(
                j,
                row0,
                row1,
                col0,
                col1,
            ) implies !#[trigger] clash(h, i, j) by {
            assert(!clash(g, i, j));
        }
    }
    if region_ok(h, row0, row1, col0, col1) {
        assert forall|i: int, j: int|
            in_grid(i) && in_grid(j) && in_region(i, row0, row1, col0, col1) && in_region(
                j,
                row0,
                row1,
                col0,
                col1,
            ) implies !#[trigger] clash(g, i, j) by {
            assert(!clash(h, i, j));
        }
    }
}

/// Clearing a square brings no clash into a region.
pub(crate) proof fn lemma_region_cleared(
    g: Grid,
    cell: int,
    row0: int,
    row1: int,
    col0: int,
    col1: int,
)
    requires
        g.len() == 81,
        in_grid(cell),
        region_ok(g, row0, row1, col0, col1),
    ensures
        region_ok(g.update(cell, None), row0, row1, col0, col1),
{
    let h = g.update(cell, None);
    assert forall|i: int, j: int|
        in_grid(i) && in_grid(j) && in_region(i, row0, row1, col0, col1) && in_region(
            j,
            row0,
            row1,
            col0,
            col1,
        ) implies !#[trigger] clash(h, i, j) by {
        assert(!clash(g, i, j));
    }
}

/// A square that is valid stays valid when another square is cleared.
pub(crate) proof fn lemma_valid_after_clear(g: Grid, cell: int, other: int)
    requires
        g.len() == 81,
        in_grid(cell),
        valid_at(g, other),
    ensures
        valid_at(g.update(cell, None), other),
{
    let row = row_of(other);
    let col = col_of(other);
    let bx = box_of(other);
    lemma_region_cleared(g, cell, row, row + 1, 0, 9);
    lemma_region_cleared(g, cell, 0, 9, col, col + 1);
    lemma_region_cleared(g, cell, bx / 3 * 3, bx / 3 * 3 + 3, bx % 3 * 3, bx % 3 * 3 + 3);
}

/// A square that is valid stays valid when a digit is written to another
/// square and is valid there.
pub(crate) proof fn lemma_valid_after_write(g: Grid, cell: int, value: Option<u8>, other: int)
    requires
        g.len() == 81,
        in_grid(cell),
        valid_at(g, other),
        valid_at(g.update(cell, value), cell),
    ensures
        valid_at(g.update(cell, value), other),
{
    let row = row_of(other);
    let col = col_of(other);
    let bx = box_of(other);
    if row_of(cell) != row {
        lemma_region_untouched(g, cell, value, row, row + 1, 0, 9);
    }
    if col_of(cell) != col {
        lemma_region_untouched(g, cell, value, 0, 9, col, col + 1);
    }
    if box_of(cell) != bx {
        lemma_region_untouched(
            g,
            cell,
            value,
            bx / 3 * 3,
            bx / 3 * 3 + 3,
            bx % 3 * 3,
            bx % 3 * 3 + 3,
        );
    }
}

/// A square between two neighbours of the list of empty squares, before the
/// first or after the last of them, is not empty.
pub(crate) proof fn lemma_between(cells: Seq<usize>, g: Grid, k: int, idx: int)
    requires
        lists_empty(cells, g),
        in_grid(idx),
        0 <= k <= cells.len(),
        k > 0 ==> cells[k - 1] < idx,
        k < cells.len() ==> idx < cells[k],
    ensures
        g[idx] is Some,
{
}

/// A search that has just begun.
pub(crate) proof fn lemma_start(start: Grid, cells: Seq<usize>)
    requires
        start.len() == 81,
        digits_ok(start),
        lists_empty(cells, start),
    ensures
        searching(start, start, cells, 0),
{
}

/// A search that stands at the first empty square, with that square
/// cleared, stands at the grid that it began at.
pub(crate) proof fn lemma_back_at_start(start: Grid, now: Grid, cells: Seq<usize>)
    requires
        searching(start, now, cells, 0),
        cells.len() > 0,
    ensures
        now.update(cells[0] as int, None) == start,
{
}

/// At every stand of a search, each square that was empty when it began
/// passes the check.
pub(crate) proof fn lemma_stands(start: Grid, now: Grid, cells: Seq<usize>, pointer: int)
    requires
        searching(start, now, cells, pointer),
    ensures
        forall|i: int| in_grid(i) && (#[trigger] start[i]) is None ==> passes(now, i),
{
    assert forall|i: int| in_grid(i) && (#[trigger] start[i]) is None implies passes(now, i) by {
        assert(cells.contains(i as usize));
        let k = choose|k: int| 0 <= k < cells.len() && cells[k] == i as usize;
        if k < pointer && pointer < cells.len() {
            let cell = cells[pointer] as int;
            let before = committed(now, cells, pointer);
            assert(valid_at(before, i));
            if now[cell] is Some {
                assert(before.update(cell, now[cell]) =~= now);
                lemma_valid_after_write(before, cell, now[cell], i);
            } else {
                assert(before =~= now);
            }
        } else if k < pointer {
            assert(valid_at(committed(now, cells, pointer), i));
        }
    }
}

/// While the search has squares left, the grid has an empty square.
pub(crate) proof fn lemma_unfinished(start: Grid, now: Grid, cells: Seq<usize>, pointer: int)
    requires
        searching(start, now, cells, pointer),
        pointer < cells.len(),
    ensures
        !filled(now),
{
    if now[cells[pointer] as int] is Some {
        assert(now[cells[pointer + 1] as int] is None);
    }
}

/// A search with no square left has filled the grid, and with the first
/// grid, in the order of [`no_later`], that completes the one it began at.
pub(crate) proof fn lemma_finished(start: Grid, now: Grid, cells: Seq<usize>)
    requires
        searching(start, now, cells, cells.len() as int),
    ensures
        completes(now, start),
        forall|s: Grid| #[trigger] completes(s, start) ==> no_later(now, s),
{
    assert forall|i: int| in_grid(i) implies (#[trigger] now[i]) is Some by {
        assert(start[i] is None ==> cells.contains(i as usize));
    }
    assert forall|s: Grid| #[trigger] completes(s, start) implies no_later(now, s) by {
        assert forall|idx: int| in_grid(idx) && agree_before(now, s, idx) implies digit(
            #[trigger] now[idx],
        ) <= digit(s[idx]) by {}
    }
}

/// No grid that completes `start` agrees with the search up to its square
/// and holds there a digit that does not fit.
pub(crate) proof fn lemma_refuted(start: Grid, now: Grid, cells: Seq<usize>, pointer: int, s: Grid)
    requires
        searching(start, now, cells, pointer),
        pointer < cells.len(),
        completes(s, start),
        agree_before(now, s, cells[pointer] as int),
    ensures
        fits(now, cells[pointer] as int, digit(s[cells[pointer] as int])),
{
    let cell = cells[pointer] as int;
    let h = now.update(cell, s[cell]);
    assert forall|i: int| in_grid(i) && (#[trigger] h[i]) is Some implies s[i] == h[i] by {
        if i > cell && start[i] is None {
            assert(cells.contains(i as usize));
        }
    }
    if !valid_at(h, cell) {
        lemma_invalid_stays(s, h, cell);
    }
}

/// After a digit was placed, the search has still passed no grid that
/// completes the one it began at.
pub(crate) proof fn lemma_place_misses_nothing(
    start: Grid,
    now: Grid,
    cells: Seq<usize>,
    pointer: int,
    c: int,
)
    requires
        searching(start, now, cells, pointer),
        pointer < cells.len(),
        digit(now[cells[pointer] as int]) < c <= 9,
        none_fit(now, cells[pointer] as int, digit(now[cells[pointer] as int]), c),
    ensures
        nothing_missed(
            start,
            now.update(cells[pointer] as int, Some(c as u8)),
            target(cells, pointer + 1),
        ),
{
    let cell = cells[pointer] as int;
    let next = now.update(cell, Some(c as u8));
    let goal = target(cells, pointer + 1);
    assert forall|s: Grid| #[trigger] completes(s, start) implies not_passed(next, s, goal) by {
        assert forall|idx: int| in_grid(idx) && #[trigger] agree_before(next, s, idx) implies {
            &&& digit(next[idx]) <= digit(s[idx])
            &&& idx == goal ==> digit(next[idx]) < digit(s[idx])
        } by {
            if idx <= cell {
                assert forall|i: int| 0 <= i < idx implies #[trigger] now[i] == s[i] by {
                    assert(next[i] == s[i]);
                }
                assert(agree_before(now, s, idx));
                if idx == cell {
                    lemma_refuted(start, now, cells, pointer, s);
                }
            } else if start[idx] is None {
                assert(cells.contains(idx as usize));
            }
        }
    }
}

/// Where no digit fits the square of the search: if it is the first empty
/// square, nothing completes the grid that the search began at; otherwise
/// the search goes back one square and has still passed no such grid.
pub(crate) proof fn lemma_retreat_misses_nothing(
    start: Grid,
    now: Grid,
    cells: Seq<usize>,
    pointer: int,
)
    requires
        searching(start, now, cells, pointer),
        pointer < cells.len(),
        none_fit(now, cells[pointer] as int, digit(now[cells[pointer] as int]), 10),
    ensures
        pointer == 0 ==> forall|s: Grid| !#[trigger] completes(s, start),
        pointer > 0 ==> nothing_missed(
            start,
            now.update(cells[pointer] as int, None),
            target(cells, pointer - 1),
        ),
{
    let cell = cells[pointer] as int;
    // No grid that completes `start` agrees with the search up to its square.
    assert forall|s: Grid| #[trigger] completes(s, start) implies !agree_before(now, s, cell) by {
        if agree_before(now, s, cell) {
            lemma_refuted(start, now, cells, pointer, s);
        }
    }
    if pointer == 0 {
        assert forall|s: Grid| !#[trigger] completes(s, start) by {
            if completes(s, start) {
                assert forall|i: int| 0 <= i < cell implies #[trigger] now[i] == s[i] by {
                    lemma_between(cells, start, 0, i);
                }
            }
        }
    } else {
        let back = cells[pointer - 1] as int;
        let next = now.update(cell, None);
        assert forall|s: Grid| #[trigger] completes(s, start) implies not_passed(next, s, back) by {
            assert forall|idx: int| in_grid(idx) && #[trigger] agree_before(next, s, idx) implies {
                &&& digit(next[idx]) <= digit(s[idx])
                &&& idx == back ==> digit(next[idx]) < digit(s[idx])
            } by {
                if idx <= back {
                    assert forall|i: int| 0 <= i < idx implies #[trigger] now[i] == s[i] by {
                        assert(next[i] == s[i]);
                    }
                    assert(agree_before(now, s, idx));
                    if idx == back && digit(now[back]) == digit(s[back]) {
                        assert forall|i: int| 0 <= i < cell implies #[trigger] now[i] == s[i] by {
                            if i > back {
                                lemma_between(cells, start, pointer, i);
                            }
                        }
                    }
                } else if idx < cell {
                    lemma_between(cells, start, pointer, idx);
                }
            }
        }
    }
}

/// The search places a digit that fits, and goes on to the next square.
pub(crate) proof fn lemma_place(start: Grid, now: Grid, cells: Seq<usize>, pointer: int, c: int)
    requires
        searching(start, now, cells, pointer),
        pointer < cells.len(),
        digit(now[cells[pointer] as int]) < c <= 9,
        none_fit(now, cells[pointer] as int, digit(now[cells[pointer] as int]), c),
        fits(now, cells[pointer] as int, c),
    ensures
        searching(start, now.update(cells[pointer] as int, Some(c as u8)), cells, pointer + 1),
{
    let cell = cells[pointer] as int;
    let next = now.update(cell, Some(c as u8));
    let before = committed(now, cells, pointer);
    lemma_place_misses_nothing(start, now, cells, pointer, c);
    assert(before.update(cell, Some(c as u8)) =~= next);
    if pointer + 1 < cells.len() {
        assert(next.update(cells[pointer + 1] as int, None) =~= next);
    }
    assert forall|k: int| 0 <= k < pointer + 1 implies valid_at(
        committed(next, cells, pointer + 1),
        #[trigger] cells[k] as int,
    ) by {
        if k < pointer {
            lemma_valid_after_write(before, cell, Some(c as u8), cells[k] as int);
        }
    }
}

/// The search clears a square that no digit fits, and goes back one square.
pub(crate) proof fn lemma_retreat(start: Grid, now: Grid, cells: Seq<usize>, pointer: int)
    requires
        searching(start, now, cells, pointer),
        0 < pointer < cells.len(),
        none_fit(now, cells[pointer] as int, digit(now[cells[pointer] as int]), 10),
    ensures
        searching(start, now.update(cells[pointer] as int, None), cells, pointer - 1),
{
    let cell = cells[pointer] as int;
    let back = cells[pointer - 1] as int;
    let next = now.update(cell, None);
    lemma_retreat_misses_nothing(start, now, cells, pointer);
    assert forall|k: int| 0 <= k < pointer - 1 implies valid_at(
        committed(next, cells, pointer - 1),
        #[trigger] cells[k] as int,
    ) by {
        lemma_valid_after_clear(next, back, cells[k] as int);
    }
}

/// The number that a sequence of marks, each from 0 to 19, writes in base 20.
pub open spec fn weight(marks: Seq<int>) -> int
    decreases marks.len(),
{
    if marks.len() == 0 {
        0
    } else {
        weight(marks.drop_last()) * 20 + marks.last()
    }
}

/// The largest number that `n` marks can write.
pub open spec fn cap(n: nat) -> int
    decreases n,
{
    if n == 0 {
        0
    } else {
        cap((n - 1) as nat) * 20 + 19
    }
}

/// The mark of the empty square that `k` counts: odd for a digit that is
/// placed, even for the digit that the search has tried last in the square
/// it works on, 0 for a square that it has not reached.
pub open spec fn mark(now: Grid, cells: Seq<usize>, pointer: int, k: int) -> int {
    if k < pointer {
        2 * digit(now[cells[k] as int]) - 1
    } else if k == pointer {
        2 * digit(now[cells[k] as int])
    } else {
        0
    }
}

/// The marks of all empty squares.
pub open spec fn marks(now: Grid, cells: Seq<usize>, pointer: int) -> Seq<int> {
    Seq::new(cells.len(), |k: int| mark(now, cells, pointer, k))
}

/// How far the search has come: each step makes it larger.
pub open spec fn progress(now: Grid, cells: Seq<usize>, pointer: int) -> int {
    weight(marks(now, cells, pointer))
}

/// The steps that the search can take at most from here.
pub open spec fn steps_left(now: Grid, cells: Seq<usize>, pointer: int) -> int {
    cap(cells.len()) - progress(now, cells, pointer)
}

/// Marks from 0 to 19 write a number from 0 to the cap of their length.
pub(crate) proof fn lemma_weight_bounds(a: Seq<int>)
    requires
        forall|k: int| 0 <= k < a.len() ==> 0 <= #[trigger] a[k] <= 19,
    ensures
        0 <= weight(a) <= cap(a.len()),
    decreases a.len(),
{
    if a.len() > 0 {
        lemma_weight_bounds(a.drop_last());
    }
}

/// Of two sequences of marks that agree up to a place where the second has
/// the larger mark, the second writes the larger number.
pub(crate) proof fn lemma_weight_order(a: Seq<int>, b: Seq<int>, at: int)
    requires
        a.len() == b.len(),
        0 <= at < a.len(),
        forall|k: int| 0 <= k < a.len() ==> 0 <= #[trigger] a[k] <= 19,
        forall|k: int| 0 <= k < b.len() ==> 0 <= #[trigger] b[k] <= 19,
        forall|k: int| 0 <= k < at ==> a[k] == b[k],
        a[at] < b[at],
    ensures
        weight(a) < weight(b),
    decreases a.len(),
{
    if at == a.len() - 1 {
        assert(a.drop_last() =~= b.drop_last());
    } else {
        lemma_weight_order(a.drop_last(), b.drop_last(), at);
    }
}

/// The marks of a search are from 0 to 19.
pub(crate) proof fn lemma_marks_bounds(start: Grid, now: Grid, cells: Seq<usize>, pointer: int)
    requires
        searching(start, now, cells, pointer),
    ensures
        forall|k: int|
            0 <= k < cells.len() ==> 0 <= #[trigger] marks(now, cells, pointer)[k] <= 19,
        0 <= steps_left(now, cells, pointer) <= cap(cells.len()),
{
    assert forall|k: int| 0 <= k < cells.len() implies 0 <= #[trigger] marks(
        now,
        cells,
        pointer,
    )[k] <= 19 by {
        let cell = cells[k] as int;
        assert(match now[cell] {
            Some(d) => 1 <= d <= 9,
            None => true,
        });
    }
    lemma_weight_bounds(marks(now, cells, pointer));
}

/// A step of the search, forward or back, leaves fewer steps to take: no
/// state of a search comes twice, and a search over `n` empty squares ends
/// within `cap(n)` steps.
pub proof fn lemma_progress(
    start: Grid,
    now: Grid,
    cells: Seq<usize>,
    pointer: int,
    next: Grid,
    moved: int,
)
    requires
        searching(start, now, cells, pointer),
        searching(start, next, cells, moved),
        pointer < cells.len(),
        next == now.update(cells[pointer] as int, next[cells[pointer] as int]),
        moved == pointer + 1 && digit(now[cells[pointer] as int]) < digit(
            next[cells[pointer] as int],
        ) || moved == pointer - 1 && next[cells[pointer] as int] is None,
    ensures
        0 <= steps_left(next, cells, moved) < steps_left(now, cells, pointer) <= cap(cells.len()),
{
    let a = marks(now, cells, pointer);
    let b = marks(next, cells, moved);
    lemma_marks_bounds(start, now, cells, pointer);
    lemma_marks_bounds(start, next, cells, moved);
    let at = if moved == pointer + 1 {
        pointer
    } else {
        pointer - 1
    };
    lemma_weight_order(a, b, at);
}

/// The writes of a step that found the digit `floor` in its square and left
/// `left` there: one for each digit that it tried, and one more if it
/// cleared the square after the last of them.
pub open spec fn step_writes(floor: int, left: Option<u8>) -> int {
    match left {
        Some(d) => d - floor,
        None => 10 - floor,
    }
}

/// The writes that a search makes at most: ten for each of its steps, and
/// ten for a step that ends with an error.
pub open spec fn write_limit() -> int {
    10 * (cap(81) + 1)
}

/// A step writes at least once and at most ten times; a step that leaves a
/// digit in its square has tried only the digits above the floor up to that
/// digit, at most nine of them. So a search that never goes back writes at
/// most nine times for each empty square.
pub proof fn lemma_step_writes(floor: int, left: Option<u8>)
    requires
        0 <= floor <= 9,
        left matches Some(d) ==> floor < d <= 9,
    ensures
        1 <= step_writes(floor, left) <= 10,
        left is Some ==> step_writes(floor, left) <= 9 - floor,
{
}

/// More marks can write a larger number.
pub(crate) proof fn lemma_cap_grows(n: nat, m: nat)
    requires
        n <= m,
    ensures
        0 <= cap(n) <= cap(m),
    decreases m,
{
    if n < m {
        lemma_cap_grows(n, (m - 1) as nat);
    } else if n > 0 {
        lemma_cap_grows((n - 1) as nat, (m - 1) as nat);
    }
}

/// A list of empty squares in ascending order has at most 81 of them.
pub(crate) proof fn lemma_cells_fit(cells: Seq<usize>, g: Grid)
    requires
        lists_empty(cells, g),
    ensures
        cells.len() <= 81,
{
    if cells.len() > 0 {
        lemma_cells_at_least(cells, g, cells.len() - 1);
    }
}

/// The empty square that `k` counts has at least `k` squares before it.
pub(crate) proof fn lemma_cells_at_least(cells: Seq<usize>, g: Grid, k: int)
    requires
        lists_empty(cells, g),
        0 <= k < cells.len(),
    ensures
        k <= cells[k],
    decreases k,
{
    if k > 0 {
        lemma_cells_at_least(cells, g, k - 1);
        assert(cells[k - 1] < cells[k]);
    }
}

} // verus!
